//! What holds of every resolution.

use vstd::prelude::*;

use crate::descriptor::DescriptorView;
use crate::error::ErrorView;
use crate::hints::hint_for;
use crate::interface::{with_name, ImportView};
use crate::names::{lemma_position, position};
use crate::resolve::{
    candidates, exported, first_dangling, first_dangling_import, first_misdirected, first_repeated,
    ids, imports, provider, providers, resolution, source, with_imports, with_names, ImportsView,
    ResolutionView,
};
use crate::wasm::entry_names;

verus! {

/// The descriptor `exporter` has the ID `id` and exports `name`.
pub open spec fn exports_as(exporter: DescriptorView, id: Seq<char>, name: Seq<char>) -> bool {
    exporter.id == id && exporter.ty.exports.contains(name)
}

/// Some descriptor with the ID `id` exports `name`.
pub open spec fn is_exported_by(
    descriptors: Seq<DescriptorView>,
    id: Seq<char>,
    name: Seq<char>,
) -> bool {
    exists|j: int| 0 <= j < descriptors.len() && exports_as(#[trigger] descriptors[j], id, name)
}

/// Some descriptor exports `name`.
pub open spec fn is_exported(descriptors: Seq<DescriptorView>, name: Seq<char>) -> bool {
    exists|j: int| 0 <= j < descriptors.len() && (#[trigger] descriptors[j]).ty.exports.contains(name)
}

/// Some descriptor with the ID `id` imports `name`.
pub open spec fn is_imported_by(
    descriptors: Seq<DescriptorView>,
    id: Seq<char>,
    name: Seq<char>,
) -> bool {
    exists|i: int|
        0 <= i < descriptors.len() && (#[trigger] descriptors[i]).id == id
            && descriptors[i].ty.imports.contains(name)
}

/// One of `links` provides the import `name` to the composable `id`.
pub open spec fn is_linked(links: Seq<ImportView>, id: Seq<char>, name: Seq<char>) -> bool {
    exists|k: int|
        0 <= k < links.len() && (#[trigger] links[k]).importer_id == id && links[k].interface
            == name
}

// ---------------------------------------------------------------------------
// Laws
// ---------------------------------------------------------------------------

/// Every export of a composition is provided by one of its composables, which
/// exports it; and what the composition exports is what some composable exports.
pub proof fn every_export_has_a_provider(
    descriptors: Seq<DescriptorView>,
    export_hints: Seq<(Seq<char>, Seq<char>)>,
    name: Seq<char>,
)
    requires
        resolution(descriptors, export_hints) is Ok,
    ensures
        exported(descriptors).contains(name) <==> is_exported(descriptors, name),
        hint_for(resolution(descriptors, export_hints)->Ok_0.providers, name) is Some
            <==> is_exported(descriptors, name),
        hint_for(resolution(descriptors, export_hints)->Ok_0.providers, name) matches Some(id)
            ==> is_exported_by(descriptors, id, name),
{
    lemma_exported(descriptors, name);
    let names = exported(descriptors);
    let found = resolution(descriptors, export_hints)->Ok_0.providers;
    lemma_providers(descriptors, export_hints, names);
    lemma_position(entry_names(found), name);
    assert(entry_names(found) == names);
    if let Some(id) = hint_for(found, name) {
        let i = position(entry_names(found), name)->0;
        assert(found[i].0 == entry_names(found)[i]);
        lemma_provider_exports(descriptors, export_hints, name);
    }
}

/// Every import of a composable is settled: either a composable of the same
/// composition that exports it provides it, or none does and it is left to be
/// imported by the composition.
pub proof fn every_import_is_settled(
    descriptors: Seq<DescriptorView>,
    export_hints: Seq<(Seq<char>, Seq<char>)>,
    i: int,
    name: Seq<char>,
)
    requires
        resolution(descriptors, export_hints) is Ok,
        0 <= i < descriptors.len(),
        descriptors[i].ty.imports.contains(name),
    ensures
        is_exported(descriptors, name) ==> is_linked(
            resolution(descriptors, export_hints)->Ok_0.imports.resolved,
            descriptors[i].id,
            name,
        ),
        !is_exported(descriptors, name) ==> resolution(
            descriptors,
            export_hints,
        )->Ok_0.imports.external.contains(name),
{
    lemma_settled(descriptors, descriptors, i, name);
    lemma_no_candidates(descriptors, name);
}

/// A resolved import is one that its importer has and its exporter exports, and
/// an import that is left is one that some composable has and none exports.
pub proof fn only_imports_are_resolved(
    descriptors: Seq<DescriptorView>,
    export_hints: Seq<(Seq<char>, Seq<char>)>,
    k: int,
    name: Seq<char>,
)
    requires
        resolution(descriptors, export_hints) is Ok,
    ensures
        0 <= k < resolution(descriptors, export_hints)->Ok_0.imports.resolved.len() ==> {
            let link = resolution(descriptors, export_hints)->Ok_0.imports.resolved[k];
            is_imported_by(descriptors, link.importer_id, link.interface) && is_exported_by(
                descriptors,
                link.exporter_id,
                link.interface,
            )
        },
        resolution(descriptors, export_hints)->Ok_0.imports.external.contains(name) ==> {
            &&& exists|i: int|
                0 <= i < descriptors.len() && (
                #[trigger] descriptors[i]).ty.imports.contains(name)
            &&& !is_exported(descriptors, name)
        },
{
    lemma_imports_hold(descriptors, descriptors, name);
    lemma_no_candidates(descriptors, name);
    if 0 <= k < resolution(descriptors, export_hints)->Ok_0.imports.resolved.len() {
        let link = resolution(descriptors, export_hints)->Ok_0.imports.resolved[k];
        assert(settles(descriptors, descriptors, link));
        lemma_candidate(descriptors, link.interface, link.exporter_id);
    }
}

/// When composables fit together: there is one, no two have the same ID, every
/// hint points to one of them that exports the interface, and where several export
/// an interface a hint says which of them provides it, to the outside and to each
/// that imports it.
pub open spec fn fit_together(
    descriptors: Seq<DescriptorView>,
    export_hints: Seq<(Seq<char>, Seq<char>)>,
) -> bool {
    &&& descriptors.len() > 0
    &&& ids(descriptors).no_duplicates()
    &&& all_directed(descriptors, export_hints)
    &&& forall|i: int|
        0 <= i < descriptors.len() ==> all_directed(descriptors, (#[trigger] descriptors[i]).hints)
    &&& forall|name: Seq<char>| #[trigger]
        several(descriptors, name) ==> hint_for(export_hints, name) is Some
    &&& forall|i: int, name: Seq<char>|
        #![trigger descriptors[i].ty.imports.contains(name)]
        0 <= i < descriptors.len() && descriptors[i].ty.imports.contains(name) && several(
            descriptors,
            name,
        ) ==> hint_for(descriptors[i].hints, name) is Some
}

/// Every hint points to one that exports the interface.
pub open spec fn all_directed(
    descriptors: Seq<DescriptorView>,
    hints: Seq<(Seq<char>, Seq<char>)>,
) -> bool {
    forall|k: int|
        0 <= k < hints.len() ==> is_exported_by(descriptors, (#[trigger] hints[k]).1, hints[k].0)
}

/// Every hint points to one of `ids`.
pub open spec fn all_known(ids: Seq<Seq<char>>, hints: Seq<(Seq<char>, Seq<char>)>) -> bool {
    forall|k: int| 0 <= k < hints.len() ==> ids.contains((#[trigger] hints[k]).1)
}

/// More than one descriptor exports `name`.
pub open spec fn several(descriptors: Seq<DescriptorView>, name: Seq<char>) -> bool {
    exists|j: int, k: int|
        0 <= j < k < descriptors.len() && (#[trigger] descriptors[j]).ty.exports.contains(name) && (
        #[trigger] descriptors[k]).ty.exports.contains(name)
}

/// Composing succeeds just where the composables fit together.
pub proof fn resolution_succeeds_where_composables_fit(
    descriptors: Seq<DescriptorView>,
    export_hints: Seq<(Seq<char>, Seq<char>)>,
)
    ensures
        resolution(descriptors, export_hints) is Ok <==> fit_together(descriptors, export_hints),
{
    let known = ids(descriptors);
    lemma_distinct(known);
    lemma_dangling(known, export_hints);
    lemma_dangling_import(known, descriptors);
    lemma_misdirected(descriptors, export_hints);
    lemma_providers_succeed(descriptors, export_hints, exported(descriptors));
    lemma_imports_succeed(descriptors, descriptors);
    assert forall|name: Seq<char>| true implies #[trigger] several(descriptors, name) == (
    candidates(descriptors, name).len() > 1) by {
        lemma_several(descriptors, name);
    }
    if resolution(descriptors, export_hints) is Ok {
        assert forall|name: Seq<char>| #[trigger] several(descriptors, name) implies hint_for(
            export_hints,
            name,
        ) is Some by {
            lemma_exported(descriptors, name);
            lemma_no_candidates(descriptors, name);
            let names = exported(descriptors);
            let i = choose|i: int| 0 <= i < names.len() && names[i] == name;
            assert(provider(descriptors, export_hints, names[i]) is Ok);
        }
        assert forall|i: int| 0 <= i < descriptors.len() implies all_directed(
            descriptors,
            (#[trigger] descriptors[i]).hints,
        ) by {
            lemma_misdirected(descriptors, descriptors[i].hints);
            assert(sources_found(descriptors, descriptors[i]));
        }
        assert forall|i: int, name: Seq<char>|
            #![trigger descriptors[i].ty.imports.contains(name)]
            0 <= i < descriptors.len() && descriptors[i].ty.imports.contains(name) && several(
                descriptors,
                name,
            ) implies hint_for(descriptors[i].hints, name) is Some by {
            assert(sources_found(descriptors, descriptors[i]));
            let names = descriptors[i].ty.imports;
            let k = choose|k: int| 0 <= k < names.len() && names[k] == name;
            assert(source(descriptors, descriptors[i], names[k]) is Ok);
        }
    }
    if fit_together(descriptors, export_hints) {
        lemma_directed_are_known(descriptors, export_hints);
        let names = exported(descriptors);
        assert forall|k: int| 0 <= k < names.len() implies provider(
            descriptors,
            export_hints,
            #[trigger] names[k],
        ) is Ok by {
            assert(names.contains(names[k]));
            lemma_exported(descriptors, names[k]);
            lemma_no_candidates(descriptors, names[k]);
            assert(several(descriptors, names[k]) ==> hint_for(export_hints, names[k]) is Some);
        }
        assert forall|i: int| 0 <= i < descriptors.len() implies sources_found(
            descriptors,
            #[trigger] descriptors[i],
        ) && all_known(known, descriptors[i].hints) by {
            lemma_directed_are_known(descriptors, descriptors[i].hints);
            lemma_misdirected(descriptors, descriptors[i].hints);
            let wanted = descriptors[i].ty.imports;
            assert forall|k: int| 0 <= k < wanted.len() implies source(
                descriptors,
                descriptors[i],
                #[trigger] wanted[k],
            ) is Ok by {
                assert(descriptors[i].ty.imports.contains(wanted[k]));
                assert(several(descriptors, wanted[k]) ==> hint_for(
                    descriptors[i].hints,
                    wanted[k],
                ) is Some);
            }
        }
    }
}

/// Where the importer has a hint for an import, the one that the hint names provides
/// it; and where several composables export it, there is a hint.
pub proof fn import_hints_decide(
    descriptors: Seq<DescriptorView>,
    export_hints: Seq<(Seq<char>, Seq<char>)>,
    k: int,
)
    requires
        resolution(descriptors, export_hints) is Ok,
        0 <= k < resolution(descriptors, export_hints)->Ok_0.imports.resolved.len(),
    ensures
        ({
            let link = resolution(descriptors, export_hints)->Ok_0.imports.resolved[k];
            forall|i: int|
                0 <= i < descriptors.len() && (#[trigger] descriptors[i]).id == link.importer_id ==> {
                    &&& several(descriptors, link.interface) ==> hint_for(
                        descriptors[i].hints,
                        link.interface,
                    ) is Some
                    &&& hint_for(descriptors[i].hints, link.interface) matches Some(id) ==> id
                        == link.exporter_id
                }
        }),
{
    let link = resolution(descriptors, export_hints)->Ok_0.imports.resolved[k];
    lemma_several(descriptors, link.interface);
    lemma_distinct(ids(descriptors));
    lemma_hinted(descriptors, descriptors, k);
    assert forall|i: int|
        0 <= i < descriptors.len() && (#[trigger] descriptors[i]).id == link.importer_id implies {
        &&& several(descriptors, link.interface) ==> hint_for(
            descriptors[i].hints,
            link.interface,
        ) is Some
        &&& hint_for(descriptors[i].hints, link.interface) matches Some(id) ==> id
            == link.exporter_id
    } by {
        let j = choose|j: int|
            0 <= j < descriptors.len() && (#[trigger] descriptors[j]).id == link.importer_id
                && source(descriptors, descriptors[j], link.interface) == Ok::<
                Option<Seq<char>>,
                ErrorView,
            >(Some(link.exporter_id));
        assert(ids(descriptors)[i] == ids(descriptors)[j]);
    }
}

/// Where there is an export hint for an interface, the one that the hint names
/// provides it to the outside; and where several composables export it, there is a
/// hint.
pub proof fn export_hints_decide(
    descriptors: Seq<DescriptorView>,
    export_hints: Seq<(Seq<char>, Seq<char>)>,
    name: Seq<char>,
)
    requires
        resolution(descriptors, export_hints) is Ok,
        is_exported(descriptors, name),
    ensures
        several(descriptors, name) ==> hint_for(export_hints, name) is Some,
        hint_for(export_hints, name) is Some ==> hint_for(
            resolution(descriptors, export_hints)->Ok_0.providers,
            name,
        ) == hint_for(export_hints, name),
{
    lemma_several(descriptors, name);
    lemma_no_candidates(descriptors, name);
    lemma_provider_found(descriptors, export_hints, name);
}

/// A hint that names one that does not export the interface is refused, also where
/// only one composable exports it or none does.
pub proof fn hints_to_others_are_refused(
    descriptors: Seq<DescriptorView>,
    export_hints: Seq<(Seq<char>, Seq<char>)>,
    i: int,
    k: int,
)
    ensures
        0 <= k < export_hints.len() && !is_exported_by(
            descriptors,
            export_hints[k].1,
            export_hints[k].0,
        ) ==> resolution(descriptors, export_hints) is Err,
        0 <= i < descriptors.len() && 0 <= k < descriptors[i].hints.len() && !is_exported_by(
            descriptors,
            descriptors[i].hints[k].1,
            descriptors[i].hints[k].0,
        ) ==> resolution(descriptors, export_hints) is Err,
{
    resolution_succeeds_where_composables_fit(descriptors, export_hints);
}

/// `found` are the IDs of those that export `name`.
pub open spec fn are_exporters(
    descriptors: Seq<DescriptorView>,
    name: Seq<char>,
    found: Seq<Seq<char>>,
) -> bool {
    forall|id: Seq<char>| #[trigger]
        found.contains(id) <==> is_exported_by(descriptors, id, name)
}

/// One of the composables has this import hint.
pub open spec fn has_import_hint(
    descriptors: Seq<DescriptorView>,
    interface: Seq<char>,
    id: Seq<char>,
) -> bool {
    exists|i: int|
        0 <= i < descriptors.len() && (#[trigger] descriptors[i]).hints.contains((interface, id))
}

/// One of the composables imports `name` and has no hint for it.
pub open spec fn is_unhinted_import(descriptors: Seq<DescriptorView>, name: Seq<char>) -> bool {
    exists|i: int|
        0 <= i < descriptors.len() && (#[trigger] descriptors[i]).ty.imports.contains(name)
            && hint_for(descriptors[i].hints, name) is None
}

/// What an error says is so: the ID occurs twice, the hint is there and points to an
/// unknown ID or to one that does not export the interface, the interface has
/// several exporters, all of which are named, and no hint.
pub proof fn errors_say_what_is_wrong(
    descriptors: Seq<DescriptorView>,
    export_hints: Seq<(Seq<char>, Seq<char>)>,
)
    requires
        resolution(descriptors, export_hints) is Err,
    ensures
        match resolution(descriptors, export_hints)->Err_0 {
            ErrorView::Empty => descriptors.len() == 0,
            ErrorView::DuplicateId(id) => exists|i: int, j: int|
                0 <= i < j < descriptors.len() && (#[trigger] descriptors[i]).id == id && (
                #[trigger] descriptors[j]).id == id,
            ErrorView::InvalidLinkReference { interface, target_id } => {
                &&& !ids(descriptors).contains(target_id)
                &&& export_hints.contains((interface, target_id)) || has_import_hint(
                    descriptors,
                    interface,
                    target_id,
                )
            },
            ErrorView::ExportHintInvalid { interface, target_id } => {
                &&& !is_exported_by(descriptors, target_id, interface)
                &&& export_hints.contains((interface, target_id))
            },
            ErrorView::ImportHintInvalid { interface, target_id } => {
                &&& !is_exported_by(descriptors, target_id, interface)
                &&& has_import_hint(descriptors, interface, target_id)
            },
            ErrorView::AmbiguousExport { interface, candidates } => {
                &&& several(descriptors, interface)
                &&& are_exporters(descriptors, interface, candidates)
                &&& hint_for(export_hints, interface) is None
            },
            ErrorView::AmbiguousImport { interface, candidates } => {
                &&& several(descriptors, interface)
                &&& are_exporters(descriptors, interface, candidates)
                &&& is_unhinted_import(descriptors, interface)
            },
            _ => false,
        },
{
    let known = ids(descriptors);
    if descriptors.len() == 0 {
    } else if first_repeated(known) is Some {
        lemma_first_repeated(known);
        let id = first_repeated(known)->0;
        let (i, j) = choose|i: int, j: int|
            0 <= i < j < known.len() && #[trigger] known[i] == id && #[trigger] known[j] == id;
        assert(descriptors[i].id == id && descriptors[j].id == id);
    } else if first_dangling_import(known, descriptors) is Some {
        lemma_first_dangling_import(known, descriptors);
    } else if first_dangling(known, export_hints) is Some {
        lemma_first_dangling(known, export_hints);
    } else if first_misdirected(descriptors, export_hints) is Some {
        lemma_first_misdirected(descriptors, export_hints);
    } else {
        lemma_all_exported(descriptors);
        match providers(descriptors, export_hints, exported(descriptors)) {
            Err(_) => lemma_providers_error(descriptors, export_hints, exported(descriptors)),
            Ok(_) => lemma_imports_error(descriptors, descriptors),
        }
    }
}

/// Which kind of error comes first: composables that are missing or have the same ID
/// come before unknown IDs in hints, these before what is wrong with the exports, and
/// this before what is wrong with the imports.
pub proof fn errors_come_in_order(
    descriptors: Seq<DescriptorView>,
    export_hints: Seq<(Seq<char>, Seq<char>)>,
)
    ensures
        ({
            let outcome = resolution(descriptors, export_hints);
            let distinct = descriptors.len() > 0 && ids(descriptors).no_duplicates();
            let hints_known = all_known(ids(descriptors), export_hints) && forall|i: int|
                0 <= i < descriptors.len() ==> all_known(
                    ids(descriptors),
                    (#[trigger] descriptors[i]).hints,
                );
            let exports_directed = all_directed(descriptors, export_hints);
            let exports_settled = forall|name: Seq<char>| #[trigger]
                several(descriptors, name) ==> hint_for(export_hints, name) is Some;
            &&& outcome == Err::<ResolutionView, ErrorView>(ErrorView::Empty) <==> descriptors.len()
                == 0
            &&& (outcome is Err && outcome->Err_0 is DuplicateId) <==> descriptors.len() > 0
                && !distinct
            &&& (outcome is Err && outcome->Err_0 is InvalidLinkReference) <==> distinct
                && !hints_known
            &&& (outcome is Err && outcome->Err_0 is ExportHintInvalid) <==> distinct && hints_known
                && !exports_directed
            &&& (outcome is Err && outcome->Err_0 is AmbiguousExport) <==> distinct && hints_known
                && exports_directed && !exports_settled
        }),
{
    let known = ids(descriptors);
    lemma_distinct(known);
    lemma_dangling(known, export_hints);
    lemma_dangling_import(known, descriptors);
    lemma_misdirected(descriptors, export_hints);
    lemma_providers_succeed(descriptors, export_hints, exported(descriptors));
    let names = exported(descriptors);
    assert((forall|k: int|
        0 <= k < names.len() ==> provider(descriptors, export_hints, #[trigger] names[k]) is Ok)
        <==> forall|name: Seq<char>| #[trigger]
        several(descriptors, name) ==> hint_for(export_hints, name) is Some) by {
        if forall|k: int|
            0 <= k < names.len() ==> provider(descriptors, export_hints, #[trigger] names[k]) is Ok {
            assert forall|name: Seq<char>| #[trigger] several(descriptors, name) implies hint_for(
                export_hints,
                name,
            ) is Some by {
                lemma_several(descriptors, name);
                lemma_exported(descriptors, name);
                lemma_no_candidates(descriptors, name);
                let k = choose|k: int| 0 <= k < names.len() && names[k] == name;
                assert(provider(descriptors, export_hints, names[k]) is Ok);
            }
        }
        if forall|name: Seq<char>| #[trigger]
            several(descriptors, name) ==> hint_for(export_hints, name) is Some {
            assert forall|k: int| 0 <= k < names.len() implies provider(
                descriptors,
                export_hints,
                #[trigger] names[k],
            ) is Ok by {
                assert(names.contains(names[k]));
                lemma_several(descriptors, names[k]);
                lemma_exported(descriptors, names[k]);
                lemma_no_candidates(descriptors, names[k]);
                assert(several(descriptors, names[k]) ==> hint_for(export_hints, names[k]) is Some);
            }
        }
    }
    lemma_all_exported(descriptors);
    match providers(descriptors, export_hints, names) {
        Err(_) => lemma_providers_error(descriptors, export_hints, names),
        Ok(_) => {
            if imports(descriptors, descriptors) is Err {
                lemma_imports_error(descriptors, descriptors);
            }
        },
    }
}

/// No import is resolved twice.
pub proof fn imports_are_resolved_once(
    descriptors: Seq<DescriptorView>,
    export_hints: Seq<(Seq<char>, Seq<char>)>,
    a: int,
    b: int,
)
    requires
        resolution(descriptors, export_hints) is Ok,
        forall|i: int|
            0 <= i < descriptors.len() ==> (#[trigger] descriptors[i]).ty.imports.no_duplicates(),
        0 <= a < b < resolution(descriptors, export_hints)->Ok_0.imports.resolved.len(),
    ensures
        ({
            let links = resolution(descriptors, export_hints)->Ok_0.imports.resolved;
            links[a].importer_id != links[b].importer_id || links[a].interface != links[b].interface
        }),
{
    lemma_distinct(ids(descriptors));
    lemma_resolved_once(descriptors, descriptors, a, b);
}

/// `a` and `b` have the same descriptors, in some order.
pub open spec fn same_descriptors(a: Seq<DescriptorView>, b: Seq<DescriptorView>) -> bool {
    forall|descriptor: DescriptorView| #[trigger] a.contains(descriptor) <==> b.contains(descriptor)
}

/// Who provides an export does not depend on the order in which the composables are
/// added.
pub proof fn providers_do_not_depend_on_order(
    a: Seq<DescriptorView>,
    b: Seq<DescriptorView>,
    export_hints: Seq<(Seq<char>, Seq<char>)>,
    name: Seq<char>,
)
    requires
        same_descriptors(a, b),
        resolution(a, export_hints) is Ok,
        resolution(b, export_hints) is Ok,
    ensures
        hint_for(resolution(a, export_hints)->Ok_0.providers, name) == hint_for(
            resolution(b, export_hints)->Ok_0.providers,
            name,
        ),
{
    every_export_has_a_provider(a, export_hints, name);
    every_export_has_a_provider(b, export_hints, name);
    lemma_exported_in_any_order(a, b, name);
    lemma_distinct(ids(a));
    lemma_distinct(ids(b));
    if is_exported(a, name) {
        if several(a, name) {
            lemma_several_in_any_order(a, b, name);
            export_hints_decide(a, export_hints, name);
            export_hints_decide(b, export_hints, name);
        } else {
            let first = hint_for(resolution(a, export_hints)->Ok_0.providers, name)->0;
            let second = hint_for(resolution(b, export_hints)->Ok_0.providers, name)->0;
            lemma_only_exporter(a, b, first, second, name);
        }
    }
}

/// Who provides an import to whom does not depend on the order in which the
/// composables are added.
pub proof fn links_do_not_depend_on_order(
    a: Seq<DescriptorView>,
    b: Seq<DescriptorView>,
    export_hints: Seq<(Seq<char>, Seq<char>)>,
    link: ImportView,
)
    requires
        same_descriptors(a, b),
        resolution(a, export_hints) is Ok,
        resolution(b, export_hints) is Ok,
        resolution(a, export_hints)->Ok_0.imports.resolved.contains(link),
    ensures
        resolution(b, export_hints)->Ok_0.imports.resolved.contains(link),
{
    let links = resolution(a, export_hints)->Ok_0.imports.resolved;
    let others = resolution(b, export_hints)->Ok_0.imports.resolved;
    let k = choose|k: int| 0 <= k < links.len() && links[k] == link;
    only_imports_are_resolved(a, export_hints, k, link.interface);
    let i = choose|i: int|
        0 <= i < a.len() && (#[trigger] a[i]).id == link.importer_id && a[i].ty.imports.contains(
            link.interface,
        );
    assert(a.contains(a[i]));
    let j = choose|j: int| 0 <= j < b.len() && b[j] == a[i];
    lemma_exported_in_any_order(a, b, link.interface);
    assert(is_exported(a, link.interface)) by {
        let e = choose|e: int|
            0 <= e < a.len() && exports_as(#[trigger] a[e], link.exporter_id, link.interface);
        assert(a[e].ty.exports.contains(link.interface));
    }
    every_import_is_settled(b, export_hints, j, link.interface);
    let m = choose|m: int|
        0 <= m < others.len() && (#[trigger] others[m]).importer_id == b[j].id
            && others[m].interface == link.interface;
    only_imports_are_resolved(b, export_hints, m, link.interface);
    lemma_distinct(ids(a));
    lemma_distinct(ids(b));
    if several(a, link.interface) {
        lemma_several_in_any_order(a, b, link.interface);
        import_hints_decide(a, export_hints, k);
        import_hints_decide(b, export_hints, m);
        assert(hint_for(a[i].hints, link.interface) == Some(link.exporter_id));
        assert(hint_for(b[j].hints, link.interface) == Some(others[m].exporter_id));
    } else {
        lemma_only_exporter(a, b, link.exporter_id, others[m].exporter_id, link.interface);
    }
    assert(others[m] == link);
}

/// The resolved imports of one composable come one after the other.
pub proof fn resolved_imports_are_grouped(
    descriptors: Seq<DescriptorView>,
    export_hints: Seq<(Seq<char>, Seq<char>)>,
    a: int,
    b: int,
    c: int,
)
    requires
        resolution(descriptors, export_hints) is Ok,
        0 <= a <= b <= c < resolution(descriptors, export_hints)->Ok_0.imports.resolved.len(),
        resolution(descriptors, export_hints)->Ok_0.imports.resolved[a].importer_id == resolution(
            descriptors,
            export_hints,
        )->Ok_0.imports.resolved[c].importer_id,
    ensures
        resolution(descriptors, export_hints)->Ok_0.imports.resolved[b].importer_id == resolution(
            descriptors,
            export_hints,
        )->Ok_0.imports.resolved[a].importer_id,
{
    lemma_distinct(ids(descriptors));
    lemma_grouped(descriptors, descriptors, a, b, c);
}

// ---------------------------------------------------------------------------
// Lemmas
// ---------------------------------------------------------------------------

/// Nothing is repeated just where all are different.
pub(crate) proof fn lemma_distinct(names: Seq<Seq<char>>)
    ensures
        first_repeated(names) is None <==> names.no_duplicates(),
    decreases names.len(),
{
    if names.len() > 0 {
        let init = names.drop_last();
        lemma_distinct(init);
        if names.no_duplicates() {
            assert(init.no_duplicates());
            assert(!init.contains(names.last())) by {
                if init.contains(names.last()) {
                    let i = choose|i: int| 0 <= i < init.len() && init[i] == names.last();
                    assert(names[i] == names[names.len() - 1]);
                }
            }
        } else if init.no_duplicates() {
            let (i, j) = choose|i: int, j: int|
                0 <= i < names.len() && 0 <= j < names.len() && i != j && names[i] == names[j];
            if i == names.len() - 1 {
                assert(init[j] == names.last());
            } else if j == names.len() - 1 {
                assert(init[i] == names.last());
            } else {
                assert(init[i] == init[j]);
            }
        }
    }
}

proof fn lemma_first_repeated(names: Seq<Seq<char>>)
    requires
        first_repeated(names) is Some,
    ensures
        exists|i: int, j: int|
            0 <= i < j < names.len() && #[trigger] names[i] == first_repeated(names)->0
                && #[trigger] names[j] == first_repeated(names)->0,
    decreases names.len(),
{
    let init = names.drop_last();
    let id = first_repeated(names)->0;
    if first_repeated(init) is Some {
        lemma_first_repeated(init);
        let (i, j) = choose|i: int, j: int|
            0 <= i < j < init.len() && #[trigger] init[i] == id && #[trigger] init[j] == id;
        assert(names[i] == id && names[j] == id);
    } else {
        let i = choose|i: int| 0 <= i < init.len() && init[i] == id;
        assert(names[i] == id && names[names.len() - 1] == id);
    }
}

proof fn lemma_first_dangling(known: Seq<Seq<char>>, hints: Seq<(Seq<char>, Seq<char>)>)
    requires
        first_dangling(known, hints) is Some,
    ensures
        ({
            let hint = first_dangling(known, hints)->0;
            hints.contains(hint) && !known.contains(hint.1)
        }),
    decreases hints.len(),
{
    let init = hints.drop_last();
    if first_dangling(known, init) is Some {
        lemma_first_dangling(known, init);
        let k = choose|k: int| 0 <= k < init.len() && init[k] == first_dangling(known, hints)->0;
        assert(hints[k] == first_dangling(known, hints)->0);
    } else {
        assert(hints[hints.len() - 1] == hints.last());
    }
}

proof fn lemma_first_dangling_import(known: Seq<Seq<char>>, descriptors: Seq<DescriptorView>)
    requires
        first_dangling_import(known, descriptors) is Some,
    ensures
        ({
            let hint = first_dangling_import(known, descriptors)->0;
            has_import_hint(descriptors, hint.0, hint.1) && !known.contains(hint.1)
        }),
    decreases descriptors.len(),
{
    let init = descriptors.drop_last();
    let hint = first_dangling_import(known, descriptors)->0;
    if first_dangling_import(known, init) is Some {
        lemma_first_dangling_import(known, init);
        let i = choose|i: int|
            0 <= i < init.len() && (#[trigger] init[i]).hints.contains((hint.0, hint.1));
        assert(descriptors[i].hints.contains((hint.0, hint.1)));
    } else {
        lemma_first_dangling(known, descriptors.last().hints);
        assert(descriptors[descriptors.len() - 1].hints.contains((hint.0, hint.1)));
    }
}

proof fn lemma_first_misdirected(
    descriptors: Seq<DescriptorView>,
    hints: Seq<(Seq<char>, Seq<char>)>,
)
    requires
        first_misdirected(descriptors, hints) is Some,
    ensures
        ({
            let hint = first_misdirected(descriptors, hints)->0;
            hints.contains(hint) && !is_exported_by(descriptors, hint.1, hint.0)
        }),
    decreases hints.len(),
{
    let init = hints.drop_last();
    let hint = first_misdirected(descriptors, hints)->0;
    if first_misdirected(descriptors, init) is Some {
        lemma_first_misdirected(descriptors, init);
        let k = choose|k: int| 0 <= k < init.len() && init[k] == hint;
        assert(hints[k] == hint);
    } else {
        assert(hints[hints.len() - 1] == hints.last());
        lemma_candidate(descriptors, hint.0, hint.1);
    }
}

proof fn lemma_exporters(descriptors: Seq<DescriptorView>, name: Seq<char>)
    ensures
        are_exporters(descriptors, name, candidates(descriptors, name)),
{
    assert forall|id: Seq<char>| #[trigger]
        candidates(descriptors, name).contains(id) <==> is_exported_by(descriptors, id, name) by {
        lemma_candidate(descriptors, name, id);
    }
}

proof fn lemma_all_exported(descriptors: Seq<DescriptorView>)
    ensures
        forall|k: int|
            0 <= k < exported(descriptors).len() ==> is_exported(
                descriptors,
                #[trigger] exported(descriptors)[k],
            ),
{
    let names = exported(descriptors);
    assert forall|k: int| 0 <= k < names.len() implies is_exported(
        descriptors,
        #[trigger] names[k],
    ) by {
        assert(names.contains(names[k]));
        lemma_exported(descriptors, names[k]);
    }
}

proof fn lemma_providers_error(
    descriptors: Seq<DescriptorView>,
    hints: Seq<(Seq<char>, Seq<char>)>,
    names: Seq<Seq<char>>,
)
    requires
        providers(descriptors, hints, names) is Err,
        forall|k: int| 0 <= k < names.len() ==> is_exported(descriptors, #[trigger] names[k]),
    ensures
        providers(descriptors, hints, names)->Err_0 matches ErrorView::AmbiguousExport {
            interface,
            candidates,
        } && several(descriptors, interface) && are_exporters(descriptors, interface, candidates)
            && hint_for(hints, interface) is None,
    decreases names.len(),
{
    let init = names.drop_last();
    let last = names.last();
    if providers(descriptors, hints, init) is Err {
        assert forall|k: int| 0 <= k < init.len() implies is_exported(
            descriptors,
            #[trigger] init[k],
        ) by {
            assert(init[k] == names[k]);
        }
        lemma_providers_error(descriptors, hints, init);
    } else {
        assert(names[names.len() - 1] == last);
        lemma_exporters(descriptors, last);
        lemma_several(descriptors, last);
        lemma_no_candidates(descriptors, last);
    }
}

proof fn lemma_with_imports_error(
    descriptors: Seq<DescriptorView>,
    importer: DescriptorView,
    names: Seq<Seq<char>>,
    before: ImportsView,
)
    requires
        with_imports(descriptors, importer, names, before) is Err,
    ensures
        with_imports(
            descriptors,
            importer,
            names,
            before,
        )->Err_0 matches ErrorView::AmbiguousImport { interface, candidates } && several(
            descriptors,
            interface,
        ) && are_exporters(descriptors, interface, candidates) && names.contains(interface)
            && hint_for(importer.hints, interface) is None,
    decreases names.len(),
{
    let init = names.drop_last();
    let last = names.last();
    if with_imports(descriptors, importer, init, before) is Err {
        lemma_with_imports_error(descriptors, importer, init, before);
        let interface = with_imports(
            descriptors,
            importer,
            names,
            before,
        )->Err_0->AmbiguousImport_interface;
        let k = choose|k: int| 0 <= k < init.len() && init[k] == interface;
        assert(names[k] == interface);
    } else {
        assert(names[names.len() - 1] == last);
        lemma_exporters(descriptors, last);
        lemma_several(descriptors, last);
    }
}

proof fn lemma_imports_error(
    descriptors: Seq<DescriptorView>,
    importers: Seq<DescriptorView>,
)
    requires
        imports(descriptors, importers) is Err,
    ensures
        match imports(descriptors, importers)->Err_0 {
            ErrorView::ImportHintInvalid { interface, target_id } => !is_exported_by(
                descriptors,
                target_id,
                interface,
            ) && has_import_hint(importers, interface, target_id),
            ErrorView::AmbiguousImport { interface, candidates } => several(descriptors, interface)
                && are_exporters(descriptors, interface, candidates) && is_unhinted_import(
                importers,
                interface,
            ),
            _ => false,
        },
    decreases importers.len(),
{
    let init = importers.drop_last();
    let last = importers.last();
    assert(importers[importers.len() - 1] == last);
    match imports(descriptors, init) {
        Err(_) => {
            lemma_imports_error(descriptors, init);
            match imports(descriptors, importers)->Err_0 {
                ErrorView::ImportHintInvalid { interface, target_id } => {
                    let i = choose|i: int|
                        0 <= i < init.len() && (#[trigger] init[i]).hints.contains(
                            (interface, target_id),
                        );
                    assert(importers[i].hints.contains((interface, target_id)));
                },
                ErrorView::AmbiguousImport { interface, .. } => {
                    let i = choose|i: int|
                        0 <= i < init.len() && (#[trigger] init[i]).ty.imports.contains(interface)
                            && hint_for(init[i].hints, interface) is None;
                    assert(importers[i].ty.imports.contains(interface));
                },
                _ => {},
            }
        },
        Ok(before) => {
            if first_misdirected(descriptors, last.hints) is Some {
                lemma_first_misdirected(descriptors, last.hints);
            } else {
                lemma_with_imports_error(descriptors, last, last.ty.imports, before);
            }
        },
    }
}

/// The new links of one importer are for different interfaces.
proof fn lemma_with_imports_once(
    descriptors: Seq<DescriptorView>,
    importer: DescriptorView,
    names: Seq<Seq<char>>,
    before: ImportsView,
    a: int,
    b: int,
)
    requires
        first_misdirected(descriptors, importer.hints) is None,
        with_imports(descriptors, importer, names, before) is Ok,
        names.no_duplicates(),
        before.resolved.len() <= a < b < with_imports(
            descriptors,
            importer,
            names,
            before,
        )->Ok_0.resolved.len(),
    ensures
        ({
            let links = with_imports(descriptors, importer, names, before)->Ok_0.resolved;
            links[a].interface != links[b].interface
        }),
    decreases names.len(),
{
    if names.len() > 0 {
        let init = names.drop_last();
        let middle = with_imports(descriptors, importer, init, before)->Ok_0;
        let after = with_imports(descriptors, importer, names, before)->Ok_0;
        assert(init.no_duplicates());
        lemma_with_imports_hold(descriptors, importer, init, before, names.last());
        if b < middle.resolved.len() {
            assert(after.resolved[a] == middle.resolved[a]);
            assert(after.resolved[b] == middle.resolved[b]);
            lemma_with_imports_once(descriptors, importer, init, before, a, b);
        } else {
            assert(after.resolved[a] == middle.resolved[a]);
            assert(init.contains(middle.resolved[a].interface));
            let k = choose|k: int| 0 <= k < init.len() && init[k] == middle.resolved[a].interface;
            assert(names[k] != names[names.len() - 1]);
        }
    }
}

proof fn lemma_resolved_once(
    descriptors: Seq<DescriptorView>,
    importers: Seq<DescriptorView>,
    a: int,
    b: int,
)
    requires
        imports(descriptors, importers) is Ok,
        ids(importers).no_duplicates(),
        forall|i: int|
            0 <= i < importers.len() ==> (#[trigger] importers[i]).ty.imports.no_duplicates(),
        0 <= a < b < imports(descriptors, importers)->Ok_0.resolved.len(),
    ensures
        ({
            let links = imports(descriptors, importers)->Ok_0.resolved;
            links[a].importer_id != links[b].importer_id || links[a].interface != links[b].interface
        }),
    decreases importers.len(),
{
    if importers.len() > 0 {
        let init = importers.drop_last();
        let last = importers.last();
        let before = imports(descriptors, init)->Ok_0;
        let after = imports(descriptors, importers)->Ok_0;
        assert(importers[importers.len() - 1] == last);
        assert(ids(init) =~= ids(importers).drop_last());
        lemma_with_imports_hinted(descriptors, last, last.ty.imports, before);
        if b < before.resolved.len() {
            assert(before.resolved[a] == after.resolved[a]);
            assert(before.resolved[b] == after.resolved[b]);
            assert forall|i: int| 0 <= i < init.len() implies (
            #[trigger] init[i]).ty.imports.no_duplicates() by {
                assert(init[i] == importers[i]);
            }
            lemma_resolved_once(descriptors, init, a, b);
        } else if a < before.resolved.len() {
            assert(before.resolved[a] == after.resolved[a]);
            lemma_hinted(descriptors, init, a);
            let j = choose|j: int|
                0 <= j < init.len() && (#[trigger] init[j]).id == after.resolved[a].importer_id;
            assert(ids(importers)[j] != ids(importers)[importers.len() - 1]);
        } else {
            lemma_with_imports_once(descriptors, last, last.ty.imports, before, a, b);
        }
    }
}

/// The candidates for a name are those that export it.
proof fn lemma_candidate(descriptors: Seq<DescriptorView>, name: Seq<char>, id: Seq<char>)
    ensures
        candidates(descriptors, name).contains(id) <==> is_exported_by(descriptors, id, name),
    decreases descriptors.len(),
{
    if descriptors.len() > 0 {
        let init = descriptors.drop_last();
        let last = descriptors.last();
        lemma_candidate(init, name, id);
        let found = candidates(init, name);
        if is_exported_by(init, id, name) {
            let j = choose|j: int| 0 <= j < init.len() && exports_as(#[trigger] init[j], id, name);
            assert(exports_as(descriptors[j], id, name));
            let at = choose|at: int| 0 <= at < found.len() && found[at] == id;
            assert(candidates(descriptors, name)[at] == id);
        }
        if exports_as(last, id, name) {
            assert(exports_as(descriptors[descriptors.len() - 1], id, name));
            assert(found.push(id)[found.len() as int] == id);
        }
        if is_exported_by(descriptors, id, name) && !exports_as(last, id, name) {
            let j = choose|j: int|
                0 <= j < descriptors.len() && exports_as(#[trigger] descriptors[j], id, name);
            assert(exports_as(init[j], id, name));
        }
        if candidates(descriptors, name).contains(id) && !exports_as(last, id, name) {
            let all = candidates(descriptors, name);
            let at = choose|at: int| 0 <= at < all.len() && all[at] == id;
            assert(found[at] == id);
        }
    }
}

/// There is no candidate for what nobody exports, and one for what somebody does.
proof fn lemma_no_candidates(descriptors: Seq<DescriptorView>, name: Seq<char>)
    ensures
        candidates(descriptors, name).len() == 0 <==> !is_exported(descriptors, name),
    decreases descriptors.len(),
{
    if descriptors.len() > 0 {
        let init = descriptors.drop_last();
        lemma_no_candidates(init, name);
        if is_exported(init, name) {
            let j = choose|j: int|
                0 <= j < init.len() && (#[trigger] init[j]).ty.exports.contains(name);
            assert(descriptors[j].ty.exports.contains(name));
        }
        if is_exported(descriptors, name) && !descriptors.last().ty.exports.contains(name) {
            let j = choose|j: int|
                0 <= j < descriptors.len() && (#[trigger] descriptors[j]).ty.exports.contains(name);
            assert(init[j].ty.exports.contains(name));
        }
        if descriptors.last().ty.exports.contains(name) {
            assert(descriptors[descriptors.len() - 1].ty.exports.contains(name));
        }
    }
}

proof fn lemma_with_name(names: Seq<Seq<char>>, more: Seq<char>, name: Seq<char>)
    ensures
        with_name(names, more).contains(name) <==> names.contains(name) || name == more,
{
    if !names.contains(more) {
        let all = names.push(more);
        assert(all[names.len() as int] == more);
        if names.contains(name) {
            let i = choose|i: int| 0 <= i < names.len() && names[i] == name;
            assert(all[i] == name);
        }
        if all.contains(name) && name != more {
            let i = choose|i: int| 0 <= i < all.len() && all[i] == name;
            assert(names[i] == name);
        }
    }
}

proof fn lemma_with_names(names: Seq<Seq<char>>, more: Seq<Seq<char>>, name: Seq<char>)
    ensures
        with_names(names, more).contains(name) <==> names.contains(name) || more.contains(name),
    decreases more.len(),
{
    if more.len() > 0 {
        let init = more.drop_last();
        lemma_with_names(names, init, name);
        lemma_with_name(with_names(names, init), more.last(), name);
        if init.contains(name) {
            let i = choose|i: int| 0 <= i < init.len() && init[i] == name;
            assert(more[i] == name);
        }
        if name == more.last() {
            assert(more[more.len() - 1] == name);
        }
        if more.contains(name) && name != more.last() {
            let i = choose|i: int| 0 <= i < more.len() && more[i] == name;
            assert(init[i] == name);
        }
    }
}

/// What is exported is what somebody exports.
proof fn lemma_exported(descriptors: Seq<DescriptorView>, name: Seq<char>)
    ensures
        exported(descriptors).contains(name) <==> is_exported(descriptors, name),
    decreases descriptors.len(),
{
    if descriptors.len() > 0 {
        let init = descriptors.drop_last();
        let last = descriptors.last();
        lemma_exported(init, name);
        lemma_with_names(exported(init), last.ty.exports, name);
        if is_exported(init, name) {
            let j = choose|j: int|
                0 <= j < init.len() && (#[trigger] init[j]).ty.exports.contains(name);
            assert(descriptors[j].ty.exports.contains(name));
        }
        if last.ty.exports.contains(name) {
            assert(descriptors[descriptors.len() - 1].ty.exports.contains(name));
        }
        if is_exported(descriptors, name) && !last.ty.exports.contains(name) {
            let j = choose|j: int|
                0 <= j < descriptors.len() && (#[trigger] descriptors[j]).ty.exports.contains(name);
            assert(init[j].ty.exports.contains(name));
        }
    } else {
        assert(!exported(descriptors).contains(name));
    }
}

/// Providers are found for the names asked for, one for one.
proof fn lemma_providers(
    descriptors: Seq<DescriptorView>,
    hints: Seq<(Seq<char>, Seq<char>)>,
    names: Seq<Seq<char>>,
)
    requires
        providers(descriptors, hints, names) is Ok,
    ensures
        entry_names(providers(descriptors, hints, names)->Ok_0) == names,
        forall|i: int|
            0 <= i < names.len() ==> provider(descriptors, hints, names[i]) == Ok::<
                Seq<char>,
                ErrorView,
            >((#[trigger] providers(descriptors, hints, names)->Ok_0[i]).1),
    decreases names.len(),
{
    let found = providers(descriptors, hints, names)->Ok_0;
    if names.len() > 0 {
        lemma_providers(descriptors, hints, names.drop_last());
        let before = providers(descriptors, hints, names.drop_last())->Ok_0;
        assert(entry_names(before) == names.drop_last());
        assert(before.len() == names.drop_last().len());
        assert(entry_names(found) =~= names) by {
            assert forall|i: int| 0 <= i < names.len() implies entry_names(found)[i] == names[i] by {
                if i < names.len() - 1 {
                    assert(entry_names(before)[i] == names.drop_last()[i]);
                }
            }
        }
        assert forall|i: int| 0 <= i < names.len() implies provider(descriptors, hints, names[i])
            == Ok::<Seq<char>, ErrorView>((#[trigger] found[i]).1) by {
            if i < names.len() - 1 {
                assert(found[i] == before[i]);
                assert(names.drop_last()[i] == names[i]);
            }
        }
    } else {
        assert(entry_names(found) =~= names);
    }
}

/// The provider of an export is found among the providers.
proof fn lemma_provider_found(
    descriptors: Seq<DescriptorView>,
    export_hints: Seq<(Seq<char>, Seq<char>)>,
    name: Seq<char>,
)
    requires
        resolution(descriptors, export_hints) is Ok,
        candidates(descriptors, name).len() > 0,
    ensures
        provider(descriptors, export_hints, name) is Ok,
        hint_for(resolution(descriptors, export_hints)->Ok_0.providers, name) == Some(
            provider(descriptors, export_hints, name)->Ok_0,
        ),
{
    let found = resolution(descriptors, export_hints)->Ok_0.providers;
    lemma_no_candidates(descriptors, name);
    every_export_has_a_provider(descriptors, export_hints, name);
    lemma_providers(descriptors, export_hints, exported(descriptors));
    lemma_position(entry_names(found), name);
    let i = position(entry_names(found), name)->0;
    assert(found[i].0 == entry_names(found)[i]);
    assert(provider(descriptors, export_hints, exported(descriptors)[i]) == Ok::<
        Seq<char>,
        ErrorView,
    >(found[i].1));
}

proof fn lemma_exported_in_any_order(
    a: Seq<DescriptorView>,
    b: Seq<DescriptorView>,
    name: Seq<char>,
)
    requires
        same_descriptors(a, b),
    ensures
        is_exported(a, name) <==> is_exported(b, name),
{
    if is_exported(a, name) {
        let j = choose|j: int| 0 <= j < a.len() && (#[trigger] a[j]).ty.exports.contains(name);
        assert(a.contains(a[j]));
        let k = choose|k: int| 0 <= k < b.len() && b[k] == a[j];
        assert(b[k].ty.exports.contains(name));
    }
    if is_exported(b, name) {
        let j = choose|j: int| 0 <= j < b.len() && (#[trigger] b[j]).ty.exports.contains(name);
        assert(b.contains(b[j]));
        assert(a.contains(b[j]));
        let k = choose|k: int| 0 <= k < a.len() && a[k] == b[j];
        assert(a[k].ty.exports.contains(name));
    }
}

proof fn lemma_several_in_any_order(
    a: Seq<DescriptorView>,
    b: Seq<DescriptorView>,
    name: Seq<char>,
)
    requires
        same_descriptors(a, b),
        ids(a).no_duplicates(),
        several(a, name),
    ensures
        several(b, name),
{
    let (j, k) = choose|j: int, k: int|
        0 <= j < k < a.len() && (#[trigger] a[j]).ty.exports.contains(name) && (
        #[trigger] a[k]).ty.exports.contains(name);
    assert(ids(a)[j] != ids(a)[k]);
    assert(a.contains(a[j]) && a.contains(a[k]));
    let x = choose|x: int| 0 <= x < b.len() && b[x] == a[j];
    let y = choose|y: int| 0 <= y < b.len() && b[y] == a[k];
    if x < y {
        assert(b[x].ty.exports.contains(name) && b[y].ty.exports.contains(name));
    } else {
        assert(b[y].ty.exports.contains(name) && b[x].ty.exports.contains(name));
    }
}

/// If only one exports an interface, it is the same one in any order.
proof fn lemma_only_exporter(
    a: Seq<DescriptorView>,
    b: Seq<DescriptorView>,
    first: Seq<char>,
    second: Seq<char>,
    name: Seq<char>,
)
    requires
        same_descriptors(a, b),
        !several(a, name),
        is_exported_by(a, first, name),
        is_exported_by(b, second, name),
    ensures
        first == second,
{
    let j = choose|j: int| 0 <= j < a.len() && exports_as(#[trigger] a[j], first, name);
    let k = choose|k: int| 0 <= k < b.len() && exports_as(#[trigger] b[k], second, name);
    assert(b.contains(b[k]));
    assert(a.contains(b[k]));
    let x = choose|x: int| 0 <= x < a.len() && a[x] == b[k];
    assert(a[j].ty.exports.contains(name) && a[x].ty.exports.contains(name));
    if j < x {
        assert(several(a, name));
    } else if x < j {
        assert(several(a, name));
    }
}

/// A provider exports what it provides.
proof fn lemma_provider_exports(
    descriptors: Seq<DescriptorView>,
    hints: Seq<(Seq<char>, Seq<char>)>,
    name: Seq<char>,
)
    requires
        first_misdirected(descriptors, hints) is None,
    ensures
        provider(descriptors, hints, name) matches Ok(id) ==> is_exported_by(
            descriptors,
            id,
            name,
        ),
{
    if let Ok(id) = provider(descriptors, hints, name) {
        lemma_hint_directed(descriptors, hints, name);
        assert(candidates(descriptors, name).contains(id));
        lemma_candidate(descriptors, name, id);
    }
}

/// `link` provides an import of one of `importers` by one that exports it.
spec fn settles(
    descriptors: Seq<DescriptorView>,
    importers: Seq<DescriptorView>,
    link: ImportView,
) -> bool {
    &&& is_imported_by(importers, link.importer_id, link.interface)
    &&& candidates(descriptors, link.interface).contains(link.exporter_id)
}

/// What holds of the imports of one importer.
proof fn lemma_with_imports_hold(
    descriptors: Seq<DescriptorView>,
    importer: DescriptorView,
    names: Seq<Seq<char>>,
    before: ImportsView,
    name: Seq<char>,
)
    requires
        first_misdirected(descriptors, importer.hints) is None,
        with_imports(descriptors, importer, names, before) is Ok,
    ensures
        ({
            let after = with_imports(descriptors, importer, names, before)->Ok_0;
            &&& before.resolved.is_prefix_of(after.resolved)
            &&& forall|k: int|
                before.resolved.len() <= k < after.resolved.len() ==> {
                    let link = #[trigger] after.resolved[k];
                    link.importer_id == importer.id && names.contains(link.interface)
                        && candidates(descriptors, link.interface).contains(link.exporter_id)
                }
            &&& after.external.contains(name) <==> before.external.contains(name) || (
            names.contains(name) && candidates(descriptors, name).len() == 0)
            &&& names.contains(name) && candidates(descriptors, name).len() > 0 ==> exists|k: int|
                before.resolved.len() <= k < after.resolved.len() && (
                #[trigger] after.resolved[k]).interface == name
        }),
    decreases names.len(),
{
    if names.len() > 0 {
        let init = names.drop_last();
        let last = names.last();
        lemma_with_imports_hold(descriptors, importer, init, before, name);
        let middle = with_imports(descriptors, importer, init, before)->Ok_0;
        let after = with_imports(descriptors, importer, names, before)->Ok_0;
        lemma_with_name(middle.external, last, name);
        lemma_hint_directed(descriptors, importer.hints, last);
        assert(names[names.len() - 1] == last);
        assert(init.contains(name) ==> names.contains(name)) by {
            if init.contains(name) {
                let i = choose|i: int| 0 <= i < init.len() && init[i] == name;
                assert(names[i] == name);
            }
        }
        assert(names.contains(name) && name != last ==> init.contains(name)) by {
            if names.contains(name) && name != last {
                let i = choose|i: int| 0 <= i < names.len() && names[i] == name;
                assert(init[i] == name);
            }
        }
        assert forall|k: int| before.resolved.len() <= k < after.resolved.len() implies {
            let link = #[trigger] after.resolved[k];
            link.importer_id == importer.id && names.contains(link.interface) && candidates(
                descriptors,
                link.interface,
            ).contains(link.exporter_id)
        } by {
            if k < middle.resolved.len() {
                let link = middle.resolved[k];
                assert(link == after.resolved[k]);
                let i = choose|i: int| 0 <= i < init.len() && init[i] == link.interface;
                assert(names[i] == link.interface);
            } else {
                let found = candidates(descriptors, last);
                assert(found.len() == 1 ==> found[0] == after.resolved[k].exporter_id);
            }
        }
        if init.contains(name) && candidates(descriptors, name).len() > 0 {
            let k = choose|k: int|
                before.resolved.len() <= k < middle.resolved.len() && (
                #[trigger] middle.resolved[k]).interface == name;
            assert(after.resolved[k].interface == name);
        }
        if name == last && candidates(descriptors, name).len() > 0 {
            assert(after.resolved[after.resolved.len() - 1].interface == name);
        }
    }
}

/// What holds of the imports of all importers.
proof fn lemma_imports_hold(
    descriptors: Seq<DescriptorView>,
    importers: Seq<DescriptorView>,
    name: Seq<char>,
)
    requires
        imports(descriptors, importers) is Ok,
    ensures
        ({
            let after = imports(descriptors, importers)->Ok_0;
            &&& forall|k: int|
                0 <= k < after.resolved.len() ==> settles(
                    descriptors,
                    importers,
                    #[trigger] after.resolved[k],
                )
            &&& after.external.contains(name) ==> {
                &&& exists|i: int|
                    0 <= i < importers.len() && (
                    #[trigger] importers[i]).ty.imports.contains(name)
                &&& candidates(descriptors, name).len() == 0
            }
        }),
    decreases importers.len(),
{
    if importers.len() > 0 {
        let init = importers.drop_last();
        let last = importers.last();
        lemma_imports_hold(descriptors, init, name);
        let before = imports(descriptors, init)->Ok_0;
        let after = imports(descriptors, importers)->Ok_0;
        lemma_with_imports_hold(descriptors, last, last.ty.imports, before, name);
        assert forall|k: int| 0 <= k < after.resolved.len() implies settles(
            descriptors,
            importers,
            #[trigger] after.resolved[k],
        ) by {
            let link = after.resolved[k];
            if k < before.resolved.len() {
                assert(link == before.resolved[k]);
                let i = choose|i: int|
                    0 <= i < init.len() && (#[trigger] init[i]).id == link.importer_id
                        && init[i].ty.imports.contains(link.interface);
                assert(importers[i].id == link.importer_id);
            } else {
                assert(importers[importers.len() - 1].id == link.importer_id);
            }
        }
        if after.external.contains(name) {
            if before.external.contains(name) {
                let i = choose|i: int|
                    0 <= i < init.len() && (#[trigger] init[i]).ty.imports.contains(name);
                assert(importers[i].ty.imports.contains(name));
            } else {
                assert(importers[importers.len() - 1].ty.imports.contains(name));
            }
        }
    }
}

/// Every import of an importer is settled.
proof fn lemma_settled(
    descriptors: Seq<DescriptorView>,
    importers: Seq<DescriptorView>,
    i: int,
    name: Seq<char>,
)
    requires
        imports(descriptors, importers) is Ok,
        0 <= i < importers.len(),
        importers[i].ty.imports.contains(name),
    ensures
        ({
            let after = imports(descriptors, importers)->Ok_0;
            &&& candidates(descriptors, name).len() == 0 ==> after.external.contains(name)
            &&& candidates(descriptors, name).len() > 0 ==> is_linked(
                after.resolved,
                importers[i].id,
                name,
            )
        }),
    decreases importers.len(),
{
    let init = importers.drop_last();
    let last = importers.last();
    let before = imports(descriptors, init)->Ok_0;
    let after = imports(descriptors, importers)->Ok_0;
    lemma_with_imports_hold(descriptors, last, last.ty.imports, before, name);
    if i < importers.len() - 1 {
        assert(init[i] == importers[i]);
        lemma_settled(descriptors, init, i, name);
        if candidates(descriptors, name).len() > 0 {
            let k = choose|k: int|
                0 <= k < before.resolved.len() && (#[trigger] before.resolved[k]).importer_id
                    == importers[i].id && before.resolved[k].interface == name;
            assert(after.resolved[k] == before.resolved[k]);
        }
    }
}

/// The hints of `importer` are right, and its imports are all settled.
spec fn sources_found(descriptors: Seq<DescriptorView>, importer: DescriptorView) -> bool {
    &&& first_misdirected(descriptors, importer.hints) is None
    &&& forall|k: int|
        0 <= k < importer.ty.imports.len() ==> source(
            descriptors,
            importer,
            #[trigger] importer.ty.imports[k],
        ) is Ok
}

proof fn lemma_dangling(known: Seq<Seq<char>>, hints: Seq<(Seq<char>, Seq<char>)>)
    ensures
        first_dangling(known, hints) is None <==> all_known(known, hints),
    decreases hints.len(),
{
    if hints.len() > 0 {
        let init = hints.drop_last();
        lemma_dangling(known, init);
        if all_known(known, hints) {
            assert forall|k: int| 0 <= k < init.len() implies known.contains(
                (#[trigger] init[k]).1,
            ) by {
                assert(init[k] == hints[k]);
            }
            assert(known.contains(hints[hints.len() - 1].1));
        }
        if first_dangling(known, hints) is None {
            assert forall|k: int| 0 <= k < hints.len() implies known.contains(
                (#[trigger] hints[k]).1,
            ) by {
                if k < hints.len() - 1 {
                    assert(init[k] == hints[k]);
                }
            }
        }
    }
}

proof fn lemma_misdirected(
    descriptors: Seq<DescriptorView>,
    hints: Seq<(Seq<char>, Seq<char>)>,
)
    ensures
        first_misdirected(descriptors, hints) is None <==> all_directed(descriptors, hints),
    decreases hints.len(),
{
    if hints.len() > 0 {
        let init = hints.drop_last();
        let last = hints.last();
        lemma_misdirected(descriptors, init);
        lemma_candidate(descriptors, last.0, last.1);
        assert(hints[hints.len() - 1] == last);
        assert(forall|k: int| 0 <= k < init.len() ==> init[k] == hints[k]);
        if all_directed(descriptors, init) && is_exported_by(descriptors, last.1, last.0) {
            assert forall|k: int| 0 <= k < hints.len() implies is_exported_by(
                descriptors,
                (#[trigger] hints[k]).1,
                hints[k].0,
            ) by {
                if k < init.len() {
                    assert(init[k] == hints[k]);
                }
            }
        }
    }
}

/// Where all hints are right, the one that a hint names exports the interface.
proof fn lemma_hint_directed(
    descriptors: Seq<DescriptorView>,
    hints: Seq<(Seq<char>, Seq<char>)>,
    name: Seq<char>,
)
    requires
        first_misdirected(descriptors, hints) is None,
    ensures
        hint_for(hints, name) matches Some(id) ==> candidates(descriptors, name).contains(id),
{
    lemma_misdirected(descriptors, hints);
    if let Some(id) = hint_for(hints, name) {
        lemma_position(entry_names(hints), name);
        let i = position(entry_names(hints), name)->0;
        assert(hints[i].0 == entry_names(hints)[i]);
        lemma_candidate(descriptors, name, id);
    }
}

/// One that exports an interface is one of the composables.
proof fn lemma_directed_are_known(
    descriptors: Seq<DescriptorView>,
    hints: Seq<(Seq<char>, Seq<char>)>,
)
    requires
        all_directed(descriptors, hints),
    ensures
        all_known(ids(descriptors), hints),
{
    assert forall|k: int| 0 <= k < hints.len() implies ids(descriptors).contains(
        (#[trigger] hints[k]).1,
    ) by {
        let j = choose|j: int|
            0 <= j < descriptors.len() && exports_as(
                #[trigger] descriptors[j],
                hints[k].1,
                hints[k].0,
            );
        assert(ids(descriptors)[j] == hints[k].1);
    }
}

proof fn lemma_dangling_import(known: Seq<Seq<char>>, descriptors: Seq<DescriptorView>)
    ensures
        first_dangling_import(known, descriptors) is None <==> forall|i: int|
            0 <= i < descriptors.len() ==> all_known(known, (#[trigger] descriptors[i]).hints),
    decreases descriptors.len(),
{
    if descriptors.len() > 0 {
        let init = descriptors.drop_last();
        lemma_dangling_import(known, init);
        lemma_dangling(known, descriptors.last().hints);
        assert(forall|i: int| 0 <= i < init.len() ==> init[i] == descriptors[i]);
        assert(descriptors[descriptors.len() - 1] == descriptors.last());
    }
}

proof fn lemma_several(descriptors: Seq<DescriptorView>, name: Seq<char>)
    ensures
        several(descriptors, name) <==> candidates(descriptors, name).len() > 1,
    decreases descriptors.len(),
{
    if descriptors.len() > 0 {
        let init = descriptors.drop_last();
        lemma_several(init, name);
        lemma_no_candidates(init, name);
        assert(forall|i: int| 0 <= i < init.len() ==> init[i] == descriptors[i]);
        if several(descriptors, name) && !several(init, name) {
            let (j, k) = choose|j: int, k: int|
                0 <= j < k < descriptors.len() && (
                #[trigger] descriptors[j]).ty.exports.contains(name) && (
                #[trigger] descriptors[k]).ty.exports.contains(name);
            assert(init[j].ty.exports.contains(name));
            if k < init.len() {
                assert(init[k].ty.exports.contains(name));
            }
        }
        if several(init, name) {
            let (j, k) = choose|j: int, k: int|
                0 <= j < k < init.len() && (#[trigger] init[j]).ty.exports.contains(name) && (
                #[trigger] init[k]).ty.exports.contains(name);
            assert(descriptors[j].ty.exports.contains(name));
            assert(descriptors[k].ty.exports.contains(name));
        }
        if descriptors.last().ty.exports.contains(name) && is_exported(init, name) {
            let j = choose|j: int|
                0 <= j < init.len() && (#[trigger] init[j]).ty.exports.contains(name);
            assert(descriptors[j].ty.exports.contains(name));
            assert(descriptors[descriptors.len() - 1].ty.exports.contains(name));
        }
    }
}

proof fn lemma_providers_succeed(
    descriptors: Seq<DescriptorView>,
    hints: Seq<(Seq<char>, Seq<char>)>,
    names: Seq<Seq<char>>,
)
    ensures
        providers(descriptors, hints, names) is Ok <==> forall|k: int|
            0 <= k < names.len() ==> provider(descriptors, hints, #[trigger] names[k]) is Ok,
    decreases names.len(),
{
    if names.len() > 0 {
        let init = names.drop_last();
        lemma_providers_succeed(descriptors, hints, init);
        assert(forall|k: int| 0 <= k < init.len() ==> init[k] == names[k]);
        assert(names[names.len() - 1] == names.last());
    }
}

proof fn lemma_with_imports_succeed(
    descriptors: Seq<DescriptorView>,
    importer: DescriptorView,
    names: Seq<Seq<char>>,
    before: ImportsView,
)
    ensures
        with_imports(descriptors, importer, names, before) is Ok <==> forall|k: int|
            0 <= k < names.len() ==> source(descriptors, importer, #[trigger] names[k]) is Ok,
    decreases names.len(),
{
    if names.len() > 0 {
        let init = names.drop_last();
        lemma_with_imports_succeed(descriptors, importer, init, before);
        assert(forall|k: int| 0 <= k < init.len() ==> init[k] == names[k]);
        assert(names[names.len() - 1] == names.last());
    }
}

proof fn lemma_imports_succeed(descriptors: Seq<DescriptorView>, importers: Seq<DescriptorView>)
    ensures
        imports(descriptors, importers) is Ok <==> forall|i: int|
            0 <= i < importers.len() ==> sources_found(descriptors, #[trigger] importers[i]),
    decreases importers.len(),
{
    if importers.len() > 0 {
        let init = importers.drop_last();
        lemma_imports_succeed(descriptors, init);
        assert(forall|k: int| 0 <= k < init.len() ==> init[k] == importers[k]);
        assert(importers[importers.len() - 1] == importers.last());
        if let Ok(before) = imports(descriptors, init) {
            lemma_with_imports_succeed(
                descriptors,
                importers.last(),
                importers.last().ty.imports,
                before,
            );
        }
    }
}

/// A resolved import comes from where its importer's hints say.
proof fn lemma_with_imports_hinted(
    descriptors: Seq<DescriptorView>,
    importer: DescriptorView,
    names: Seq<Seq<char>>,
    before: ImportsView,
)
    requires
        with_imports(descriptors, importer, names, before) is Ok,
    ensures
        ({
            let after = with_imports(descriptors, importer, names, before)->Ok_0;
            &&& before.resolved.is_prefix_of(after.resolved)
            &&& forall|k: int|
                before.resolved.len() <= k < after.resolved.len() ==> {
                    let link = #[trigger] after.resolved[k];
                    link.importer_id == importer.id && source(descriptors, importer, link.interface)
                        == Ok::<Option<Seq<char>>, ErrorView>(Some(link.exporter_id))
                }
        }),
    decreases names.len(),
{
    if names.len() > 0 {
        lemma_with_imports_hinted(descriptors, importer, names.drop_last(), before);
        let middle = with_imports(descriptors, importer, names.drop_last(), before)->Ok_0;
        let after = with_imports(descriptors, importer, names, before)->Ok_0;
        assert forall|k: int| before.resolved.len() <= k < after.resolved.len() implies {
            let link = #[trigger] after.resolved[k];
            link.importer_id == importer.id && source(descriptors, importer, link.interface) == Ok::<
                Option<Seq<char>>,
                ErrorView,
            >(Some(link.exporter_id))
        } by {
            if k < middle.resolved.len() {
                assert(middle.resolved[k] == after.resolved[k]);
            }
        }
    }
}

proof fn lemma_hinted(descriptors: Seq<DescriptorView>, importers: Seq<DescriptorView>, k: int)
    requires
        imports(descriptors, importers) is Ok,
        0 <= k < imports(descriptors, importers)->Ok_0.resolved.len(),
    ensures
        ({
            let link = imports(descriptors, importers)->Ok_0.resolved[k];
            exists|j: int|
                0 <= j < importers.len() && (#[trigger] importers[j]).id == link.importer_id
                    && source(descriptors, importers[j], link.interface) == Ok::<
                    Option<Seq<char>>,
                    ErrorView,
                >(Some(link.exporter_id))
        }),
    decreases importers.len(),
{
    if importers.len() > 0 {
        let init = importers.drop_last();
        let before = imports(descriptors, init)->Ok_0;
        let link = imports(descriptors, importers)->Ok_0.resolved[k];
        lemma_with_imports_hinted(
            descriptors,
            importers.last(),
            importers.last().ty.imports,
            before,
        );
        if k < before.resolved.len() {
            lemma_hinted(descriptors, init, k);
            assert(before.resolved[k] == link);
            let j = choose|j: int|
                0 <= j < init.len() && (#[trigger] init[j]).id == link.importer_id && source(
                    descriptors,
                    init[j],
                    link.interface,
                ) == Ok::<Option<Seq<char>>, ErrorView>(Some(link.exporter_id));
            assert(importers[j] == init[j]);
        } else {
            assert(importers[importers.len() - 1].id == link.importer_id);
        }
    }
}

proof fn lemma_grouped(
    descriptors: Seq<DescriptorView>,
    importers: Seq<DescriptorView>,
    a: int,
    b: int,
    c: int,
)
    requires
        imports(descriptors, importers) is Ok,
        ids(importers).no_duplicates(),
        0 <= a <= b <= c < imports(descriptors, importers)->Ok_0.resolved.len(),
        imports(descriptors, importers)->Ok_0.resolved[a].importer_id == imports(
            descriptors,
            importers,
        )->Ok_0.resolved[c].importer_id,
    ensures
        imports(descriptors, importers)->Ok_0.resolved[b].importer_id == imports(
            descriptors,
            importers,
        )->Ok_0.resolved[a].importer_id,
    decreases importers.len(),
{
    if importers.len() > 0 {
        let init = importers.drop_last();
        let before = imports(descriptors, init)->Ok_0;
        let after = imports(descriptors, importers)->Ok_0;
        lemma_with_imports_hinted(
            descriptors,
            importers.last(),
            importers.last().ty.imports,
            before,
        );
        assert(ids(init) =~= ids(importers).drop_last());
        if c < before.resolved.len() {
            assert(before.resolved[a] == after.resolved[a]);
            assert(before.resolved[b] == after.resolved[b]);
            assert(before.resolved[c] == after.resolved[c]);
            lemma_grouped(descriptors, init, a, b, c);
        } else if a < before.resolved.len() {
            assert(before.resolved[a] == after.resolved[a]);
            lemma_hinted(descriptors, init, a);
            let j = choose|j: int|
                0 <= j < init.len() && (#[trigger] init[j]).id == after.resolved[a].importer_id;
            assert(ids(importers)[j] == ids(importers)[importers.len() - 1]);
        }
    }
}

} // verus!
