//! Resolving which composable provides which interface to whom.

use vstd::prelude::*;

use crate::composable::Composable;
use crate::descriptor::{descriptor_views, ComposableDescriptor, DescriptorView};
use crate::error::{texts, CompositionError, ErrorView};
use crate::hints::{hint_for, hint_views, HintMap};
use crate::interface::{
    holds, import_views, with_name, ImportView, InterfaceSet, ResolvedImport,
};

verus! {

// ---------------------------------------------------------------------------
// What is resolved
// ---------------------------------------------------------------------------

/// The IDs of descriptors.
pub open spec fn ids(descriptors: Seq<DescriptorView>) -> Seq<Seq<char>> {
    descriptors.map_values(|descriptor: DescriptorView| descriptor.id)
}

/// The first of `names` that also occurs before.
pub open spec fn first_repeated(names: Seq<Seq<char>>) -> Option<Seq<char>>
    decreases names.len(),
{
    if names.len() == 0 {
        None
    } else if first_repeated(names.drop_last()) is Some {
        first_repeated(names.drop_last())
    } else if names.drop_last().contains(names.last()) {
        Some(names.last())
    } else {
        None
    }
}

/// The first of `hints` that points to none of `ids`.
pub open spec fn first_dangling(
    ids: Seq<Seq<char>>,
    hints: Seq<(Seq<char>, Seq<char>)>,
) -> Option<(Seq<char>, Seq<char>)>
    decreases hints.len(),
{
    if hints.len() == 0 {
        None
    } else if first_dangling(ids, hints.drop_last()) is Some {
        first_dangling(ids, hints.drop_last())
    } else if !ids.contains(hints.last().1) {
        Some(hints.last())
    } else {
        None
    }
}

/// The first import hint of `descriptors` that points to none of `ids`.
pub open spec fn first_dangling_import(
    ids: Seq<Seq<char>>,
    descriptors: Seq<DescriptorView>,
) -> Option<(Seq<char>, Seq<char>)>
    decreases descriptors.len(),
{
    if descriptors.len() == 0 {
        None
    } else if first_dangling_import(ids, descriptors.drop_last()) is Some {
        first_dangling_import(ids, descriptors.drop_last())
    } else {
        first_dangling(ids, descriptors.last().hints)
    }
}

/// The IDs of those that export `name`, in order.
pub open spec fn candidates(descriptors: Seq<DescriptorView>, name: Seq<char>) -> Seq<Seq<char>>
    decreases descriptors.len(),
{
    if descriptors.len() == 0 {
        Seq::empty()
    } else if descriptors.last().ty.exports.contains(name) {
        candidates(descriptors.drop_last(), name).push(descriptors.last().id)
    } else {
        candidates(descriptors.drop_last(), name)
    }
}

/// The first of `hints` that names one that does not export the interface.
pub open spec fn first_misdirected(
    descriptors: Seq<DescriptorView>,
    hints: Seq<(Seq<char>, Seq<char>)>,
) -> Option<(Seq<char>, Seq<char>)>
    decreases hints.len(),
{
    if hints.len() == 0 {
        None
    } else if first_misdirected(descriptors, hints.drop_last()) is Some {
        first_misdirected(descriptors, hints.drop_last())
    } else if !candidates(descriptors, hints.last().0).contains(hints.last().1) {
        Some(hints.last())
    } else {
        None
    }
}

/// `more` put into the set `names`, in order.
pub open spec fn with_names(names: Seq<Seq<char>>, more: Seq<Seq<char>>) -> Seq<Seq<char>>
    decreases more.len(),
{
    if more.len() == 0 {
        names
    } else {
        with_name(with_names(names, more.drop_last()), more.last())
    }
}

/// The names of all that is exported, each once, in order.
pub open spec fn exported(descriptors: Seq<DescriptorView>) -> Seq<Seq<char>>
    decreases descriptors.len(),
{
    if descriptors.len() == 0 {
        Seq::empty()
    } else {
        with_names(exported(descriptors.drop_last()), descriptors.last().ty.exports)
    }
}

/// Who provides the export `name` of the composition: the one that the export hint
/// names or, without a hint, the only one that exports it.
pub open spec fn provider(
    descriptors: Seq<DescriptorView>,
    hints: Seq<(Seq<char>, Seq<char>)>,
    name: Seq<char>,
) -> Result<Seq<char>, ErrorView> {
    let found = candidates(descriptors, name);
    match hint_for(hints, name) {
        Some(id) => Ok(id),
        None => if found.len() == 1 {
            Ok(found[0])
        } else {
            Err(ErrorView::AmbiguousExport { interface: name, candidates: found })
        },
    }
}

/// Who provides each of `names`, or why the first of them that cannot be settled
/// cannot.
pub open spec fn providers(
    descriptors: Seq<DescriptorView>,
    hints: Seq<(Seq<char>, Seq<char>)>,
    names: Seq<Seq<char>>,
) -> Result<Seq<(Seq<char>, Seq<char>)>, ErrorView>
    decreases names.len(),
{
    if names.len() == 0 {
        Ok(Seq::empty())
    } else {
        match providers(descriptors, hints, names.drop_last()) {
            Err(e) => Err(e),
            Ok(before) => match provider(descriptors, hints, names.last()) {
                Err(e) => Err(e),
                Ok(id) => Ok(before.push((names.last(), id))),
            },
        }
    }
}

/// Who provides the import `name` of `importer`: the one that the import hint names
/// or, without a hint, the only one that exports it; nobody inside if none exports
/// it.
pub open spec fn source(
    descriptors: Seq<DescriptorView>,
    importer: DescriptorView,
    name: Seq<char>,
) -> Result<Option<Seq<char>>, ErrorView> {
    let found = candidates(descriptors, name);
    match hint_for(importer.hints, name) {
        Some(id) => Ok(Some(id)),
        None => if found.len() == 0 {
            Ok(None)
        } else if found.len() == 1 {
            Ok(Some(found[0]))
        } else {
            Err(ErrorView::AmbiguousImport { interface: name, candidates: found })
        },
    }
}

/// Imports, sorted into those that are resolved inside and those that are left.
#[verifier::ext_equal]
pub struct ImportsView {
    pub resolved: Seq<ImportView>,
    pub external: Seq<Seq<char>>,
}

/// `before` and the imports `names` of `importer`, or why the first of them that
/// cannot be settled cannot.
pub open spec fn with_imports(
    descriptors: Seq<DescriptorView>,
    importer: DescriptorView,
    names: Seq<Seq<char>>,
    before: ImportsView,
) -> Result<ImportsView, ErrorView>
    decreases names.len(),
{
    if names.len() == 0 {
        Ok(before)
    } else {
        match with_imports(descriptors, importer, names.drop_last(), before) {
            Err(e) => Err(e),
            Ok(imports) => match source(descriptors, importer, names.last()) {
                Err(e) => Err(e),
                Ok(None) => Ok(
                    ImportsView {
                        resolved: imports.resolved,
                        external: with_name(imports.external, names.last()),
                    },
                ),
                Ok(Some(id)) => Ok(
                    ImportsView {
                        resolved: imports.resolved.push(
                            ImportView {
                                importer_id: importer.id,
                                exporter_id: id,
                                interface: names.last(),
                            },
                        ),
                        external: imports.external,
                    },
                ),
            },
        }
    }
}

/// `before` and the imports of `importer`, all of whose hints must name one that
/// exports the interface.
pub open spec fn with_importer(
    descriptors: Seq<DescriptorView>,
    importer: DescriptorView,
    before: ImportsView,
) -> Result<ImportsView, ErrorView> {
    match first_misdirected(descriptors, importer.hints) {
        Some(hint) => Err(ErrorView::ImportHintInvalid { interface: hint.0, target_id: hint.1 }),
        None => with_imports(descriptors, importer, importer.ty.imports, before),
    }
}

/// The imports of the importers in `importers`, in order.
pub open spec fn imports(
    descriptors: Seq<DescriptorView>,
    importers: Seq<DescriptorView>,
) -> Result<ImportsView, ErrorView>
    decreases importers.len(),
{
    if importers.len() == 0 {
        Ok(ImportsView { resolved: Seq::empty(), external: Seq::empty() })
    } else {
        match imports(descriptors, importers.drop_last()) {
            Err(e) => Err(e),
            Ok(before) => with_importer(descriptors, importers.last(), before),
        }
    }
}

/// How the composables of a composition fit together.
pub struct ResolutionView {
    /// Who provides each export of the composition.
    pub providers: Seq<(Seq<char>, Seq<char>)>,
    /// The imports of the composables.
    pub imports: ImportsView,
}

/// How `descriptors` fit together, or what is wrong with them.
pub open spec fn resolution(
    descriptors: Seq<DescriptorView>,
    export_hints: Seq<(Seq<char>, Seq<char>)>,
) -> Result<ResolutionView, ErrorView> {
    if descriptors.len() == 0 {
        Err(ErrorView::Empty)
    } else if first_repeated(ids(descriptors)) is Some {
        Err(ErrorView::DuplicateId(first_repeated(ids(descriptors))->0))
    } else if let Some(hint) = first_dangling_import(ids(descriptors), descriptors) {
        Err(ErrorView::InvalidLinkReference { interface: hint.0, target_id: hint.1 })
    } else if let Some(hint) = first_dangling(ids(descriptors), export_hints) {
        Err(ErrorView::InvalidLinkReference { interface: hint.0, target_id: hint.1 })
    } else if let Some(hint) = first_misdirected(descriptors, export_hints) {
        Err(ErrorView::ExportHintInvalid { interface: hint.0, target_id: hint.1 })
    } else {
        match providers(descriptors, export_hints, exported(descriptors)) {
            Err(e) => Err(e),
            Ok(providers) => match imports(descriptors, descriptors) {
                Err(e) => Err(e),
                Ok(imports) => Ok(ResolutionView { providers, imports }),
            },
        }
    }
}

// ---------------------------------------------------------------------------
// Resolving
// ---------------------------------------------------------------------------

/// How the composables of a composition fit together.
pub struct Resolution {
    /// Who provides each export of the composition.
    pub providers: Vec<(String, String)>,
    /// The names of the exports.
    pub exports: InterfaceSet,
    /// The imports that composables provide to each other.
    pub resolved_imports: Vec<ResolvedImport>,
    /// The imports that none of the composables provides.
    pub external_imports: InterfaceSet,
}

impl View for Resolution {
    type V = ResolutionView;

    open spec fn view(&self) -> ResolutionView {
        ResolutionView {
            providers: hint_views(self.providers@),
            imports: ImportsView {
                resolved: import_views(self.resolved_imports@),
                external: self.external_imports@,
            },
        }
    }
}

/// The IDs of descriptors, or an error if one of them occurs twice.
fn distinct_ids<C: Composable>(descriptors: &Vec<ComposableDescriptor<C>>) -> (r: Result<
    Vec<String>,
    CompositionError,
>)
    ensures
        match r {
            Ok(found) => first_repeated(ids(descriptor_views(descriptors@))) is None && texts(
                found@,
            ) == ids(descriptor_views(descriptors@)),
            Err(e) => first_repeated(ids(descriptor_views(descriptors@))) matches Some(id) && e@
                == ErrorView::DuplicateId(id),
        },
{
    let ghost all = ids(descriptor_views(descriptors@));
    let mut seen: Vec<String> = Vec::new();
    let mut i: usize = 0;
    assert(texts(seen@) =~= all.take(0));
    while i < descriptors.len()
        invariant
            i <= descriptors@.len(),
            all == ids(descriptor_views(descriptors@)),
            texts(seen@) == all.take(i as int),
            first_repeated(all.take(i as int)) is None,
        decreases descriptors.len() - i,
    {
        assert(all.take(i + 1).drop_last() =~= all.take(i as int));
        assert(all[i as int] == descriptors@[i as int]@.id);
        let id = descriptors[i].id();
        if holds(&seen, id) {
            proof {
                lemma_repeated_extends(all, i + 1);
            }
            return Err(CompositionError::DuplicateId(id.to_owned()));
        }
        let ghost before = seen@;
        seen.push(id.to_owned());
        assert(texts(seen@) =~= texts(before).push(all[i as int]));
        assert(texts(seen@) =~= all.take(i + 1));
        i = i + 1;
    }
    assert(all.take(all.len() as int) =~= all);
    Ok(seen)
}

/// The first of `hints` that points to none of `known`.
fn find_dangling(known: &Vec<String>, hints: &HintMap) -> (r: Option<(String, String)>)
    ensures
        match r {
            Some(hint) => first_dangling(texts(known@), hints@) == Some((hint.0@, hint.1@)),
            None => first_dangling(texts(known@), hints@) is None,
        },
{
    let ghost all = hints@;
    let entries = hints.entries();
    let mut i: usize = 0;
    assert(all.take(0) =~= Seq::empty());
    while i < entries.len()
        invariant
            i <= entries@.len(),
            hint_views(entries@) == all,
            all == hints@,
            first_dangling(texts(known@), all.take(i as int)) is None,
        decreases entries.len() - i,
    {
        assert(all.take(i + 1).drop_last() =~= all.take(i as int));
        assert(all[i as int] == (entries@[i as int].0@, entries@[i as int].1@));
        if !holds(known, entries[i].1.as_str()) {
            proof {
                lemma_dangling_extends(texts(known@), all, i + 1);
            }
            return Some((entries[i].0.clone(), entries[i].1.clone()));
        }
        i = i + 1;
    }
    assert(all.take(all.len() as int) =~= all);
    None
}

/// The first import hint that points to none of `known`.
fn find_dangling_import<C: Composable>(
    known: &Vec<String>,
    descriptors: &Vec<ComposableDescriptor<C>>,
) -> (r: Option<(String, String)>)
    ensures
        match r {
            Some(hint) => first_dangling_import(texts(known@), descriptor_views(descriptors@))
                == Some((hint.0@, hint.1@)),
            None => first_dangling_import(texts(known@), descriptor_views(descriptors@)) is None,
        },
{
    let ghost all = descriptor_views(descriptors@);
    let mut i: usize = 0;
    assert(all.take(0) =~= Seq::empty());
    while i < descriptors.len()
        invariant
            i <= descriptors@.len(),
            all == descriptor_views(descriptors@),
            first_dangling_import(texts(known@), all.take(i as int)) is None,
        decreases descriptors.len() - i,
    {
        assert(all.take(i + 1).drop_last() =~= all.take(i as int));
        assert(all[i as int] == descriptors@[i as int]@);
        let hint = find_dangling(known, descriptors[i].import_hints());
        if hint.is_some() {
            proof {
                lemma_dangling_import_extends(texts(known@), all, i + 1);
            }
            return hint;
        }
        i = i + 1;
    }
    assert(all.take(all.len() as int) =~= all);
    None
}

/// The IDs of those that export `name`, in order.
fn find_candidates<C: Composable>(
    descriptors: &Vec<ComposableDescriptor<C>>,
    name: &str,
) -> (found: Vec<String>)
    ensures
        texts(found@) == candidates(descriptor_views(descriptors@), name@),
{
    let ghost all = descriptor_views(descriptors@);
    let mut found: Vec<String> = Vec::new();
    let mut i: usize = 0;
    assert(all.take(0) =~= Seq::empty());
    assert(texts(found@) =~= Seq::empty());
    while i < descriptors.len()
        invariant
            i <= descriptors@.len(),
            all == descriptor_views(descriptors@),
            texts(found@) == candidates(all.take(i as int), name@),
        decreases descriptors.len() - i,
    {
        assert(all.take(i + 1).drop_last() =~= all.take(i as int));
        assert(all[i as int] == descriptors@[i as int]@);
        if descriptors[i].inner().ty().exports().contains(name) {
            let ghost before = found@;
            found.push(descriptors[i].id().to_owned());
            assert(texts(found@) =~= texts(before).push(all[i as int].id));
        }
        i = i + 1;
    }
    assert(all.take(all.len() as int) =~= all);
    found
}

/// The first of `hints` that names one that does not export the interface.
fn find_misdirected<C: Composable>(
    descriptors: &Vec<ComposableDescriptor<C>>,
    hints: &HintMap,
) -> (r: Option<(String, String)>)
    ensures
        match r {
            Some(hint) => first_misdirected(descriptor_views(descriptors@), hints@) == Some(
                (hint.0@, hint.1@),
            ),
            None => first_misdirected(descriptor_views(descriptors@), hints@) is None,
        },
{
    let ghost ds = descriptor_views(descriptors@);
    let ghost all = hints@;
    let entries = hints.entries();
    let mut i: usize = 0;
    assert(all.take(0) =~= Seq::empty());
    while i < entries.len()
        invariant
            i <= entries@.len(),
            hint_views(entries@) == all,
            all == hints@,
            ds == descriptor_views(descriptors@),
            first_misdirected(ds, all.take(i as int)) is None,
        decreases entries.len() - i,
    {
        assert(all.take(i + 1).drop_last() =~= all.take(i as int));
        assert(all[i as int] == (entries@[i as int].0@, entries@[i as int].1@));
        let found = find_candidates(descriptors, entries[i].0.as_str());
        if !holds(&found, entries[i].1.as_str()) {
            proof {
                lemma_misdirected_extends(ds, all, i + 1);
            }
            return Some((entries[i].0.clone(), entries[i].1.clone()));
        }
        i = i + 1;
    }
    assert(all.take(all.len() as int) =~= all);
    None
}

/// The names of all that is exported.
fn collect_exports<C: Composable>(descriptors: &Vec<ComposableDescriptor<C>>) -> (set: InterfaceSet)
    ensures
        set@ == exported(descriptor_views(descriptors@)),
{
    let ghost all = descriptor_views(descriptors@);
    let mut set = InterfaceSet::new();
    let mut i: usize = 0;
    assert(all.take(0) =~= Seq::empty());
    while i < descriptors.len()
        invariant
            i <= descriptors@.len(),
            all == descriptor_views(descriptors@),
            set@ == exported(all.take(i as int)),
        decreases descriptors.len() - i,
    {
        assert(all.take(i + 1).drop_last() =~= all.take(i as int));
        assert(all[i as int] == descriptors@[i as int]@);
        let names = descriptors[i].inner().ty().exports().names();
        let ghost before = set@;
        let ghost more = texts(names@);
        let mut j: usize = 0;
        assert(more.take(0) =~= Seq::empty());
        while j < names.len()
            invariant
                j <= names@.len(),
                more == texts(names@),
                set@ == with_names(before, more.take(j as int)),
            decreases names.len() - j,
        {
            assert(more.take(j + 1).drop_last() =~= more.take(j as int));
            let _ = set.insert(names[j].clone());
            j = j + 1;
        }
        assert(more.take(more.len() as int) =~= more);
        i = i + 1;
    }
    assert(all.take(all.len() as int) =~= all);
    set
}

/// Who provides the export `name` of the composition.
fn find_provider<C: Composable>(
    descriptors: &Vec<ComposableDescriptor<C>>,
    hints: &HintMap,
    name: &String,
) -> (r: Result<String, CompositionError>)
    ensures
        match r {
            Ok(id) => provider(descriptor_views(descriptors@), hints@, name@) == Ok::<
                Seq<char>,
                ErrorView,
            >(id@),
            Err(e) => provider(descriptor_views(descriptors@), hints@, name@) == Err::<
                Seq<char>,
                ErrorView,
            >(e@),
        },
{
    let found = find_candidates(descriptors, name.as_str());
    match hints.get(name.as_str()) {
        None => if found.len() == 1 {
            assert(texts(found@)[0] == found@[0]@);
            Ok(found[0].clone())
        } else {
            Err(CompositionError::AmbiguousExport { interface: name.clone(), candidates: found })
        },
        Some(id) => Ok(id.clone()),
    }
}

/// Who provides each of the exports `names`.
fn find_providers<C: Composable>(
    descriptors: &Vec<ComposableDescriptor<C>>,
    hints: &HintMap,
    names: &Vec<String>,
) -> (r: Result<Vec<(String, String)>, CompositionError>)
    ensures
        match r {
            Ok(found) => providers(descriptor_views(descriptors@), hints@, texts(names@)) == Ok::<
                Seq<(Seq<char>, Seq<char>)>,
                ErrorView,
            >(hint_views(found@)),
            Err(e) => providers(descriptor_views(descriptors@), hints@, texts(names@)) == Err::<
                Seq<(Seq<char>, Seq<char>)>,
                ErrorView,
            >(e@),
        },
{
    let ghost ds = descriptor_views(descriptors@);
    let ghost all = texts(names@);
    let mut found: Vec<(String, String)> = Vec::new();
    let mut i: usize = 0;
    assert(all.take(0) =~= Seq::empty());
    assert(hint_views(found@) =~= Seq::empty());
    while i < names.len()
        invariant
            i <= names@.len(),
            all == texts(names@),
            ds == descriptor_views(descriptors@),
            providers(ds, hints@, all.take(i as int)) == Ok::<
                Seq<(Seq<char>, Seq<char>)>,
                ErrorView,
            >(hint_views(found@)),
        decreases names.len() - i,
    {
        assert(all.take(i + 1).drop_last() =~= all.take(i as int));
        match find_provider(descriptors, hints, &names[i]) {
            Ok(id) => {
                let ghost before = found@;
                let ghost entry = (all[i as int], id@);
                found.push((names[i].clone(), id));
                assert(hint_views(found@) =~= hint_views(before).push(entry));
            },
            Err(e) => {
                proof {
                    lemma_providers_fail(ds, hints@, all, i + 1);
                }
                return Err(e);
            },
        }
        i = i + 1;
    }
    assert(all.take(all.len() as int) =~= all);
    Ok(found)
}

/// Who provides the import `name` of `importer`.
fn find_source<C: Composable>(
    descriptors: &Vec<ComposableDescriptor<C>>,
    importer: &ComposableDescriptor<C>,
    name: &String,
) -> (r: Result<Option<String>, CompositionError>)
    ensures
        match r {
            Ok(Some(id)) => source(descriptor_views(descriptors@), importer@, name@) == Ok::<
                Option<Seq<char>>,
                ErrorView,
            >(Some(id@)),
            Ok(None) => source(descriptor_views(descriptors@), importer@, name@) == Ok::<
                Option<Seq<char>>,
                ErrorView,
            >(None),
            Err(e) => source(descriptor_views(descriptors@), importer@, name@) == Err::<
                Option<Seq<char>>,
                ErrorView,
            >(e@),
        },
{
    let found = find_candidates(descriptors, name.as_str());
    match importer.import_hints().get(name.as_str()) {
        None => if found.len() == 0 {
            Ok(None)
        } else if found.len() == 1 {
            assert(texts(found@)[0] == found@[0]@);
            Ok(Some(found[0].clone()))
        } else {
            Err(CompositionError::AmbiguousImport { interface: name.clone(), candidates: found })
        },
        Some(id) => Ok(Some(id.clone())),
    }
}

/// Sorts the imports of `importer` into `resolved` and `external`.
fn sort_imports<C: Composable>(
    descriptors: &Vec<ComposableDescriptor<C>>,
    importer: &ComposableDescriptor<C>,
    resolved: &mut Vec<ResolvedImport>,
    external: &mut InterfaceSet,
) -> (r: Result<(), CompositionError>)
    ensures
        match r {
            Ok(()) => with_importer(
                descriptor_views(descriptors@),
                importer@,
                sorted(*old(resolved), *old(external)),
            ) == Ok::<ImportsView, ErrorView>(sorted(*final(resolved), *final(external))),
            Err(e) => with_importer(
                descriptor_views(descriptors@),
                importer@,
                sorted(*old(resolved), *old(external)),
            ) == Err::<ImportsView, ErrorView>(e@),
        },
{
    let ghost ds = descriptor_views(descriptors@);
    let ghost all = importer@.ty.imports;
    let ghost before = sorted(*resolved, *external);
    if let Some((interface, target_id)) = find_misdirected(descriptors, importer.import_hints()) {
        return Err(CompositionError::ImportHintInvalid { interface, target_id });
    }
    let names = importer.inner().ty().imports().names();
    let mut i: usize = 0;
    assert(all.take(0) =~= Seq::empty());
    while i < names.len()
        invariant
            i <= names@.len(),
            all == texts(names@),
            all == importer@.ty.imports,
            before == sorted(*old(resolved), *old(external)),
            ds == descriptor_views(descriptors@),
            first_misdirected(ds, importer@.hints) is None,
            with_imports(ds, importer@, all.take(i as int), before) == Ok::<
                ImportsView,
                ErrorView,
            >(sorted(*resolved, *external)),
        decreases names.len() - i,
    {
        assert(all.take(i + 1).drop_last() =~= all.take(i as int));
        match find_source(descriptors, importer, &names[i]) {
            Ok(None) => {
                let _ = external.insert(names[i].clone());
            },
            Ok(Some(id)) => {
                let ghost had = resolved@;
                let link = ResolvedImport::new(importer.id().to_owned(), id, names[i].clone());
                let ghost view = link@;
                resolved.push(link);
                assert(import_views(resolved@) =~= import_views(had).push(view));
            },
            Err(e) => {
                proof {
                    lemma_imports_fail(ds, importer@, all, before, i + 1);
                }
                return Err(e);
            },
        }
        i = i + 1;
    }
    assert(all.take(all.len() as int) =~= all);
    Ok(())
}

/// Resolved and external imports, as one view.
pub open spec fn sorted(resolved: Vec<ResolvedImport>, external: InterfaceSet) -> ImportsView {
    ImportsView { resolved: import_views(resolved@), external: external@ }
}

/// Resolves how `descriptors` fit together.
pub fn resolve<C: Composable>(
    descriptors: &Vec<ComposableDescriptor<C>>,
    export_hints: &HintMap,
) -> (r: Result<Resolution, CompositionError>)
    ensures
        match r {
            Ok(resolved) => resolution(descriptor_views(descriptors@), export_hints@) == Ok::<
                ResolutionView,
                ErrorView,
            >(resolved@) && resolved.exports@ == exported(descriptor_views(descriptors@)),
            Err(e) => resolution(descriptor_views(descriptors@), export_hints@) == Err::<
                ResolutionView,
                ErrorView,
            >(e@),
        },
{
    if descriptors.len() == 0 {
        return Err(CompositionError::Empty);
    }
    let known = match distinct_ids(descriptors) {
        Ok(known) => known,
        Err(e) => return Err(e),
    };
    if let Some((interface, target_id)) = find_dangling_import(&known, descriptors) {
        return Err(CompositionError::InvalidLinkReference { interface, target_id });
    }
    if let Some((interface, target_id)) = find_dangling(&known, export_hints) {
        return Err(CompositionError::InvalidLinkReference { interface, target_id });
    }
    if let Some((interface, target_id)) = find_misdirected(descriptors, export_hints) {
        return Err(CompositionError::ExportHintInvalid { interface, target_id });
    }
    let exports = collect_exports(descriptors);
    let providers = match find_providers(descriptors, export_hints, exports.names()) {
        Ok(providers) => providers,
        Err(e) => return Err(e),
    };
    let ghost all = descriptor_views(descriptors@);
    let mut resolved_imports: Vec<ResolvedImport> = Vec::new();
    let mut external_imports = InterfaceSet::new();
    let mut i: usize = 0;
    assert(all.take(0) =~= Seq::empty());
    assert(import_views(resolved_imports@) =~= Seq::empty());
    while i < descriptors.len()
        invariant
            i <= descriptors@.len(),
            all == descriptor_views(descriptors@),
            imports(all, all.take(i as int)) == Ok::<ImportsView, ErrorView>(
                sorted(resolved_imports, external_imports),
            ),
            all.len() > 0,
            first_repeated(ids(all)) is None,
            first_dangling_import(ids(all), all) is None,
            first_dangling(ids(all), export_hints@) is None,
            first_misdirected(all, export_hints@) is None,
            self::providers(all, export_hints@, exported(all)) == Ok::<
                Seq<(Seq<char>, Seq<char>)>,
                ErrorView,
            >(hint_views(providers@)),
        decreases descriptors.len() - i,
    {
        assert(all.take(i + 1).drop_last() =~= all.take(i as int));
        assert(all[i as int] == descriptors@[i as int]@);
        match sort_imports(
            descriptors,
            &descriptors[i],
            &mut resolved_imports,
            &mut external_imports,
        ) {
            Ok(()) => {},
            Err(e) => {
                proof {
                    lemma_all_imports_fail(all, all, i + 1);
                }
                return Err(e);
            },
        }
        i = i + 1;
    }
    assert(all.take(all.len() as int) =~= all);
    Ok(Resolution { providers, exports, resolved_imports, external_imports })
}

// ---------------------------------------------------------------------------
// Lemmas
// ---------------------------------------------------------------------------

proof fn lemma_repeated_extends(names: Seq<Seq<char>>, n: int)
    requires
        0 <= n <= names.len(),
        first_repeated(names.take(n)) is Some,
    ensures
        first_repeated(names) == first_repeated(names.take(n)),
    decreases names.len(),
{
    if n < names.len() {
        assert(names.drop_last().take(n) =~= names.take(n));
        lemma_repeated_extends(names.drop_last(), n);
    } else {
        assert(names.take(n) =~= names);
    }
}

proof fn lemma_dangling_extends(
    known: Seq<Seq<char>>,
    hints: Seq<(Seq<char>, Seq<char>)>,
    n: int,
)
    requires
        0 <= n <= hints.len(),
        first_dangling(known, hints.take(n)) is Some,
    ensures
        first_dangling(known, hints) == first_dangling(known, hints.take(n)),
    decreases hints.len(),
{
    if n < hints.len() {
        assert(hints.drop_last().take(n) =~= hints.take(n));
        lemma_dangling_extends(known, hints.drop_last(), n);
    } else {
        assert(hints.take(n) =~= hints);
    }
}

proof fn lemma_misdirected_extends(
    descriptors: Seq<DescriptorView>,
    hints: Seq<(Seq<char>, Seq<char>)>,
    n: int,
)
    requires
        0 <= n <= hints.len(),
        first_misdirected(descriptors, hints.take(n)) is Some,
    ensures
        first_misdirected(descriptors, hints) == first_misdirected(descriptors, hints.take(n)),
    decreases hints.len(),
{
    if n < hints.len() {
        assert(hints.drop_last().take(n) =~= hints.take(n));
        lemma_misdirected_extends(descriptors, hints.drop_last(), n);
    } else {
        assert(hints.take(n) =~= hints);
    }
}

proof fn lemma_dangling_import_extends(
    known: Seq<Seq<char>>,
    descriptors: Seq<DescriptorView>,
    n: int,
)
    requires
        0 <= n <= descriptors.len(),
        first_dangling_import(known, descriptors.take(n)) is Some,
    ensures
        first_dangling_import(known, descriptors) == first_dangling_import(
            known,
            descriptors.take(n),
        ),
    decreases descriptors.len(),
{
    if n < descriptors.len() {
        assert(descriptors.drop_last().take(n) =~= descriptors.take(n));
        lemma_dangling_import_extends(known, descriptors.drop_last(), n);
    } else {
        assert(descriptors.take(n) =~= descriptors);
    }
}

proof fn lemma_providers_fail(
    descriptors: Seq<DescriptorView>,
    hints: Seq<(Seq<char>, Seq<char>)>,
    names: Seq<Seq<char>>,
    n: int,
)
    requires
        0 <= n <= names.len(),
        providers(descriptors, hints, names.take(n)) is Err,
    ensures
        providers(descriptors, hints, names) == providers(descriptors, hints, names.take(n)),
    decreases names.len(),
{
    if n < names.len() {
        assert(names.drop_last().take(n) =~= names.take(n));
        lemma_providers_fail(descriptors, hints, names.drop_last(), n);
    } else {
        assert(names.take(n) =~= names);
    }
}

proof fn lemma_imports_fail(
    descriptors: Seq<DescriptorView>,
    importer: DescriptorView,
    names: Seq<Seq<char>>,
    before: ImportsView,
    n: int,
)
    requires
        0 <= n <= names.len(),
        with_imports(descriptors, importer, names.take(n), before) is Err,
    ensures
        with_imports(descriptors, importer, names, before) == with_imports(
            descriptors,
            importer,
            names.take(n),
            before,
        ),
    decreases names.len(),
{
    if n < names.len() {
        assert(names.drop_last().take(n) =~= names.take(n));
        lemma_imports_fail(descriptors, importer, names.drop_last(), before, n);
    } else {
        assert(names.take(n) =~= names);
    }
}

proof fn lemma_all_imports_fail(
    descriptors: Seq<DescriptorView>,
    importers: Seq<DescriptorView>,
    n: int,
)
    requires
        0 <= n <= importers.len(),
        imports(descriptors, importers.take(n)) is Err,
    ensures
        imports(descriptors, importers) == imports(descriptors, importers.take(n)),
    decreases importers.len(),
{
    if n < importers.len() {
        assert(importers.drop_last().take(n) =~= importers.take(n));
        lemma_all_imports_fail(descriptors, importers.drop_last(), n);
    } else {
        assert(importers.take(n) =~= importers);
    }
}

} // verus!
