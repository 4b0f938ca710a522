//! Carrying out a planned composition.
//!
//! The links of a [`Blueprint`] are made one after the other, and once all of them
//! are made each child is finalized. The first error ends it.

use vstd::prelude::*;

use crate::composable::Composable;
use crate::composer::{linkable, makes, planned_for, Blueprint};
use crate::descriptor::{descriptor_views, ComposableDescriptor};
use crate::hints::{hint_for, hint_views};
use crate::interface::{import_views, ImportView};
use crate::resolution::{
    every_export_has_a_provider, every_import_is_settled, exports_as, import_hints_decide,
    is_exported, is_exported_by, is_imported_by, lemma_distinct, only_imports_are_resolved,
};
use crate::resolve::{ids, resolution, ResolutionView};

verus! {

/// What to do next.
pub enum Action {
    /// Make the link number `k` of the blueprint.
    Link(usize),
    /// Finalize the child number `i` of the blueprint.
    Finalize(usize),
    /// Nothing any more: it is over.
    Stop,
}

/// How far a composition is carried out.
pub struct Assembly<E> {
    links: usize,
    complete: bool,
    children: usize,
    linked: usize,
    finalized: usize,
    failed: Option<E>,
}

/// The mathematical view of an [`Assembly`].
#[verifier::ext_equal]
pub struct AssemblyView<E> {
    /// How many links are to be made.
    pub links: nat,
    /// Whether these are all the links that are needed.
    pub complete: bool,
    /// How many children are to be finalized then.
    pub children: nat,
    /// How many links are made.
    pub linked: nat,
    /// How many children are finalized.
    pub finalized: nat,
    /// The error that ended it.
    pub failed: Option<E>,
}

impl<E> View for Assembly<E> {
    type V = AssemblyView<E>;

    closed spec fn view(&self) -> AssemblyView<E> {
        AssemblyView {
            links: self.links as nat,
            complete: self.complete,
            children: self.children as nat,
            linked: self.linked as nat,
            finalized: self.finalized as nat,
            failed: self.failed,
        }
    }
}

/// Nothing is carried out yet.
pub open spec fn not_begun<E>(links: nat, complete: bool, children: nat) -> AssemblyView<E> {
    AssemblyView { links, complete, children, linked: 0, finalized: 0, failed: None }
}

/// What to do next.
pub open spec fn next_action<E>(state: AssemblyView<E>) -> Action {
    if state.failed is Some {
        Action::Stop
    } else if state.linked < state.links {
        Action::Link(state.linked as usize)
    } else if state.complete && state.finalized < state.children {
        Action::Finalize(state.finalized as usize)
    } else {
        Action::Stop
    }
}

/// The assembly `state` once what was to be done next has come to `outcome`.
pub open spec fn reported<E>(state: AssemblyView<E>, outcome: Result<(), E>) -> AssemblyView<E> {
    match (next_action(state), outcome) {
        (Action::Stop, _) => state,
        (_, Err(e)) => AssemblyView { failed: Some(e), ..state },
        (Action::Link(_), Ok(())) => AssemblyView { linked: state.linked + 1, ..state },
        (Action::Finalize(_), Ok(())) => AssemblyView { finalized: state.finalized + 1, ..state },
    }
}

/// The assembly `state` once what was to be done has come to `outcomes`, in order.
pub open spec fn carried_out<E>(
    state: AssemblyView<E>,
    outcomes: Seq<Result<(), E>>,
) -> AssemblyView<E>
    decreases outcomes.len(),
{
    if outcomes.len() == 0 {
        state
    } else {
        reported(carried_out(state, outcomes.drop_last()), outcomes.last())
    }
}

/// What is done after the first `k` of `outcomes`.
pub open spec fn action_at<E>(
    state: AssemblyView<E>,
    outcomes: Seq<Result<(), E>>,
    k: int,
) -> Action {
    next_action(carried_out(state, outcomes.take(k)))
}

impl<E> Assembly<E> {
    #[verifier::type_invariant]
    spec fn inv(self) -> bool {
        self.linked <= self.links && self.finalized <= self.children
    }

    /// What to do next.
    pub fn action(&self) -> (action: Action)
        ensures
            action == next_action(self@),
    {
        if self.failed.is_some() {
            Action::Stop
        } else if self.linked < self.links {
            Action::Link(self.linked)
        } else if self.complete && self.finalized < self.children {
            Action::Finalize(self.finalized)
        } else {
            Action::Stop
        }
    }

    /// Takes note of what the action has come to.
    pub fn report(&mut self, outcome: Result<(), E>)
        ensures
            final(self)@ == reported(old(self)@, outcome),
    {
        proof {
            use_type_invariant(&*self);
        }
        match self.action() {
            Action::Stop => {},
            Action::Link(_) => match outcome {
                Ok(()) => {
                    self.linked = self.linked + 1;
                },
                Err(e) => {
                    self.failed = Some(e);
                },
            },
            Action::Finalize(_) => match outcome {
                Ok(()) => {
                    self.finalized = self.finalized + 1;
                },
                Err(e) => {
                    self.failed = Some(e);
                },
            },
        }
    }

    /// What carrying out comes to, where the blueprint itself comes to `planned`: the
    /// error that ended it, or that.
    pub fn finish(self, planned: Result<(), E>) -> (outcome: Result<(), E>)
        ensures
            outcome == match self@.failed {
                Some(e) => Err(e),
                None => planned,
            },
    {
        match self.failed {
            Some(e) => Err(e),
            None => planned,
        }
    }
}

impl<C> Blueprint<C> {
    /// Begins to make the links and to finalize the children.
    pub fn assemble<E>(&self) -> (assembly: Assembly<E>)
        ensures
            assembly@ == not_begun::<E>(
                self.links@.len(),
                self.outcome is Ok,
                self.children@.len(),
            ),
    {
        Assembly {
            links: self.links.len(),
            complete: self.outcome.is_ok(),
            children: self.children.len(),
            linked: 0,
            finalized: 0,
            failed: None,
        }
    }

    /// Begins to make the links only.
    pub fn link_only<E>(&self) -> (assembly: Assembly<E>)
        ensures
            assembly@ == not_begun::<E>(self.links@.len(), self.outcome is Ok, 0),
    {
        Assembly {
            links: self.links.len(),
            complete: self.outcome.is_ok(),
            children: 0,
            linked: 0,
            finalized: 0,
            failed: None,
        }
    }
}

// ---------------------------------------------------------------------------
// Laws
// ---------------------------------------------------------------------------

/// How many things are to be done.
pub open spec fn total(links: nat, complete: bool, children: nat) -> nat {
    links + if complete {
        children
    } else {
        0
    }
}

/// As long as all goes well, each link is made once, in order, and then, if these are
/// all the links, each child is finalized once, in order, and nothing else is done.
pub proof fn links_are_made_before_children_are_finalized<E>(
    links: nat,
    complete: bool,
    children: nat,
    outcomes: Seq<Result<(), E>>,
    k: int,
)
    requires
        forall|i: int| 0 <= i < outcomes.len() ==> (#[trigger] outcomes[i]) is Ok,
        0 <= k <= outcomes.len() <= total(links, complete, children),
    ensures
        ({
            let start = not_begun::<E>(links, complete, children);
            &&& action_at(start, outcomes, k) == if k < links {
                Action::Link(k as usize)
            } else if k < total(links, complete, children) {
                Action::Finalize((k - links) as usize)
            } else {
                Action::Stop
            }
            &&& carried_out(start, outcomes).failed is None
        }),
{
    let n = outcomes.len() as int;
    lemma_all_well(links, complete, children, outcomes, k);
    lemma_all_well(links, complete, children, outcomes, n);
    assert(outcomes.take(n) =~= outcomes);
}

/// The first error ends it: it is passed on unchanged, and nothing is done after it,
/// whatever is reported then.
pub proof fn the_first_error_ends_it<E>(
    links: nat,
    complete: bool,
    children: nat,
    outcomes: Seq<Result<(), E>>,
    n: int,
    k: int,
)
    requires
        0 <= n < k <= outcomes.len(),
        n < total(links, complete, children),
        forall|i: int| 0 <= i < n ==> (#[trigger] outcomes[i]) is Ok,
        outcomes[n] is Err,
    ensures
        ({
            let start = not_begun::<E>(links, complete, children);
            &&& carried_out(start, outcomes.take(k)).failed == Some(outcomes[n]->Err_0)
            &&& action_at(start, outcomes, k) == Action::Stop
        }),
    decreases k,
{
    let start = not_begun::<E>(links, complete, children);
    assert(outcomes.take(k).drop_last() =~= outcomes.take(k - 1));
    if k == n + 1 {
        lemma_all_well(links, complete, children, outcomes.take(n), n);
        assert(outcomes.take(n).take(n) =~= outcomes.take(n));
    } else {
        the_first_error_ends_it(links, complete, children, outcomes, n, k - 1);
    }
}

/// The links of a blueprint are the imports that are resolved, in order, up to the
/// first that a composable would have to provide to itself. If there is none they
/// are all of them, and the blueprint comes to no error.
pub proof fn links_are_the_resolved_imports<C: Composable>(
    blueprint: Blueprint<C>,
    descriptors: Seq<ComposableDescriptor<C>>,
    resolved: ResolutionView,
    k: int,
)
    requires
        planned_for(blueprint, descriptors, resolved),
    ensures
        ({
            let imports = resolved.imports.resolved;
            let links = blueprint.links@;
            &&& links.len() <= imports.len()
            &&& 0 <= k < links.len() ==> makes(
                links[k],
                imports[k],
                ids(descriptor_views(descriptors)),
            )
            &&& links.len() < imports.len() ==> imports[links.len() as int].importer_id
                == imports[links.len() as int].exporter_id
            &&& blueprint.outcome is Ok <==> links.len() == imports.len()
            &&& (forall|i: int|
                0 <= i < imports.len() ==> (#[trigger] imports[i]).importer_id
                    != imports[i].exporter_id) ==> links.len() == imports.len()
            &&& blueprint.children@.len() == descriptors.len()
        }),
{
    lemma_linkable(resolved.imports.resolved);
    assert(crate::names::keys(blueprint.children@).len() == blueprint.children@.len());
}

/// A blueprint has all the composables under their IDs, exports what one of them
/// exports, imports what one of them imports and none exports, and provides every
/// export by one that exports it.
pub proof fn blueprints_offer_what_their_children_do<C: Composable>(
    blueprint: Blueprint<C>,
    descriptors: Seq<ComposableDescriptor<C>>,
    export_hints: Seq<(Seq<char>, Seq<char>)>,
    i: int,
    name: Seq<char>,
)
    requires
        resolution(descriptor_views(descriptors), export_hints) is Ok,
        planned_for(
            blueprint,
            descriptors,
            resolution(descriptor_views(descriptors), export_hints)->Ok_0,
        ),
    ensures
        blueprint.children@.len() == descriptors.len(),
        0 <= i < descriptors.len() ==> blueprint.children@[i].0@ == descriptors[i]@.id
            && blueprint.children@[i].1 == descriptors[i].composable(),
        blueprint.ty@.exports.contains(name) <==> is_exported(descriptor_views(descriptors), name),
        blueprint.ty@.imports.contains(name) <==> !is_exported(descriptor_views(descriptors), name)
            && exists|j: int|
            0 <= j < descriptors.len() && (#[trigger] descriptors[j])@.ty.imports.contains(name),
        is_exported(descriptor_views(descriptors), name) <==> hint_for(
            hint_views(blueprint.providers@),
            name,
        ) is Some,
        hint_for(hint_views(blueprint.providers@), name) matches Some(id) ==> is_exported_by(
            descriptor_views(descriptors),
            id,
            name,
        ),
{
    let views = descriptor_views(descriptors);
    every_export_has_a_provider(views, export_hints, name);
    only_imports_are_resolved(views, export_hints, 0, name);
    assert(crate::names::keys(blueprint.children@).len() == blueprint.children@.len());
    if 0 <= i < descriptors.len() {
        assert(crate::names::keys(blueprint.children@)[i] == ids(views)[i]);
    }
    if exists|j: int|
        0 <= j < descriptors.len() && (#[trigger] descriptors[j])@.ty.imports.contains(name) {
        let j = choose|j: int|
            0 <= j < descriptors.len() && (#[trigger] descriptors[j])@.ty.imports.contains(name);
        assert(views[j].ty.imports.contains(name));
        every_import_is_settled(views, export_hints, j, name);
    }
    if blueprint.ty@.imports.contains(name) {
        let j = choose|j: int|
            0 <= j < views.len() && (#[trigger] views[j]).ty.imports.contains(name);
        assert(descriptors[j]@.ty.imports.contains(name));
    }
}

/// Every link of a blueprint is made from a child that exports the interface to another
/// child that imports it. Where the importer has a hint, the exporter is the one that
/// it names. The imports that a blueprint reports as resolved are of the same kind.
pub proof fn links_lead_from_exporters_to_importers<C: Composable>(
    blueprint: Blueprint<C>,
    descriptors: Seq<ComposableDescriptor<C>>,
    export_hints: Seq<(Seq<char>, Seq<char>)>,
    k: int,
)
    requires
        resolution(descriptor_views(descriptors), export_hints) is Ok,
        planned_for(
            blueprint,
            descriptors,
            resolution(descriptor_views(descriptors), export_hints)->Ok_0,
        ),
    ensures
        0 <= k < blueprint.links@.len() ==> {
            let link = blueprint.links@[k];
            &&& link.importer < descriptors.len()
            &&& link.exporter < descriptors.len()
            &&& link.importer != link.exporter
            &&& descriptors[link.importer as int]@.ty.imports.contains(link.interface@)
            &&& descriptors[link.exporter as int]@.ty.exports.contains(link.interface@)
            &&& hint_for(
                descriptors[link.importer as int]@.hints,
                link.interface@,
            ) matches Some(id) ==> descriptors[link.exporter as int]@.id == id
            &&& blueprint.resolved_imports@[k].importer_id@ == descriptors[link.importer as int]@.id
            &&& blueprint.resolved_imports@[k].exporter_id@ == descriptors[link.exporter as int]@.id
            &&& blueprint.resolved_imports@[k].interface@ == link.interface@
        },
        0 <= k < blueprint.resolved_imports@.len() ==> {
            let link = blueprint.resolved_imports@[k];
            &&& is_imported_by(
                descriptor_views(descriptors),
                link.importer_id@,
                link.interface@,
            )
            &&& is_exported_by(
                descriptor_views(descriptors),
                link.exporter_id@,
                link.interface@,
            )
        },
{
    let views = descriptor_views(descriptors);
    let resolved = resolution(views, export_hints)->Ok_0;
    let imports = resolved.imports.resolved;
    links_are_the_resolved_imports(blueprint, descriptors, resolved, k);
    only_imports_are_resolved(views, export_hints, k, Seq::empty());
    assert(import_views(blueprint.resolved_imports@).len() == blueprint.resolved_imports@.len());
    if 0 <= k < blueprint.resolved_imports@.len() {
        assert(import_views(blueprint.resolved_imports@)[k] == blueprint.resolved_imports@[k]@);
    }
    if 0 <= k < blueprint.links@.len() {
        let link = blueprint.links@[k];
        let import = imports[k];
        lemma_distinct(ids(views));
        import_hints_decide(views, export_hints, k);
        let i = choose|i: int|
            0 <= i < views.len() && (#[trigger] views[i]).id == import.importer_id
                && views[i].ty.imports.contains(import.interface);
        assert(ids(views)[i] == ids(views)[link.importer as int]);
        let e = choose|e: int|
            0 <= e < views.len() && exports_as(
                #[trigger] views[e],
                import.exporter_id,
                import.interface,
            );
        assert(ids(views)[e] == ids(views)[link.exporter as int]);
        assert(views[link.importer as int] == descriptors[link.importer as int]@);
        assert(views[link.exporter as int] == descriptors[link.exporter as int]@);
    }
}

/// If all goes well, a composition makes one link for each import that is resolved,
/// in order, and no other, and after the last one it finalizes each child, once.
pub proof fn composing_links_each_import_once<C: Composable, E>(
    blueprint: Blueprint<C>,
    descriptors: Seq<ComposableDescriptor<C>>,
    resolved: ResolutionView,
    outcomes: Seq<Result<(), E>>,
    k: int,
)
    requires
        planned_for(blueprint, descriptors, resolved),
        blueprint.outcome is Ok,
        outcomes.len() == resolved.imports.resolved.len() + descriptors.len(),
        forall|i: int| 0 <= i < outcomes.len() ==> (#[trigger] outcomes[i]) is Ok,
        0 <= k < outcomes.len(),
    ensures
        ({
            let start = not_begun::<E>(
                blueprint.links@.len(),
                blueprint.outcome is Ok,
                blueprint.children@.len(),
            );
            let imports = resolved.imports.resolved;
            &&& k < imports.len() ==> action_at(start, outcomes, k) == Action::Link(k as usize)
                && makes(blueprint.links@[k], imports[k], ids(descriptor_views(descriptors)))
            &&& k >= imports.len() ==> action_at(start, outcomes, k) == Action::Finalize(
                (k - imports.len()) as usize,
            )
            &&& next_action(carried_out(start, outcomes)) == Action::Stop
        }),
{
    let n = outcomes.len() as int;
    links_are_the_resolved_imports(blueprint, descriptors, resolved, k);
    let links = blueprint.links@.len();
    let children = blueprint.children@.len();
    links_are_made_before_children_are_finalized(links, true, children, outcomes, k);
    links_are_made_before_children_are_finalized(links, true, children, outcomes, n);
    assert(outcomes.take(n) =~= outcomes);
}

/// Where no composable provides an import to itself, building makes one link for each
/// import that is resolved, in order, until one fails. Its error is then what building
/// comes to, and no later link is made; if none fails, building comes to no error.
/// Number `n` is the first that fails.
pub proof fn building_links_in_order_until_an_error<C: Composable, E>(
    blueprint: Blueprint<C>,
    descriptors: Seq<ComposableDescriptor<C>>,
    resolved: ResolutionView,
    outcomes: Seq<Result<(), E>>,
    n: int,
    k: int,
)
    requires
        planned_for(blueprint, descriptors, resolved),
        forall|i: int|
            0 <= i < resolved.imports.resolved.len() ==> (
            #[trigger] resolved.imports.resolved[i]).importer_id
                != resolved.imports.resolved[i].exporter_id,
        0 <= n <= outcomes.len(),
        forall|i: int| 0 <= i < n ==> (#[trigger] outcomes[i]) is Ok,
        if n < outcomes.len() {
            n < resolved.imports.resolved.len() && outcomes[n] is Err
        } else {
            n == resolved.imports.resolved.len()
        },
        0 <= k <= outcomes.len(),
    ensures
        ({
            let start = not_begun::<E>(blueprint.links@.len(), blueprint.outcome is Ok, 0);
            let imports = resolved.imports.resolved;
            &&& blueprint.outcome is Ok
            &&& k <= n && k < imports.len() ==> action_at(start, outcomes, k) == Action::Link(
                k as usize,
            ) && makes(blueprint.links@[k], imports[k], ids(descriptor_views(descriptors)))
            &&& k > n || k == imports.len() ==> action_at(start, outcomes, k) == Action::Stop
            &&& carried_out(start, outcomes).failed == if n < outcomes.len() {
                Some(outcomes[n]->Err_0)
            } else {
                None
            }
        }),
{
    let links = blueprint.links@.len();
    let len = outcomes.len() as int;
    links_are_the_resolved_imports(blueprint, descriptors, resolved, k);
    assert(outcomes.take(len) =~= outcomes);
    if k <= n {
        lemma_all_well(links, true, 0, outcomes, k);
    } else {
        the_first_error_ends_it(links, true, 0, outcomes, n, k);
    }
    if n < len {
        the_first_error_ends_it(links, true, 0, outcomes, n, len);
    } else {
        lemma_all_well(links, true, 0, outcomes, n);
    }
}

/// The state while all goes well.
proof fn lemma_all_well<E>(
    links: nat,
    complete: bool,
    children: nat,
    outcomes: Seq<Result<(), E>>,
    k: int,
)
    requires
        0 <= k <= outcomes.len(),
        k <= total(links, complete, children),
        forall|i: int| 0 <= i < k ==> (#[trigger] outcomes[i]) is Ok,
    ensures
        carried_out(not_begun::<E>(links, complete, children), outcomes.take(k)) == (AssemblyView {
            links,
            complete,
            children,
            linked: if k < links {
                k as nat
            } else {
                links
            },
            finalized: if k < links {
                0
            } else {
                (k - links) as nat
            },
            failed: None::<E>,
        }),
    decreases k,
{
    if k > 0 {
        lemma_all_well(links, complete, children, outcomes, k - 1);
        assert(outcomes.take(k).drop_last() =~= outcomes.take(k - 1));
        assert(outcomes.take(k).last() == outcomes[k - 1]);
    }
}

/// Where linking ends.
proof fn lemma_linkable(imports: Seq<ImportView>)
    ensures
        linkable(imports) <= imports.len(),
        linkable(imports) < imports.len() ==> imports[linkable(imports) as int].importer_id
            == imports[linkable(imports) as int].exporter_id,
    decreases imports.len(),
{
    if imports.len() > 0 {
        lemma_linkable(imports.drop_last());
    }
}

} // verus!
