//! Planning a composition.

use vstd::prelude::*;

use crate::composable::{import_plan, Composable, Linkable};
use crate::descriptor::{descriptor_views, ComposableDescriptor};
use crate::error::{message, outcome_view, CompositionError, ErrorView};
use crate::hints::{hint_views, with_hint, HintMap};
use crate::interface::{import_views, ComposableType, ImportView, ResolvedImport, TypeView};
use crate::link::LinkPlan;
use crate::names::{find, keys, lemma_position};
use crate::resolution::{exports_as, lemma_distinct, only_imports_are_resolved};
use crate::resolve::{exported, ids, resolution, resolve, ResolutionView};

verus! {

/// One link to make: the child at `exporter` provides `interface` to the child at
/// `importer`.
pub struct LinkStep {
    pub importer: usize,
    pub exporter: usize,
    pub interface: String,
}

/// A composition that is planned and not running yet.
pub struct Blueprint<C> {
    /// The composables by their IDs.
    pub children: Vec<(String, C)>,
    /// What the composition exports and imports.
    pub ty: ComposableType,
    /// Who provides each export.
    pub providers: Vec<(String, String)>,
    /// The imports that the children provide to each other.
    pub resolved_imports: Vec<ResolvedImport>,
    /// The links to make, in order.
    pub links: Vec<LinkStep>,
    /// What composing comes to once all the links are made: an error if there is
    /// a further one that cannot be made.
    pub outcome: Result<(), CompositionError>,
}

/// The number of leading imports that are not provided by the importer itself.
pub open spec fn linkable(imports: Seq<ImportView>) -> nat
    decreases imports.len(),
{
    if imports.len() == 0 {
        0
    } else {
        let before = linkable(imports.drop_last());
        if before < imports.len() - 1 || imports.last().importer_id == imports.last().exporter_id {
            before
        } else {
            before + 1
        }
    }
}

/// What linking `imports` comes to: a composable cannot provide an import to
/// itself.
pub open spec fn linked(imports: Seq<ImportView>) -> Result<(), ErrorView> {
    if linkable(imports) == imports.len() {
        Ok(())
    } else {
        Err(
            ErrorView::LinkingError(
                "Exporter '"@ + imports[linkable(imports) as int].exporter_id + "' not found"@,
            ),
        )
    }
}

/// The step `step` makes the link `import` between children with these IDs.
pub open spec fn makes(step: LinkStep, import: ImportView, ids: Seq<Seq<char>>) -> bool {
    &&& step.importer < ids.len()
    &&& step.exporter < ids.len()
    &&& step.importer != step.exporter
    &&& ids[step.importer as int] == import.importer_id
    &&& ids[step.exporter as int] == import.exporter_id
    &&& step.interface@ == import.interface
}

/// `blueprint` is the plan for `descriptors` that fit together as `resolved`
/// says.
pub open spec fn planned_for<C: Composable>(
    blueprint: Blueprint<C>,
    descriptors: Seq<ComposableDescriptor<C>>,
    resolved: ResolutionView,
) -> bool {
    let views = descriptor_views(descriptors);
    &&& keys(blueprint.children@) == ids(views)
    &&& forall|i: int|
        0 <= i < descriptors.len() ==> (#[trigger] blueprint.children@[i]).1
            == descriptors[i].composable()
    &&& blueprint.ty@ == (TypeView {
        exports: exported(views),
        imports: resolved.imports.external,
    })
    &&& hint_views(blueprint.providers@) == resolved.providers
    &&& import_views(blueprint.resolved_imports@) == resolved.imports.resolved
    &&& blueprint.links@.len() == linkable(resolved.imports.resolved)
    &&& forall|i: int|
        0 <= i < blueprint.links@.len() ==> makes(
            #[trigger] blueprint.links@[i],
            resolved.imports.resolved[i],
            ids(views),
        )
    &&& outcome_view(blueprint.outcome) == linked(resolved.imports.resolved)
}

impl<C: Linkable> Blueprint<C> {
    /// The plan of a link between two children: what the exporter plans for the
    /// interface, if the importer accepts it.
    pub fn link_plan(&self, step: &LinkStep) -> (plan: LinkPlan)
        requires
            step.importer < self.children@.len(),
            step.exporter < self.children@.len(),
        ensures
            plan@ == import_plan(
                self.children@[step.importer as int].1.accepts_imports(),
                self.children@[step.exporter as int].1.plan_view(step.interface@),
            ),
    {
        let exported = self.children[step.exporter].1.link_export(step.interface.as_str());
        self.children[step.importer].1.link_import(exported)
    }
}

/// Plans the links for `imports` between `children`.
fn plan_links<C>(children: &Vec<(String, C)>, imports: &Vec<ResolvedImport>) -> (r: (
    Vec<LinkStep>,
    Result<(), CompositionError>,
))
    requires
        keys(children@).no_duplicates(),
        forall|i: int|
            0 <= i < imports@.len() ==> keys(children@).contains(
                (#[trigger] imports@[i]).importer_id@,
            ) && keys(children@).contains(imports@[i].exporter_id@),
    ensures
        r.0@.len() == linkable(import_views(imports@)),
        forall|i: int|
            0 <= i < r.0@.len() ==> makes(
                #[trigger] r.0@[i],
                import_views(imports@)[i],
                keys(children@),
            ),
        outcome_view(r.1) == linked(import_views(imports@)),
{
    let ghost all = import_views(imports@);
    let mut links: Vec<LinkStep> = Vec::new();
    let mut i: usize = 0;
    assert(all.take(0) =~= Seq::empty());
    while i < imports.len()
        invariant
            i <= imports@.len(),
            all == import_views(imports@),
            forall|j: int|
                0 <= j < imports@.len() ==> keys(children@).contains(
                    (#[trigger] imports@[j]).importer_id@,
                ) && keys(children@).contains(imports@[j].exporter_id@),
            links@.len() == i,
            linkable(all.take(i as int)) == i,
            forall|j: int|
                0 <= j < i ==> makes(#[trigger] links@[j], all[j], keys(children@)),
        decreases imports.len() - i,
    {
        assert(all.take(i + 1).drop_last() =~= all.take(i as int));
        assert(all[i as int] == imports@[i as int]@);
        proof {
            lemma_position(keys(children@), imports@[i as int].importer_id@);
            lemma_position(keys(children@), imports@[i as int].exporter_id@);
        }
        if imports[i].importer_id == imports[i].exporter_id {
            let error = CompositionError::LinkingError(
                message("Exporter '", imports[i].exporter_id.as_str(), "' not found"),
            );
            proof {
                lemma_linkable_ends(all, i + 1);
            }
            return (links, Err(error));
        }
        let importer = find(children, imports[i].importer_id.as_str());
        let exporter = find(children, imports[i].exporter_id.as_str());
        if let (Some(importer), Some(exporter)) = (importer, exporter) {
            links.push(LinkStep { importer, exporter, interface: imports[i].interface.clone() });
        }
        i = i + 1;
    }
    assert(all.take(all.len() as int) =~= all);
    (links, Ok(()))
}

/// Linking ends at the first link that cannot be made.
proof fn lemma_linkable_ends(imports: Seq<ImportView>, n: int)
    requires
        0 < n <= imports.len(),
        linkable(imports.take(n)) == n - 1,
    ensures
        linkable(imports) == n - 1,
    decreases imports.len(),
{
    if n < imports.len() {
        assert(imports.drop_last().take(n) =~= imports.take(n));
        lemma_linkable_ends(imports.drop_last(), n);
    } else {
        assert(imports.take(n) =~= imports);
    }
}

/// Splits descriptors into IDs and composables.
fn into_children<C: Composable>(descriptors: Vec<ComposableDescriptor<C>>) -> (children: Vec<
    (String, C),
>)
    ensures
        keys(children@) == ids(descriptor_views(descriptors@)),
        forall|i: int|
            0 <= i < descriptors@.len() ==> (#[trigger] children@[i]).1
                == descriptors@[i].composable(),
{
    let ghost all = descriptors@;
    let mut children: Vec<(String, C)> = Vec::new();
    for descriptor in iter: descriptors
        invariant
            iter.seq() == all,
            children@.len() == iter.index(),
            forall|j: int|
                0 <= j < iter.index() ==> (#[trigger] children@[j]).0@ == all[j]@.id
                    && children@[j].1 == all[j].composable(),
    {
        children.push(descriptor.into_child());
    }
    assert(keys(children@) =~= ids(descriptor_views(descriptors@)));
    children
}

/// Plans the composition of `descriptors`.
fn plan<C: Composable>(descriptors: Vec<ComposableDescriptor<C>>, export_hints: &HintMap) -> (r:
    Result<Blueprint<C>, CompositionError>)
    ensures
        match (r, resolution(descriptor_views(descriptors@), export_hints@)) {
            (Ok(blueprint), Ok(resolved)) => planned_for(blueprint, descriptors@, resolved),
            (Err(e), Err(error)) => e@ == error,
            _ => false,
        },
{
    let resolved = match resolve(&descriptors, export_hints) {
        Ok(resolved) => resolved,
        Err(e) => return Err(e),
    };
    let ghost views = descriptor_views(descriptors@);
    let children = into_children(descriptors);
    proof {
        lemma_distinct(ids(views));
        assert forall|i: int| 0 <= i < resolved.resolved_imports@.len() implies keys(
            children@,
        ).contains((#[trigger] resolved.resolved_imports@[i]).importer_id@) && keys(
            children@,
        ).contains(resolved.resolved_imports@[i].exporter_id@) by {
            only_imports_are_resolved(views, export_hints@, i, Seq::empty());
            let link = import_views(resolved.resolved_imports@)[i];
            assert(link == resolved.resolved_imports@[i]@);
            let a = choose|a: int|
                0 <= a < views.len() && (#[trigger] views[a]).id == link.importer_id
                    && views[a].ty.imports.contains(link.interface);
            assert(ids(views)[a] == link.importer_id);
            let b = choose|b: int|
                0 <= b < views.len() && exports_as(
                    #[trigger] views[b],
                    link.exporter_id,
                    link.interface,
                );
            assert(ids(views)[b] == link.exporter_id);
        }
    }
    let (links, outcome) = plan_links(&children, &resolved.resolved_imports);
    Ok(
        Blueprint {
            children,
            ty: ComposableType::new(resolved.exports, resolved.external_imports),
            providers: resolved.providers,
            resolved_imports: resolved.resolved_imports,
            links,
            outcome,
        },
    )
}

/// Builder for creating a composition of running composables.
pub struct Composer<C> {
    descriptors: Vec<ComposableDescriptor<C>>,
    export_hints: HintMap,
}

impl<C: Composable> Composer<C> {
    /// What has been added, in order.
    pub closed spec fn descriptors(self) -> Seq<ComposableDescriptor<C>> {
        self.descriptors@
    }

    /// The export hints.
    pub closed spec fn export_hints(self) -> Seq<(Seq<char>, Seq<char>)> {
        self.export_hints@
    }

    /// Nothing added yet.
    pub fn new() -> (composer: Self)
        ensures
            composer.descriptors() == Seq::<ComposableDescriptor<C>>::empty(),
            composer.export_hints() == Seq::<(Seq<char>, Seq<char>)>::empty(),
    {
        Composer { descriptors: Vec::new(), export_hints: HintMap::new() }
    }

    /// Add a composable descriptor.
    pub fn add(&mut self, descriptor: ComposableDescriptor<C>) -> (composer: &mut Self)
        ensures
            composer.descriptors() == old(self).descriptors().push(descriptor),
            composer.export_hints() == old(self).export_hints(),
            *final(self) == *final(composer),
    {
        self.descriptors.push(descriptor);
        self
    }

    /// Add an export hint: when multiple children export the same interface,
    /// this hint selects which child provides it for the composition's public exports.
    pub fn with_export_hint(&mut self, export_name: String, provider_id: String) -> (composer:
        &mut Self)
        ensures
            composer.descriptors() == old(self).descriptors(),
            composer.export_hints() == with_hint(
                old(self).export_hints(),
                export_name@,
                provider_id@,
            ),
            *final(self) == *final(composer),
    {
        self.export_hints.insert(export_name, provider_id);
        self
    }

    /// Compose all children: resolve imports and plan the links between them.
    pub fn compose(self) -> (r: Result<Blueprint<C>, CompositionError>)
        ensures
            match (r, resolution(descriptor_views(self.descriptors()), self.export_hints())) {
                (Ok(blueprint), Ok(resolved)) => planned_for(
                    blueprint,
                    self.descriptors(),
                    resolved,
                ),
                (Err(e), Err(error)) => e@ == error,
                _ => false,
            },
    {
        plan(self.descriptors, &self.export_hints)
    }
}

impl<C: Composable> Default for Composer<C> {
    /// Nothing added yet.
    fn default() -> (composer: Self)
        ensures
            composer.descriptors() == Seq::<ComposableDescriptor<C>>::empty(),
            composer.export_hints() == Seq::<(Seq<char>, Seq<char>)>::empty(),
    {
        Composer::new()
    }
}

/// Builder for creating a composition without running it.
pub struct CompositionBuilder<C> {
    descriptors: Vec<ComposableDescriptor<C>>,
    export_hints: HintMap,
}

impl<C: Composable> CompositionBuilder<C> {
    /// What has been added, in order.
    pub closed spec fn descriptors(self) -> Seq<ComposableDescriptor<C>> {
        self.descriptors@
    }

    /// The export hints.
    pub closed spec fn export_hints(self) -> Seq<(Seq<char>, Seq<char>)> {
        self.export_hints@
    }

    /// Nothing added yet.
    pub fn new() -> (builder: Self)
        ensures
            builder.descriptors() == Seq::<ComposableDescriptor<C>>::empty(),
            builder.export_hints() == Seq::<(Seq<char>, Seq<char>)>::empty(),
    {
        CompositionBuilder { descriptors: Vec::new(), export_hints: HintMap::new() }
    }

    /// Add a composable descriptor.
    pub fn add(&mut self, descriptor: ComposableDescriptor<C>) -> (builder: &mut Self)
        ensures
            builder.descriptors() == old(self).descriptors().push(descriptor),
            builder.export_hints() == old(self).export_hints(),
            *final(self) == *final(builder),
    {
        self.descriptors.push(descriptor);
        self
    }

    /// Add an export hint: when multiple children export the same interface,
    /// this hint selects which child provides it for the composition's public exports.
    pub fn with_export_hint(&mut self, export_name: String, provider_id: String) -> (builder:
        &mut Self)
        ensures
            builder.descriptors() == old(self).descriptors(),
            builder.export_hints() == with_hint(
                old(self).export_hints(),
                export_name@,
                provider_id@,
            ),
            *final(self) == *final(builder),
    {
        self.export_hints.insert(export_name, provider_id);
        self
    }

    /// Build the composition, resolving all internal links.
    pub fn build(self) -> (r: Result<Blueprint<C>, CompositionError>)
        ensures
            match (r, resolution(descriptor_views(self.descriptors()), self.export_hints())) {
                (Ok(blueprint), Ok(resolved)) => planned_for(
                    blueprint,
                    self.descriptors(),
                    resolved,
                ),
                (Err(e), Err(error)) => e@ == error,
                _ => false,
            },
    {
        plan(self.descriptors, &self.export_hints)
    }
}

impl<C: Composable> Default for CompositionBuilder<C> {
    /// Nothing added yet.
    fn default() -> (builder: Self)
        ensures
            builder.descriptors() == Seq::<ComposableDescriptor<C>>::empty(),
            builder.export_hints() == Seq::<(Seq<char>, Seq<char>)>::empty(),
    {
        CompositionBuilder::new()
    }
}

} // verus!
