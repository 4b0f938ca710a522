//! Finding the functions and exports of a running composition.

use vstd::prelude::*;
use wasmtime::component::Component;

use crate::composable::{
    refuse_import, Composable, ComposableComponent, ComposableInstance, Linkable,
};
use crate::descriptor::DescriptorView;
use crate::error::{CompositionError, ErrorView};
use crate::hints::{hint_for, hint_views};
use crate::instance::{
    core_of, export_plan, not_exported, refuse_export, target_of, ComposableInstanceCore,
    CoreView, FuncTarget,
};
use crate::interface::{import_views, ComposableType, ImportView, ResolvedImport, TypeView};
use crate::link::{failure, LinkPlan, OpView, PlanView};
use crate::names::{find, keys, lemma_position, position};
use crate::resolution::{
    every_export_has_a_provider, exports_as, is_exported, lemma_distinct,
};
use crate::resolve::{exported, ids, resolution};
use crate::wasm::{entry_names, exports_of};

verus! {

/// A finalized, running composition — the runtime API.
///
/// It is a running component, of which `H` is the handle, or a group of such
/// compositions that provide its exports. It is a [`Composable`], so it can be
/// nested inside another one.
pub struct Composition<H> {
    node: Node<H>,
    ty: ComposableType,
    resolved_imports: Vec<ResolvedImport>,
}

/// What a composition is made of.
pub enum Node<H> {
    /// A running component.
    Instance { core: ComposableInstanceCore, handle: H },
    /// Compositions by ID, and who of them provides each export.
    Group { children: Vec<(String, Composition<H>)>, providers: Vec<(String, String)> },
}

/// The mathematical view of what a composition is made of, and of which exports it
/// offers.
pub enum NodeTree<H> {
    Instance { core: CoreView, handle: H, exports: Seq<Seq<char>> },
    Group {
        children: Seq<(Seq<char>, NodeTree<H>)>,
        providers: Seq<(Seq<char>, Seq<char>)>,
        exports: Seq<Seq<char>>,
    },
}

/// The exports that a composition offers.
pub open spec fn offered<H>(tree: NodeTree<H>) -> Seq<Seq<char>> {
    match tree {
        NodeTree::Instance { exports, .. } => exports,
        NodeTree::Group { exports, .. } => exports,
    }
}

/// The same composition, offering `exports`.
pub open spec fn offering<H>(tree: NodeTree<H>, exports: Seq<Seq<char>>) -> NodeTree<H> {
    match tree {
        NodeTree::Instance { core, handle, .. } => NodeTree::Instance { core, handle, exports },
        NodeTree::Group { children, providers, .. } => NodeTree::Group {
            children,
            providers,
            exports,
        },
    }
}

/// The views of the children of a group.
pub open spec fn child_trees<H>(children: Seq<(String, Composition<H>)>) -> Seq<
    (Seq<char>, NodeTree<H>),
>
    decreases children,
{
    Seq::new(
        children.len(),
        |i: int|
            if 0 <= i < children.len() {
                (children[i].0@, children[i].1.tree())
            } else {
                arbitrary()
            },
    )
}

impl<H> Composition<H> {
    /// What the composition is made of.
    pub closed spec fn tree(self) -> NodeTree<H>
        decreases self,
    {
        match self.node {
            Node::Instance { core, handle } => NodeTree::Instance {
                core: core@,
                handle,
                exports: self.ty@.exports,
            },
            Node::Group { children, providers } => NodeTree::Group {
                children: child_trees(children@),
                providers: hint_views(providers@),
                exports: self.ty@.exports,
            },
        }
    }
}

/// The export in which the function `func` is found: the instance `interface`, or
/// the function itself.
pub open spec fn export_with(interface: Option<Seq<char>>, func: Seq<char>) -> Seq<char> {
    match interface {
        Some(interface) => interface,
        None => func,
    }
}

/// Where the exported function `func` is found, in the exported instance
/// `interface` or by itself, and the handle of the component that has it. A group
/// asks the child that provides the instance, or the function. What is not offered
/// is not found.
pub open spec fn func_of<H>(
    tree: NodeTree<H>,
    interface: Option<Seq<char>>,
    func: Seq<char>,
) -> Option<(FuncTarget, H)>
    decreases tree,
{
    if !offered(tree).contains(export_with(interface, func)) {
        None
    } else {
        match tree {
            NodeTree::Instance { core, handle, .. } => match target_of(
                core.component,
                core.exports,
                interface,
                func,
            ) {
                Some(target) => Some((target, handle)),
                None => None,
            },
            NodeTree::Group { children, providers, .. } => match hint_for(
                providers,
                export_with(interface, func),
            ) {
                Some(id) => match position(entry_names(children), id) {
                    Some(i) => if 0 <= i < children.len() {
                        func_of(children[i].1, interface, func)
                    } else {
                        None
                    },
                    None => None,
                },
                None => None,
            },
        }
    }
}

/// How the export `name` is linked, and the handle of the component that has it.
/// A group asks the child that provides the export. What is not offered is not
/// linked.
pub open spec fn export_of<H>(tree: NodeTree<H>, name: Seq<char>) -> Option<(PlanView, H)>
    decreases tree,
{
    match tree {
        NodeTree::Instance { core, handle, exports } => Some(
            (
                if exports.contains(name) {
                    export_plan(core.component, core.exports, name)
                } else {
                    not_exported(name)
                },
                handle,
            ),
        ),
        NodeTree::Group { children, providers, exports } => if !exports.contains(name) {
            None
        } else {
            match hint_for(providers, name) {
                Some(id) => match position(entry_names(children), id) {
                    Some(i) => if 0 <= i < children.len() {
                        export_of(children[i].1, name)
                    } else {
                        None
                    },
                    None => None,
                },
                None => None,
            }
        },
    }
}

impl<H> Composition<H> {
    /// The type signature.
    pub closed spec fn type_of(self) -> TypeView {
        self.ty@
    }

    /// The imports that the children provide to each other.
    pub closed spec fn links(self) -> Seq<ImportView> {
        import_views(self.resolved_imports@)
    }

    /// The composition of `children`, of which `providers` tells who provides each
    /// export.
    pub fn new(
        children: Vec<(String, Composition<H>)>,
        providers: Vec<(String, String)>,
        ty: ComposableType,
        resolved_imports: Vec<ResolvedImport>,
    ) -> (composition: Self)
        ensures
            composition.tree() == (NodeTree::Group {
                children: child_trees(children@),
                providers: hint_views(providers@),
                exports: ty@.exports,
            }),
            composition.type_of() == ty@,
            composition.links() == import_views(resolved_imports@),
    {
        Composition { node: Node::Group { children, providers }, ty, resolved_imports }
    }

    /// Resolve an exported function: where it is found in its component, and the
    /// handle of that component.
    pub fn get_func(&self, interface: Option<&str>, func: &str) -> (found: Result<
        (FuncTarget, &H),
        CompositionError,
    >)
        ensures
            match func_of(
                self.tree(),
                match interface {
                    Some(interface) => Some(interface@),
                    None => None,
                },
                func@,
            ) {
                Some((target, handle)) => found == Ok::<(FuncTarget, &H), CompositionError>(
                    (target, &handle),
                ),
                None => found == Err::<(FuncTarget, &H), CompositionError>(
                    CompositionError::FuncNotFound,
                ),
            },
            !self.type_of().exports.contains(
                match interface {
                    Some(interface) => interface@,
                    None => func@,
                },
            ) ==> found == Err::<(FuncTarget, &H), CompositionError>(
                CompositionError::FuncNotFound,
            ),
        decreases self,
    {
        let name = match interface {
            Some(interface) => interface,
            None => func,
        };
        if !self.ty.exports().contains(name) {
            return Err(CompositionError::FuncNotFound);
        }
        match &self.node {
            Node::Instance { core, handle } => match core.get_func(interface, func) {
                Ok(target) => Ok((target, handle)),
                Err(e) => Err(e),
            },
            Node::Group { children, providers } => match find_child(children, providers, name) {
                Some(i) => {
                    assert(decreases_to!(self => children@[i as int].1));
                    children[i].1.get_func(interface, func)
                },
                None => Err(CompositionError::FuncNotFound),
            },
        }
    }

    /// Plans how a single export is linked, and tells the handle of the component
    /// that has it.
    pub fn route_export(&self, name: &str) -> (found: Result<(LinkPlan, &H), CompositionError>)
        ensures
            match (found, export_of(self.tree(), name@)) {
                (Ok((plan, handle)), Some((view, of))) => plan@ == view && *handle == of,
                (Err(e), None) => e == CompositionError::FuncNotFound,
                _ => false,
            },
        decreases self,
    {
        match &self.node {
            Node::Instance { core, handle } => if self.ty.exports().contains(name) {
                Ok((core.link_export(name), handle))
            } else {
                Ok((refuse_export(name), handle))
            },
            Node::Group { children, providers } => {
                if !self.ty.exports().contains(name) {
                    return Err(CompositionError::FuncNotFound);
                }
                match find_child(children, providers, name) {
                    Some(i) => {
                        assert(decreases_to!(self => children@[i as int].1));
                        children[i].1.route_export(name)
                    },
                    None => Err(CompositionError::FuncNotFound),
                }
            },
        }
    }

    /// Imports resolved internally during composition.
    pub fn resolved_imports(&self) -> (links: &Vec<ResolvedImport>)
        ensures
            import_views(links@) == self.links(),
    {
        &self.resolved_imports
    }

    /// Replace the type signature (for a composable whose exports are filtered):
    /// what the new one does not export is no longer found or linked.
    pub fn with_ty(self, ty: ComposableType) -> (composition: Self)
        ensures
            composition.tree() == offering(self.tree(), ty@.exports),
            composition.links() == self.links(),
            composition.type_of() == ty@,
    {
        Composition { node: self.node, ty, resolved_imports: self.resolved_imports }
    }
}

/// Finds the child that provides the export `name`.
fn find_child<H>(
    children: &Vec<(String, Composition<H>)>,
    providers: &Vec<(String, String)>,
    name: &str,
) -> (found: Option<usize>)
    ensures
        match found {
            Some(i) => i < children@.len() && hint_for(hint_views(providers@), name@) is Some
                && position(
                entry_names(child_trees(children@)),
                hint_for(hint_views(providers@), name@)->0,
            ) == Some(i as int),
            None => match hint_for(hint_views(providers@), name@) {
                Some(id) => position(entry_names(child_trees(children@)), id) is None,
                None => true,
            },
        },
{
    proof {
        assert(keys(children@) =~= entry_names(child_trees(children@)));
        assert(keys(providers@) =~= entry_names(hint_views(providers@)));
    }
    match find(providers, name) {
        Some(p) => find(children, providers[p].1.as_str()),
        None => None,
    }
}

impl ComposableInstanceCore {
    /// The composition of this component alone, which runs under `handle`.
    pub fn into_composition<H>(self, handle: H) -> (composition: Composition<H>)
        ensures
            composition.tree() == (NodeTree::Instance {
                core: self@,
                handle,
                exports: self@.ty.exports,
            }),
            composition.type_of() == self@.ty,
            composition.links() == Seq::<ImportView>::empty(),
    {
        let ty = self.ty().clone();
        let resolved_imports: Vec<ResolvedImport> = Vec::new();
        assert(import_views(resolved_imports@) =~= Seq::empty());
        Composition { node: Node::Instance { core: self, handle }, ty, resolved_imports }
    }
}

impl ComposableInstance {
    /// The composition of this component alone, which runs under `handle`. It keeps
    /// the reported type: all imports are already satisfied.
    pub fn into_composition<H>(self, handle: H) -> (composition: Composition<H>)
        ensures
            composition.tree() == (NodeTree::Instance {
                core: self@,
                handle,
                exports: self@.ty.exports,
            }),
            composition.type_of() == self.type_view(),
            composition.type_of().imports == Seq::<Seq<char>>::empty(),
            composition.links() == Seq::<ImportView>::empty(),
    {
        let ty = self.ty().clone();
        self.into_core().into_composition(handle).with_ty(ty)
    }
}

impl ComposableComponent {
    /// The composition of this component alone, which runs under `handle`.
    pub fn into_composition<H>(self, handle: H) -> (composition: Composition<H>)
        ensures
            composition.tree() == (NodeTree::Instance {
                core: self@,
                handle,
                exports: self@.ty.exports,
            }),
            composition.type_of() == self.type_view(),
            composition.links() == Seq::<ImportView>::empty(),
    {
        self.into_core().into_composition(handle)
    }
}

impl<H> Composable for Composition<H> {
    open spec fn type_view(&self) -> TypeView {
        self.type_of()
    }

    fn ty(&self) -> (ty: &ComposableType) {
        &self.ty
    }
}

impl<H> Linkable for Composition<H> {
    open spec fn plan_view(&self, name: Seq<char>) -> PlanView {
        match export_of(self.tree(), name) {
            Some((plan, _)) => plan,
            None => failure(ErrorView::FuncNotFound),
        }
    }

    open spec fn accepts_imports(&self) -> bool {
        false
    }

    fn link_export(&self, name: &str) -> (plan: LinkPlan) {
        match self.route_export(name) {
            Ok((plan, _)) => plan,
            Err(e) => {
                let plan = LinkPlan { ops: Vec::new(), outcome: Err(e) };
                assert(plan@.ops =~= Seq::empty());
                plan
            },
        }
    }

    fn link_import(&self, exported: LinkPlan) -> (plan: LinkPlan) {
        refuse_import()
    }
}

/// A composition offers what its type signature exports, and reports that signature.
pub proof fn a_composition_offers_its_exports<H>(composition: Composition<H>)
    ensures
        offered(composition.tree()) == composition.type_of().exports,
        composition.type_view() == composition.type_of(),
{
}

/// What a composition does not offer can neither be called nor linked: linking it
/// fails before anything is registered.
pub proof fn exports_not_offered_are_out_of_reach<H>(
    composition: Composition<H>,
    name: Seq<char>,
    func: Seq<char>,
)
    requires
        !composition.type_of().exports.contains(name),
    ensures
        func_of(composition.tree(), Some(name), func) is None,
        func_of(composition.tree(), None, name) is None,
        composition.plan_view(name).ops == Seq::<OpView>::empty(),
        composition.plan_view(name).outcome is Err,
{
}

/// Filtering takes nothing else away: what a composition still offers is found and
/// linked as before.
pub proof fn exports_that_are_kept_stay_in_reach<H>(
    tree: NodeTree<H>,
    exports: Seq<Seq<char>>,
    name: Seq<char>,
    func: Seq<char>,
)
    requires
        exports.contains(name),
        offered(tree).contains(name),
    ensures
        func_of(offering(tree, exports), Some(name), func) == func_of(tree, Some(name), func),
        func_of(offering(tree, exports), None, name) == func_of(tree, None, name),
        export_of(offering(tree, exports), name) == export_of(tree, name),
{
}

/// A component whose exports are not filtered offers all of them.
pub proof fn an_unfiltered_component_offers_all<H>(
    component: Component,
    core: CoreView,
    handle: H,
    interface: Option<Seq<char>>,
    func: Seq<char>,
    name: Seq<char>,
)
    requires
        core_of(component, core),
    ensures
        ({
            let tree = NodeTree::Instance { core, handle, exports: core.ty.exports };
            &&& func_of(tree, interface, func) == match target_of(
                component,
                core.exports,
                interface,
                func,
            ) {
                Some(target) => Some((target, handle)),
                None => None,
            }
            &&& export_of(tree, name) == Some(
                (export_plan(component, core.exports, name), handle),
            )
        }),
{
    assert(entry_names(core.exports) =~= entry_names(exports_of(component)));
    lemma_position(entry_names(core.exports), export_with(interface, func));
    lemma_position(entry_names(core.exports), name);
}

/// Each export of a composition is that of the child that provides it: the child
/// is one that exports it, and looking it up in the composition is looking it up
/// in that child.
pub proof fn exports_are_those_of_their_provider<H>(
    descriptors: Seq<DescriptorView>,
    export_hints: Seq<(Seq<char>, Seq<char>)>,
    children: Seq<(Seq<char>, NodeTree<H>)>,
    name: Seq<char>,
    func: Seq<char>,
)
    requires
        resolution(descriptors, export_hints) is Ok,
        entry_names(children) == ids(descriptors),
        is_exported(descriptors, name),
    ensures
        ({
            let providers = resolution(descriptors, export_hints)->Ok_0.providers;
            let group = NodeTree::Group { children, providers, exports: exported(descriptors) };
            exists|i: int|
                #![trigger children[i]]
                0 <= i < children.len() && descriptors[i].ty.exports.contains(name) && export_of(
                    group,
                    name,
                ) == export_of(children[i].1, name) && func_of(group, Some(name), func) == func_of(
                    children[i].1,
                    Some(name),
                    func,
                ) && func_of(group, None, name) == func_of(children[i].1, None, name)
        }),
{
    every_export_has_a_provider(descriptors, export_hints, name);
    let providers = resolution(descriptors, export_hints)->Ok_0.providers;
    let id = hint_for(providers, name)->0;
    let j = choose|j: int|
        0 <= j < descriptors.len() && exports_as(#[trigger] descriptors[j], id, name);
    assert(ids(descriptors)[j] == id);
    lemma_position(entry_names(children), id);
    lemma_distinct(ids(descriptors));
    let i = position(entry_names(children), id)->0;
    assert(ids(descriptors)[i] == ids(descriptors)[j]);
    assert(children[i] == children[j]);
}

/// What no composable exports, or what all that have it hide, cannot be reached
/// through the composition.
pub proof fn hidden_exports_are_not_found<H>(
    descriptors: Seq<DescriptorView>,
    export_hints: Seq<(Seq<char>, Seq<char>)>,
    children: Seq<(Seq<char>, NodeTree<H>)>,
    name: Seq<char>,
    func: Seq<char>,
)
    requires
        resolution(descriptors, export_hints) is Ok,
        !is_exported(descriptors, name),
    ensures
        ({
            let providers = resolution(descriptors, export_hints)->Ok_0.providers;
            let group = NodeTree::Group { children, providers, exports: exported(descriptors) };
            &&& export_of(group, name) is None
            &&& func_of(group, Some(name), func) is None
            &&& func_of(group, None, name) is None
        }),
{
    every_export_has_a_provider(descriptors, export_hints, name);
}

} // verus!
