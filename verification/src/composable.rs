//! Composable units, the composition-time API.

use vstd::prelude::*;
use wasmtime::component::Component;

use crate::error::{CompositionError, ErrorView};
use crate::instance::{core_of, export_plan, ComposableInstanceCore, CoreView};
use crate::interface::{ComposableType, InterfaceSet, TypeView};
use crate::link::{failure, LinkPlan, PlanView};

verus! {

/// A composable unit — the composition-time API.
///
/// Implemented by [`ComposableInstance`], [`ComposableComponent`],
/// [`Filtered`](crate::Filtered), [`Composition`](crate::Composition) (for nesting a
/// finalized composition) and [`Typed`] (for anything else with a type signature).
pub trait Composable {
    /// The type signature.
    spec fn type_view(&self) -> TypeView;

    /// Get the type signature (imports/exports) of this composable.
    fn ty(&self) -> (ty: &ComposableType)
        ensures
            ty@ == self.type_view(),
    ;
}

/// A composable whose exports and imports can be linked.
pub trait Linkable: Composable {
    /// The plan that links the export `name`.
    spec fn plan_view(&self, name: Seq<char>) -> PlanView;

    /// Whether imports can be linked into it.
    spec fn accepts_imports(&self) -> bool;

    /// Plans how a single export is linked into an importer's linker.
    fn link_export(&self, name: &str) -> (plan: LinkPlan)
        ensures
            plan@ == self.plan_view(name@),
    ;

    /// Links a single import, whose exporter has planned `exported`.
    ///
    /// Most composables do not accept import linking and refuse it.
    fn link_import(&self, exported: LinkPlan) -> (plan: LinkPlan)
        ensures
            plan@ == import_plan(self.accepts_imports(), exported@),
    ;
}

/// Anything, with the type signature that it has in a composition.
pub struct Typed<P> {
    /// What is composed.
    pub inner: P,
    /// What it exports and imports.
    pub ty: ComposableType,
}

impl<P> Composable for Typed<P> {
    open spec fn type_view(&self) -> TypeView {
        self.ty@
    }

    fn ty(&self) -> (ty: &ComposableType) {
        &self.ty
    }
}

/// The plan by which an import is linked: that of its exporter, if the importer
/// accepts imports.
pub open spec fn import_plan(accepts: bool, exported: PlanView) -> PlanView {
    if accepts {
        exported
    } else {
        failure(ErrorView::LinkingError("this composable does not accept import linking"@))
    }
}

/// The plan of a composable that does not accept import linking.
pub fn refuse_import() -> (plan: LinkPlan)
    ensures
        forall|exported: PlanView| plan@ == #[trigger] import_plan(false, exported),
{
    let plan = LinkPlan {
        ops: Vec::new(),
        outcome: Err(
            CompositionError::LinkingError(
                "this composable does not accept import linking".to_owned(),
            ),
        ),
    };
    assert(plan@.ops =~= Seq::empty());
    plan
}

/// A composable backed by an already-instantiated component.
///
/// All imports are already satisfied, so the reported type has no imports.
pub struct ComposableInstance {
    inner: ComposableInstanceCore,
    ty: ComposableType,
}

impl View for ComposableInstance {
    type V = CoreView;

    closed spec fn view(&self) -> CoreView {
        self.inner@
    }
}

impl ComposableInstance {
    #[verifier::type_invariant]
    spec fn inv(self) -> bool {
        self.ty@ == (TypeView { exports: self.inner@.ty.exports, imports: Seq::empty() })
    }

    /// Create from the component of an existing instance.
    pub fn from_existing(component: Component) -> (instance: Self)
        ensures
            core_of(component, instance@),
    {
        let inner = ComposableInstanceCore::new(component);
        let ty = ComposableType::new(inner.ty().exports().clone(), InterfaceSet::new());
        ComposableInstance { inner, ty }
    }

    /// The component with its exports.
    pub fn as_core(&self) -> (core: &ComposableInstanceCore)
        ensures
            core@ == self@,
    {
        &self.inner
    }

    /// The component with its exports, of which a running composition is made.
    pub fn into_core(self) -> (core: ComposableInstanceCore)
        ensures
            core@ == self@,
    {
        self.inner
    }
}

impl Composable for ComposableInstance {
    open spec fn type_view(&self) -> TypeView {
        TypeView { exports: self@.ty.exports, imports: Seq::empty() }
    }

    fn ty(&self) -> (ty: &ComposableType) {
        proof {
            use_type_invariant(self);
        }
        &self.ty
    }
}

impl Linkable for ComposableInstance {
    open spec fn plan_view(&self, name: Seq<char>) -> PlanView {
        export_plan(self@.component, self@.exports, name)
    }

    open spec fn accepts_imports(&self) -> bool {
        false
    }

    fn link_export(&self, name: &str) -> (plan: LinkPlan) {
        self.inner.link_export(name)
    }

    fn link_import(&self, exported: LinkPlan) -> (plan: LinkPlan) {
        refuse_import()
    }
}

/// A composable backed by a component that is not instantiated yet.
pub struct ComposableComponent {
    inner: ComposableInstanceCore,
}

impl View for ComposableComponent {
    type V = CoreView;

    closed spec fn view(&self) -> CoreView {
        self.inner@
    }
}

impl ComposableComponent {
    /// Create a new composable component.
    pub fn new(component: Component) -> (composable: Self)
        ensures
            core_of(component, composable@),
    {
        ComposableComponent { inner: ComposableInstanceCore::new(component) }
    }

    /// The component.
    pub fn component(&self) -> (component: &Component)
        ensures
            *component == self@.component,
    {
        self.inner.component()
    }

    /// The component with its exports, of which a running composition is made.
    pub fn into_core(self) -> (core: ComposableInstanceCore)
        ensures
            core@ == self@,
    {
        self.inner
    }
}

impl Composable for ComposableComponent {
    open spec fn type_view(&self) -> TypeView {
        self@.ty
    }

    fn ty(&self) -> (ty: &ComposableType) {
        self.inner.ty()
    }
}

impl Linkable for ComposableComponent {
    open spec fn plan_view(&self, name: Seq<char>) -> PlanView {
        export_plan(self@.component, self@.exports, name)
    }

    open spec fn accepts_imports(&self) -> bool {
        true
    }

    fn link_export(&self, name: &str) -> (plan: LinkPlan) {
        self.inner.link_export(name)
    }

    fn link_import(&self, exported: LinkPlan) -> (plan: LinkPlan) {
        exported
    }
}

} // verus!
