//! Composables under their names in a composition.

use vstd::prelude::*;

use crate::composable::Composable;
use crate::hints::{with_hint, HintMap};
use crate::interface::TypeView;

verus! {

/// Descriptor wrapping a [`Composable`] with ID and import hints.
pub struct ComposableDescriptor<C> {
    pub(crate) id: String,
    pub(crate) inner: C,
    pub(crate) import_hints: HintMap,
}

/// What of a descriptor decides how it is composed.
pub struct DescriptorView {
    /// Its ID.
    pub id: Seq<char>,
    /// What the composable exports and imports.
    pub ty: TypeView,
    /// Its import hints.
    pub hints: Seq<(Seq<char>, Seq<char>)>,
}

impl<C: Composable> View for ComposableDescriptor<C> {
    type V = DescriptorView;

    closed spec fn view(&self) -> DescriptorView {
        DescriptorView {
            id: self.id@,
            ty: self.inner.type_view(),
            hints: self.import_hints@,
        }
    }
}

impl<C: Composable> ComposableDescriptor<C> {
    /// The composable.
    pub closed spec fn composable(self) -> C {
        self.inner
    }

    /// Create a new descriptor with the given ID.
    pub fn new(id: String, inner: C) -> (descriptor: Self)
        ensures
            descriptor@ == (DescriptorView {
                id: id@,
                ty: inner.type_view(),
                hints: Seq::empty(),
            }),
            descriptor.composable() == inner,
    {
        ComposableDescriptor { id, inner, import_hints: HintMap::new() }
    }

    /// Add an import hint: this import should be satisfied by `target_id`.
    pub fn with_import_hint(self, import: String, target_id: String) -> (descriptor: Self)
        ensures
            descriptor@ == (DescriptorView {
                hints: with_hint(self@.hints, import@, target_id@),
                ..self@
            }),
            descriptor.composable() == self.composable(),
    {
        let mut import_hints = self.import_hints;
        import_hints.insert(import, target_id);
        ComposableDescriptor { id: self.id, inner: self.inner, import_hints }
    }

    /// Set all import hints at once.
    pub fn with_import_hints(self, import_hints: HintMap) -> (descriptor: Self)
        ensures
            descriptor@ == (DescriptorView { hints: import_hints@, ..self@ }),
            descriptor.composable() == self.composable(),
    {
        ComposableDescriptor { id: self.id, inner: self.inner, import_hints }
    }

    /// The ID.
    pub fn id(&self) -> (id: &str)
        ensures
            id@ == self@.id,
    {
        self.id.as_str()
    }

    /// The import hints.
    pub fn import_hints(&self) -> (hints: &HintMap)
        ensures
            hints@ == self@.hints,
    {
        &self.import_hints
    }

    /// The composable.
    pub fn inner(&self) -> (inner: &C)
        ensures
            *inner == self.composable(),
            inner.type_view() == self@.ty,
    {
        &self.inner
    }

    /// The ID and the composable.
    pub fn into_child(self) -> (child: (String, C))
        ensures
            child.0@ == self@.id,
            child.1 == self.composable(),
    {
        (self.id, self.inner)
    }
}

/// The views of a list of descriptors.
pub open spec fn descriptor_views<C: Composable>(
    descriptors: Seq<ComposableDescriptor<C>>,
) -> Seq<DescriptorView> {
    descriptors.map_values(|descriptor: ComposableDescriptor<C>| descriptor@)
}

} // verus!
