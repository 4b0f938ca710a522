//! What an importer's linker knows of the resource types registered with it.

use vstd::prelude::*;
use wasmtime::component::{ComponentExportIndex, ResourceType};

use crate::link::{LinkOp, OpView};
use crate::mapper::{ContextView, LinkContext, ResourceMap};
use crate::wasm::{host_dynamic, host_type};

verus! {

/// A definition to make in the importer's linker.
pub enum Registration {
    /// A function, with everything that its calls need.
    Func { name: String, index: ComponentExportIndex, concurrent: bool, ctx: LinkContext },
    /// The resource type `host`, which stands for the exporter's `ty` and is
    /// known by the number `ty_id`.
    Resource { name: String, ty: ResourceType, ty_id: u32, host: ResourceType },
    /// The nested instance in which the definitions that follow belong.
    Enter { name: String },
    /// The end of that instance.
    Leave,
}

/// The mathematical view of a [`Registration`].
pub enum RegistrationView {
    Func { name: Seq<char>, index: ComponentExportIndex, concurrent: bool, ctx: ContextView },
    Resource { name: Seq<char>, ty: ResourceType, ty_id: u32, host: ResourceType },
    Enter { name: Seq<char> },
    Leave,
}

impl View for Registration {
    type V = RegistrationView;

    open spec fn view(&self) -> RegistrationView {
        match *self {
            Registration::Func { name, index, concurrent, ctx } => RegistrationView::Func {
                name: name@,
                index,
                concurrent,
                ctx: ctx@,
            },
            Registration::Resource { name, ty, ty_id, host } => RegistrationView::Resource {
                name: name@,
                ty,
                ty_id,
                host,
            },
            Registration::Enter { name } => RegistrationView::Enter { name: name@ },
            Registration::Leave => RegistrationView::Leave,
        }
    }
}

/// Tracks the resource types that are registered with an importer's linker.
///
/// Each resource type gets a number of its own. A function that is registered
/// takes with it the resource types that its instance has registered so far, so
/// that the resource values in its parameters and results can be proxied.
pub struct ComposableLinker {
    /// The resource types registered in the instances around, the innermost last.
    levels: Vec<ResourceMap>,
    /// The number that the next resource type gets.
    next_ty_id: u32,
}

/// The mathematical view of a [`ComposableLinker`].
#[verifier::ext_equal]
pub struct LinkerView {
    pub levels: Seq<Seq<(ResourceType, u32)>>,
    pub next_ty_id: u32,
}

/// The resource types of each level.
pub open spec fn level_views(levels: Seq<ResourceMap>) -> Seq<Seq<(ResourceType, u32)>> {
    levels.map_values(|level: ResourceMap| level@)
}

impl View for ComposableLinker {
    type V = LinkerView;

    closed spec fn view(&self) -> LinkerView {
        LinkerView { levels: level_views(self.levels@), next_ty_id: self.next_ty_id }
    }
}

/// A linker with which nothing is registered.
pub open spec fn fresh_linker() -> LinkerView {
    LinkerView { levels: seq![Seq::empty()], next_ty_id: 0 }
}

/// The number after `id`; they wrap around.
pub open spec fn next_id(id: u32) -> u32 {
    if id == u32::MAX {
        0
    } else {
        (id + 1) as u32
    }
}

/// What is to be registered for `op` with the linker `state`.
pub open spec fn registration(state: LinkerView, op: OpView) -> RegistrationView {
    match op {
        OpView::Func { name, index, concurrent, ctx } => RegistrationView::Func {
            name,
            index,
            concurrent,
            ctx: ContextView { resource: ctx.resource, resource_map: Some(state.levels.last()) },
        },
        OpView::Resource { name, ty } => RegistrationView::Resource {
            name,
            ty,
            ty_id: state.next_ty_id,
            host: host_type(state.next_ty_id),
        },
        OpView::Enter { name } => RegistrationView::Enter { name },
        OpView::Leave => RegistrationView::Leave,
    }
}

/// The linker `state` once a number is set aside for `op`: whether or not the
/// registration succeeds, a resource type uses one up.
pub open spec fn numbered(state: LinkerView, op: OpView) -> LinkerView {
    match op {
        OpView::Resource { .. } => LinkerView {
            levels: state.levels,
            next_ty_id: next_id(state.next_ty_id),
        },
        _ => state,
    }
}

/// The linker `state` once a registration has failed: back in the outermost instance.
pub open spec fn abandoned(state: LinkerView) -> LinkerView {
    LinkerView { levels: seq![state.levels[0]], next_ty_id: state.next_ty_id }
}

/// The linker `state` once `made` is registered.
pub open spec fn recorded(state: LinkerView, made: RegistrationView) -> LinkerView {
    match made {
        RegistrationView::Func { .. } => state,
        RegistrationView::Resource { ty, ty_id, .. } => LinkerView {
            levels: state.levels.drop_last().push(state.levels.last().push((ty, ty_id))),
            next_ty_id: state.next_ty_id,
        },
        RegistrationView::Enter { .. } => LinkerView {
            levels: state.levels.push(Seq::empty()),
            next_ty_id: state.next_ty_id,
        },
        RegistrationView::Leave => LinkerView {
            levels: if state.levels.len() > 1 {
                state.levels.drop_last()
            } else {
                state.levels
            },
            next_ty_id: state.next_ty_id,
        },
    }
}

impl ComposableLinker {
    #[verifier::type_invariant]
    spec fn inv(self) -> bool {
        self.levels@.len() >= 1
    }

    /// A linker with which nothing is registered.
    pub fn new() -> (linker: Self)
        ensures
            linker@ == fresh_linker(),
    {
        let mut levels: Vec<ResourceMap> = Vec::new();
        levels.push(Vec::new());
        assert(level_views(levels@) =~= fresh_linker().levels) by {
            assert(levels@[0]@ =~= Seq::<(ResourceType, u32)>::empty());
        }
        ComposableLinker { levels, next_ty_id: 0 }
    }

    /// What to register for the step `op`.
    ///
    /// The registration is recorded with [`ComposableLinker::record`] once it has
    /// succeeded.
    pub fn prepare(&mut self, op: LinkOp) -> (made: Registration)
        ensures
            made@ == registration(old(self)@, op@),
            final(self)@ == numbered(old(self)@, op@),
    {
        proof {
            use_type_invariant(&*self);
        }
        match op {
            LinkOp::Func { name, index, concurrent, ctx } => {
                let map = copy_map(&self.levels[self.levels.len() - 1]);
                let ctx = LinkContext { resource: ctx.resource, resource_map: Some(map) };
                Registration::Func { name, index, concurrent, ctx }
            },
            LinkOp::Resource { name, ty } => {
                let ty_id: u32 = self.next_ty_id;
                self.next_ty_id =
                if ty_id == u32::MAX {
                    0
                } else {
                    ty_id + 1
                };
                Registration::Resource { name, ty, ty_id, host: host_dynamic(ty_id) }
            },
            LinkOp::Enter { name } => Registration::Enter { name },
            LinkOp::Leave => Registration::Leave,
        }
    }

    /// Takes note that `made` has been registered.
    pub fn record(&mut self, made: &Registration)
        ensures
            final(self)@ == recorded(old(self)@, made@),
    {
        proof {
            use_type_invariant(&*self);
        }
        let ghost before = self@;
        let mut levels: Vec<ResourceMap> = vec![Vec::new()];
        std::mem::swap(&mut levels, &mut self.levels);
        match made {
            Registration::Func { .. } => {},
            Registration::Resource { ty, ty_id, .. } => {
                if let Some(mut map) = levels.pop() {
                    map.push((*ty, *ty_id));
                    levels.push(map);
                }
            },
            Registration::Enter { .. } => {
                levels.push(Vec::new());
            },
            Registration::Leave => {
                if levels.len() > 1 {
                    levels.pop();
                }
            },
        }
        assert(level_views(levels@) =~= recorded(before, made@).levels);
        self.levels = levels;
    }

    /// Goes back to the outermost instance, after a registration has failed.
    pub fn abandon(&mut self)
        ensures
            final(self)@ == abandoned(old(self)@),
    {
        proof {
            use_type_invariant(&*self);
        }
        let ghost before = self@;
        let mut levels: Vec<ResourceMap> = vec![Vec::new()];
        std::mem::swap(&mut levels, &mut self.levels);
        levels.truncate(1);
        assert(level_views(levels@) =~= seq![before.levels[0]]);
        self.levels = levels;
    }
}

/// Copies a resource map.
fn copy_map(map: &ResourceMap) -> (r: ResourceMap)
    ensures
        r@ == map@,
{
    let mut copied: ResourceMap = Vec::new();
    let mut i: usize = 0;
    while i < map.len()
        invariant
            i <= map@.len(),
            copied@ == map@.take(i as int),
        decreases map.len() - i,
    {
        copied.push((map[i].0, map[i].1));
        i = i + 1;
        assert(copied@ =~= map@.take(i as int));
    }
    assert(copied@ =~= map@);
    copied
}

} // verus!
