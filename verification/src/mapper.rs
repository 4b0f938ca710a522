//! Remapping the resource handles in the arguments and results of a function.

use vstd::prelude::*;
use wasmtime::component::{ResourceAny, ResourceType};

use crate::compile::{
    build_part_navigators, compile_parts, field_handles, lemma_parts_reach,
};
use crate::error::VisitError;
use crate::fitting::parts_fit_items;
use crate::navigator::{
    navigate_parts, navigated, part_leaves, part_trees, parts_fit, parts_well_formed, NavTree,
    ValNavigator,
};
use crate::value::{value_trees, Value, ValueTree};
use crate::value_type::{type_trees, TypeTree, ValueType};
use crate::visitor::{visited, ValVisitor};

verus! {

/// The type of a component function.
pub struct FuncSignature {
    /// Whether the function is declared `async`.
    pub is_async: bool,
    /// The types of the parameters, in order.
    pub params: Vec<ValueType>,
    /// The types of the results, in order.
    pub results: Vec<ValueType>,
}

/// The mathematical view of a [`FuncSignature`].
pub struct SignatureTree {
    pub is_async: bool,
    pub params: Seq<TypeTree>,
    pub results: Seq<TypeTree>,
}

impl View for FuncSignature {
    type V = SignatureTree;

    open spec fn view(&self) -> SignatureTree {
        SignatureTree {
            is_async: self.is_async,
            params: type_trees(self.params@),
            results: type_trees(self.results@),
        }
    }
}

/// A row of arguments or results, as one value.
pub open spec fn row(values: Seq<Value>) -> ValueTree {
    ValueTree::Tuple(value_trees(values))
}

/// Compiled navigators for the resource values in the parameters and results of
/// a function.
pub struct ValMapper {
    params: Vec<(usize, ValNavigator)>,
    results: Vec<(usize, ValNavigator)>,
}

/// The mathematical view of a [`ValMapper`]: the navigators of the parameters
/// and of the results that need one, by position.
pub struct MapperTree {
    pub params: Seq<(int, NavTree)>,
    pub results: Seq<(int, NavTree)>,
}

/// The mapper of a function of this type.
pub open spec fn mapper_of(signature: SignatureTree) -> MapperTree {
    MapperTree {
        params: compile_parts(signature.params),
        results: compile_parts(signature.results),
    }
}

impl View for ValMapper {
    type V = MapperTree;

    closed spec fn view(&self) -> MapperTree {
        MapperTree { params: part_trees(self.params@), results: part_trees(self.results@) }
    }
}

impl ValMapper {
    #[verifier::type_invariant]
    spec fn inv(self) -> bool {
        &&& parts_well_formed(part_trees(self.params@))
        &&& parts_well_formed(part_trees(self.results@))
    }

    /// A mapper that remaps nothing.
    pub fn noop() -> (mapper: Self)
        ensures
            mapper@.params.len() == 0,
            mapper@.results.len() == 0,
    {
        ValMapper { params: Vec::new(), results: Vec::new() }
    }

    /// Whether no parameter needs remapping, so that the arguments can be passed
    /// on as they are.
    pub fn leaves_params(&self) -> (r: bool)
        ensures
            r == (self@.params.len() == 0),
    {
        self.params.len() == 0
    }

    /// Whether no result needs remapping.
    pub fn leaves_results(&self) -> (r: bool)
        ensures
            r == (self@.results.len() == 0),
    {
        self.results.len() == 0
    }

    /// Whether the arguments have all the parts that this mapper goes to. Those of
    /// a call of its function have.
    pub fn accepts_params(&self, params: &Vec<Value>) -> (r: bool)
        ensures
            r == parts_fit(self@.params, row(params@)),
    {
        parts_fit_items(&self.params, params)
    }

    /// Whether the results have all the parts that this mapper goes to. Those of a
    /// call of its function have.
    pub fn accepts_results(&self, results: &Vec<Value>) -> (r: bool)
        ensures
            r == parts_fit(self@.results, row(results@)),
    {
        parts_fit_items(&self.results, results)
    }

    /// Shows every resource handle in the arguments to `visitor` and returns the
    /// arguments with the handles that it left, or its error.
    pub fn map_params<W: ValVisitor<ResourceAny>>(
        &self,
        params: Vec<Value>,
        visitor: &mut W,
    ) -> (r: Result<Vec<Value>, VisitError>)
        requires
            parts_fit(self@.params, row(params@)),
        ensures
            match r {
                Ok(mapped) => navigated(
                    part_leaves(self@.params, row(params@)),
                    row(params@),
                    row(mapped@),
                    *old(visitor),
                    *final(visitor),
                    Ok(()),
                ),
                Err(e) => visited(
                    *old(visitor),
                    *final(visitor),
                    part_leaves(self@.params, row(params@)),
                    Err(e),
                ),
            },
    {
        proof {
            use_type_invariant(self);
        }
        let mut mapped = params;
        match navigate_parts(&self.params, &mut mapped, visitor) {
            Ok(()) => Ok(mapped),
            Err(e) => Err(e),
        }
    }

    /// Shows every resource handle in the results to `visitor`, which may
    /// replace it in place, and stops at the first one that it refuses.
    pub fn map_results<W: ValVisitor<ResourceAny>>(
        &self,
        results: &mut Vec<Value>,
        visitor: &mut W,
    ) -> (r: Result<(), VisitError>)
        requires
            parts_fit(self@.results, row(old(results)@)),
        ensures
            navigated(
                part_leaves(self@.results, row(old(results)@)),
                row(old(results)@),
                row(final(results)@),
                *old(visitor),
                *final(visitor),
                r,
            ),
    {
        proof {
            use_type_invariant(self);
        }
        navigate_parts(&self.results, results, visitor)
    }
}

/// Builds the mapper of a function type.
pub fn build_resource_mapper(signature: &FuncSignature) -> (mapper: ValMapper)
    ensures
        mapper@ == mapper_of(signature@),
{
    let params = build_part_navigators(&signature.params);
    let results = build_part_navigators(&signature.results);
    if params.len() == 0 && results.len() == 0 {
        let mapper = ValMapper::noop();
        assert(mapper@.params =~= mapper_of(signature@).params);
        assert(mapper@.results =~= mapper_of(signature@).results);
        return mapper;
    }
    ValMapper { params, results }
}

/// The resource types that a linker has registered, with the number under which
/// each is known to the importer.
pub type ResourceMap = Vec<(ResourceType, u32)>;

/// Link context for a single function.
pub struct LinkContext {
    /// Remaps the resources in the parameters and results.
    pub resource: ValMapper,
    /// The importer's resource types, once the function is registered.
    pub resource_map: Option<ResourceMap>,
}

/// The mathematical view of a [`LinkContext`].
pub struct ContextView {
    pub resource: MapperTree,
    pub resource_map: Option<Seq<(ResourceType, u32)>>,
}

impl View for LinkContext {
    type V = ContextView;

    open spec fn view(&self) -> ContextView {
        ContextView {
            resource: self.resource@,
            resource_map: match self.resource_map {
                Some(map) => Some(map@),
                None => None,
            },
        }
    }
}

/// The context of a function of this type, before it is registered.
pub open spec fn context_of(signature: SignatureTree) -> ContextView {
    ContextView { resource: mapper_of(signature), resource_map: None }
}

impl LinkContext {
    /// No-op context: no remapping performed.
    pub fn noop() -> (ctx: Self)
        ensures
            ctx.resource@.params.len() == 0,
            ctx.resource@.results.len() == 0,
            ctx.resource_map is None,
    {
        LinkContext { resource: ValMapper::noop(), resource_map: None }
    }
}

/// Builds the link context of a function type.
pub fn build_link_context(signature: &FuncSignature) -> (ctx: LinkContext)
    ensures
        ctx@ == context_of(signature@),
{
    LinkContext { resource: build_resource_mapper(signature), resource_map: None }
}

/// The mapper of a function leads to all the resource handles in a row of
/// arguments and in a row of results, in order, and to nothing else.
pub proof fn mapper_reaches_all_handles(
    signature: SignatureTree,
    params: ValueTree,
    results: ValueTree,
)
    ensures
        part_leaves(mapper_of(signature).params, params) == field_handles(signature.params, params),
        part_leaves(mapper_of(signature).results, results) == field_handles(
            signature.results,
            results,
        ),
{
    lemma_parts_reach(signature.params, params);
    lemma_parts_reach(signature.results, results);
}

} // verus!
