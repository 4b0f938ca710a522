//! Planning how the exports of a component are linked into an importer.

use vstd::prelude::*;
use wasmtime::component::{Component, ComponentExportIndex, ResourceType};

use crate::describe::{item_trees, ItemTree, ItemType};
use crate::error::{message, outcome_view, CompositionError, ErrorView};
use crate::mapper::{
    build_link_context, context_of, ContextView, FuncSignature, LinkContext, SignatureTree,
};
use crate::wasm::{export_index, export_index_of};

verus! {

/// One step of linking an export into an importer's linker.
pub enum LinkOp {
    /// Register the function that the component exports under `index`.
    Func {
        name: String,
        index: ComponentExportIndex,
        /// Whether the function is declared `async`, so that invocations of it
        /// can run concurrently.
        concurrent: bool,
        ctx: LinkContext,
    },
    /// Register a resource type.
    Resource { name: String, ty: ResourceType },
    /// Go on in the nested instance `name`.
    Enter { name: String },
    /// Go back to the instance around.
    Leave,
}

/// The mathematical view of a [`LinkOp`].
pub enum OpView {
    Func { name: Seq<char>, index: ComponentExportIndex, concurrent: bool, ctx: ContextView },
    Resource { name: Seq<char>, ty: ResourceType },
    Enter { name: Seq<char> },
    Leave,
}

impl View for LinkOp {
    type V = OpView;

    open spec fn view(&self) -> OpView {
        match *self {
            LinkOp::Func { name, index, concurrent, ctx } => OpView::Func {
                name: name@,
                index,
                concurrent,
                ctx: ctx@,
            },
            LinkOp::Resource { name, ty } => OpView::Resource { name: name@, ty },
            LinkOp::Enter { name } => OpView::Enter { name: name@ },
            LinkOp::Leave => OpView::Leave,
        }
    }
}

/// The views of a list of steps.
pub open spec fn op_views(ops: Seq<LinkOp>) -> Seq<OpView> {
    ops.map_values(|op: LinkOp| op@)
}

/// How an export is linked: the steps to take in order, and what linking comes to
/// once all of them have succeeded.
pub struct LinkPlan {
    pub ops: Vec<LinkOp>,
    pub outcome: Result<(), CompositionError>,
}

/// The mathematical view of a [`LinkPlan`].
#[verifier::ext_equal]
pub struct PlanView {
    pub ops: Seq<OpView>,
    pub outcome: Result<(), ErrorView>,
}

impl View for LinkPlan {
    type V = PlanView;

    open spec fn view(&self) -> PlanView {
        PlanView { ops: op_views(self.ops@), outcome: outcome_view(self.outcome) }
    }
}

// ---------------------------------------------------------------------------
// What the plan of an export is
// ---------------------------------------------------------------------------

/// The plan that does nothing and succeeds.
pub open spec fn nothing() -> PlanView {
    PlanView { ops: Seq::empty(), outcome: Ok(()) }
}

/// The plan of the single step `op`.
pub open spec fn single(op: OpView) -> PlanView {
    PlanView { ops: seq![op], outcome: Ok(()) }
}

/// The plan that fails at once.
pub open spec fn failure(error: ErrorView) -> PlanView {
    PlanView { ops: Seq::empty(), outcome: Err(error) }
}

/// First `p` and, if it succeeds, `q`.
pub open spec fn and_next(p: PlanView, q: PlanView) -> PlanView {
    match p.outcome {
        Ok(()) => PlanView { ops: p.ops + q.ops, outcome: q.outcome },
        Err(_) => p,
    }
}

/// The plan of a function: registered under its export index, or refused if the
/// component has none.
pub open spec fn function_plan(
    component: Component,
    parent: Option<ComponentExportIndex>,
    name: Seq<char>,
    signature: SignatureTree,
) -> PlanView {
    match export_index_of(component, parent, name) {
        Some(index) => single(
            OpView::Func {
                name,
                index,
                concurrent: signature.is_async,
                ctx: context_of(signature),
            },
        ),
        None => failure(
            ErrorView::LinkingError("Export index for '"@ + name + "' not found in component"@),
        ),
    }
}

/// The plan of the resource types among `items`: each is registered, in order.
pub open spec fn resources_plan(items: Seq<(Seq<char>, ItemTree)>) -> PlanView
    decreases items.len(),
{
    if items.len() == 0 {
        nothing()
    } else {
        and_next(
            resources_plan(items.drop_last()),
            match items.last().1 {
                ItemTree::Resource(ty) => single(OpView::Resource { name: items.last().0, ty }),
                _ => nothing(),
            },
        )
    }
}

/// The plan of `items`, one after the other; without the resource types among
/// them if `resources` is false.
pub open spec fn items_plan(
    component: Component,
    parent: Option<ComponentExportIndex>,
    items: Seq<(Seq<char>, ItemTree)>,
    resources: bool,
) -> PlanView
    decreases items, 1nat, items.len(),
{
    if items.len() == 0 {
        nothing()
    } else {
        and_next(
            items_plan(component, parent, items.drop_last(), resources),
            if items.last().1 is Resource && !resources {
                nothing()
            } else {
                item_plan(component, parent, items.last().0, items.last().1)
            },
        )
    }
}

/// The plan of an item that is exported under `name` from the instance `parent`
/// of `component`, or from `component` itself.
///
/// In an instance the resource types come first, so that the functions around
/// them are registered when they are known. A component stands for its imports.
/// Core functions and modules cannot be linked.
pub open spec fn item_plan(
    component: Component,
    parent: Option<ComponentExportIndex>,
    name: Seq<char>,
    item: ItemTree,
) -> PlanView
    decreases item, 0nat, 0nat,
{
    match item {
        ItemTree::Func(signature) => function_plan(component, parent, name, signature),
        ItemTree::Instance(exports) => match export_index_of(component, parent, name) {
            Some(index) => and_next(
                single(OpView::Enter { name }),
                and_next(
                    resources_plan(exports),
                    and_next(
                        items_plan(component, Some(index), exports, false),
                        single(OpView::Leave),
                    ),
                ),
            ),
            None => failure(
                ErrorView::LinkingError(
                    "Export index for instance '"@ + name + "' not found in component"@,
                ),
            ),
        },
        ItemTree::Component(imports) => items_plan(component, parent, imports, true),
        ItemTree::Resource(ty) => single(OpView::Resource { name, ty }),
        ItemTree::Type => nothing(),
        ItemTree::CoreFunc => failure(ErrorView::UnsupportedLinkType { interface: name }),
        ItemTree::Module => failure(ErrorView::UnsupportedLinkType { interface: name }),
    }
}

// ---------------------------------------------------------------------------
// Making the plan
// ---------------------------------------------------------------------------

/// `ops` has grown from `before` by the steps of `plan`, and `outcome` is its
/// outcome.
pub open spec fn planned(
    plan: PlanView,
    before: Seq<LinkOp>,
    after: Seq<LinkOp>,
    outcome: Result<(), CompositionError>,
) -> bool {
    &&& op_views(after) =~= op_views(before) + plan.ops
    &&& outcome_view(outcome) == plan.outcome
}

/// Appends a step.
fn push_op(ops: &mut Vec<LinkOp>, op: LinkOp)
    ensures
        op_views(final(ops)@) == op_views(old(ops)@) + seq![op@],
{
    ops.push(op);
    assert(op_views(ops@) =~= op_views(old(ops)@) + seq![op@]);
}

/// Plans the linking of an item, as the next steps of `ops`.
pub fn link_export_item(
    component: &Component,
    parent: Option<ComponentExportIndex>,
    name: &str,
    item: &ItemType,
    ops: &mut Vec<LinkOp>,
) -> (outcome: Result<(), CompositionError>)
    ensures
        planned(
            item_plan(*component, parent, name@, item@),
            old(ops)@,
            final(ops)@,
            outcome,
        ),
    decreases item, 0nat,
{
    match item {
        ItemType::Func(signature) => link_export_function(component, parent, name, signature, ops),
        ItemType::Instance(exports) => link_export_instance(component, parent, name, exports, ops),
        ItemType::Component(imports) => link_export_component(component, parent, imports, ops),
        ItemType::Resource(ty) => {
            push_op(ops, LinkOp::Resource { name: name.to_owned(), ty: *ty });
            Ok(())
        },
        ItemType::Type => Ok(()),
        ItemType::CoreFunc => Err(
            CompositionError::UnsupportedLinkType { interface: name.to_owned() },
        ),
        ItemType::Module => Err(
            CompositionError::UnsupportedLinkType { interface: name.to_owned() },
        ),
    }
}

/// Plans the linking of a function.
fn link_export_function(
    component: &Component,
    parent: Option<ComponentExportIndex>,
    name: &str,
    signature: &FuncSignature,
    ops: &mut Vec<LinkOp>,
) -> (outcome: Result<(), CompositionError>)
    ensures
        planned(
            function_plan(*component, parent, name@, signature@),
            old(ops)@,
            final(ops)@,
            outcome,
        ),
{
    match export_index(component, parent, name) {
        Some(index) => {
            push_op(
                ops,
                LinkOp::Func {
                    name: name.to_owned(),
                    index,
                    concurrent: signature.is_async,
                    ctx: build_link_context(signature),
                },
            );
            Ok(())
        },
        None => Err(
            CompositionError::LinkingError(
                message("Export index for '", name, "' not found in component"),
            ),
        ),
    }
}

/// Plans the linking of a component: that of its imports.
fn link_export_component(
    component: &Component,
    parent: Option<ComponentExportIndex>,
    imports: &Vec<(String, ItemType)>,
    ops: &mut Vec<LinkOp>,
) -> (outcome: Result<(), CompositionError>)
    ensures
        planned(
            items_plan(*component, parent, item_trees(imports@), true),
            old(ops)@,
            final(ops)@,
            outcome,
        ),
    decreases imports, 2nat,
{
    link_items(component, parent, imports, true, ops)
}

/// Plans the linking of an instance: first its resource types, then the rest of
/// its exports.
fn link_export_instance(
    component: &Component,
    parent: Option<ComponentExportIndex>,
    name: &str,
    exports: &Vec<(String, ItemType)>,
    ops: &mut Vec<LinkOp>,
) -> (outcome: Result<(), CompositionError>)
    ensures
        planned(
            item_plan(*component, parent, name@, ItemTree::Instance(item_trees(exports@))),
            old(ops)@,
            final(ops)@,
            outcome,
        ),
    decreases exports, 2nat,
{
    let index = match export_index(component, parent, name) {
        Some(index) => index,
        None => {
            return Err(
                CompositionError::LinkingError(
                    message("Export index for instance '", name, "' not found in component"),
                ),
            );
        },
    };
    push_op(ops, LinkOp::Enter { name: name.to_owned() });
    link_resources(exports, ops);
    proof {
        lemma_resources_plan_succeeds(item_trees(exports@));
    }
    match link_items(component, Some(index), exports, false, ops) {
        Ok(()) => {
            push_op(ops, LinkOp::Leave);
            Ok(())
        },
        Err(e) => Err(e),
    }
}

/// Plans the linking of the resource types among `items`.
fn link_resources(items: &Vec<(String, ItemType)>, ops: &mut Vec<LinkOp>)
    ensures
        op_views(final(ops)@) == op_views(old(ops)@) + resources_plan(item_trees(items@)).ops,
{
    let ghost trees = item_trees(items@);
    let mut i: usize = 0;
    assert(trees.take(0) =~= Seq::empty());
    while i < items.len()
        invariant
            i <= items@.len(),
            trees == item_trees(items@),
            op_views(ops@) == op_views(old(ops)@) + resources_plan(trees.take(i as int)).ops,
        decreases items.len() - i,
    {
        proof {
            assert(trees.take(i + 1).drop_last() =~= trees.take(i as int));
            lemma_resources_plan_succeeds(trees.take(i as int));
        }
        if let ItemType::Resource(ty) = &items[i].1 {
            push_op(ops, LinkOp::Resource { name: items[i].0.clone(), ty: *ty });
        }
        i = i + 1;
    }
    assert(trees.take(trees.len() as int) =~= trees);
}

/// Plans the linking of `items`, one after the other, until one fails.
fn link_items(
    component: &Component,
    parent: Option<ComponentExportIndex>,
    items: &Vec<(String, ItemType)>,
    resources: bool,
    ops: &mut Vec<LinkOp>,
) -> (outcome: Result<(), CompositionError>)
    ensures
        planned(
            items_plan(*component, parent, item_trees(items@), resources),
            old(ops)@,
            final(ops)@,
            outcome,
        ),
    decreases items, 1nat,
{
    let ghost trees = item_trees(items@);
    let mut i: usize = 0;
    assert(trees.take(0) =~= Seq::empty());
    while i < items.len()
        invariant
            i <= items@.len(),
            trees == item_trees(items@),
            planned(
                items_plan(*component, parent, trees.take(i as int), resources),
                old(ops)@,
                ops@,
                Ok(()),
            ),
        decreases items.len() - i,
    {
        proof {
            assert(trees.take(i + 1).drop_last() =~= trees.take(i as int));
        }
        let skipped = !resources && is_resource(&items[i].1);
        if !skipped {
            match link_export_item(component, parent, items[i].0.as_str(), &items[i].1, ops) {
                Ok(()) => {},
                Err(e) => {
                    proof {
                        lemma_failed_prefix(*component, parent, trees, resources, i + 1);
                    }
                    return Err(e);
                },
            }
        }
        i = i + 1;
    }
    assert(trees.take(trees.len() as int) =~= trees);
    Ok(())
}

/// Whether an item is a resource type.
pub(crate) fn is_resource(item: &ItemType) -> (r: bool)
    ensures
        r == (item@ is Resource),
{
    match item {
        ItemType::Resource(_) => true,
        _ => false,
    }
}

/// Registering resource types does not fail at planning time.
pub(crate) proof fn lemma_resources_plan_succeeds(items: Seq<(Seq<char>, ItemTree)>)
    ensures
        resources_plan(items).outcome is Ok,
    decreases items.len(),
{
    if items.len() > 0 {
        lemma_resources_plan_succeeds(items.drop_last());
    }
}

/// The plan of items ends where the plan of the first `n` of them fails.
proof fn lemma_failed_prefix(
    component: Component,
    parent: Option<ComponentExportIndex>,
    items: Seq<(Seq<char>, ItemTree)>,
    resources: bool,
    n: int,
)
    requires
        0 <= n <= items.len(),
        items_plan(component, parent, items.take(n), resources).outcome is Err,
    ensures
        items_plan(component, parent, items, resources) == items_plan(
            component,
            parent,
            items.take(n),
            resources,
        ),
    decreases items.len(),
{
    if n < items.len() {
        assert(items.drop_last().take(n) =~= items.take(n));
        lemma_failed_prefix(component, parent, items.drop_last(), resources, n);
    } else {
        assert(items.take(n) =~= items);
    }
}

} // verus!
