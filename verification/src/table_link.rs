//! Planning how exports are linked where an instance's resources share a proxy.
//!
//! The exports of an instance are linked in one pass, in order. If a resource type
//! is among them, all of them share one proxy: the number of a host-defined
//! resource type, with a [`ResourceProxyTable`](crate::ResourceProxyTable) behind
//! it.

use vstd::prelude::*;
use wasmtime::component::{Component, ComponentExportIndex, ResourceType};

use crate::describe::{item_trees, ItemTree, ItemType};
use crate::error::{message, outcome_view, CompositionError, ErrorView};
use crate::link::is_resource;
use crate::linker::next_id;
use crate::mapper::FuncSignature;
use crate::wasm::{export_index, export_index_of, host_dynamic, host_type};

verus! {

/// Where the proxies of the instances of a component come from.
#[derive(Clone, Copy)]
pub enum ProxyScheme {
    /// Every instance with resources gets a proxy of its own.
    PerInstance,
    /// All the instances of the component share this one.
    Shared(u32),
}

/// One step of linking an export into an importer's linker.
pub enum TableOp {
    /// Register the function that the component exports under `index`. With a
    /// proxy, the resource values in its parameters and results are remapped.
    Func { name: String, index: ComponentExportIndex, concurrent: bool, proxy: Option<u32> },
    /// Register the resource type `host`, which the number `ty_id` identifies.
    Resource { name: String, host: ResourceType, ty_id: u32 },
    /// Go on in the nested instance `name`.
    Enter { name: String },
    /// Go back to the instance around.
    Leave,
}

/// The mathematical view of a [`TableOp`].
pub enum TableOpView {
    Func {
        name: Seq<char>,
        index: ComponentExportIndex,
        concurrent: bool,
        proxy: Option<u32>,
    },
    Resource { name: Seq<char>, host: ResourceType, ty_id: u32 },
    Enter { name: Seq<char> },
    Leave,
}

impl View for TableOp {
    type V = TableOpView;

    open spec fn view(&self) -> TableOpView {
        match *self {
            TableOp::Func { name, index, concurrent, proxy } => TableOpView::Func {
                name: name@,
                index,
                concurrent,
                proxy,
            },
            TableOp::Resource { name, host, ty_id } => TableOpView::Resource {
                name: name@,
                host,
                ty_id,
            },
            TableOp::Enter { name } => TableOpView::Enter { name: name@ },
            TableOp::Leave => TableOpView::Leave,
        }
    }
}

/// The views of a list of steps.
pub open spec fn table_op_views(ops: Seq<TableOp>) -> Seq<TableOpView> {
    ops.map_values(|op: TableOp| op@)
}

/// The steps of linking an export, what it comes to once all of them have
/// succeeded, and the number that the next proxy gets.
#[verifier::ext_equal]
pub struct TablePlanView {
    pub ops: Seq<TableOpView>,
    pub outcome: Result<(), ErrorView>,
    pub next: u32,
}

// ---------------------------------------------------------------------------
// What the plan of an export is
// ---------------------------------------------------------------------------

/// The error for a resource type outside an instance, where no proxy is at hand.
pub open spec fn no_proxy(scheme: ProxyScheme, name: Seq<char>) -> ErrorView {
    ErrorView::LinkingError(
        match scheme {
            ProxyScheme::PerInstance => "Resource '"@ + name
                + "' has no proxy table (should be created by parent instance)"@,
            ProxyScheme::Shared(_) => "Resource '"@ + name
                + "' has no proxy type ID (should be set by parent instance)"@,
        },
    )
}

/// A resource type is among `items`.
pub open spec fn has_resources(items: Seq<(Seq<char>, ItemTree)>) -> bool {
    exists|i: int| 0 <= i < items.len() && (#[trigger] items[i]).1 is Resource
}

/// The proxy that the exports `items` of an instance share.
pub open spec fn instance_proxy(
    scheme: ProxyScheme,
    items: Seq<(Seq<char>, ItemTree)>,
    next: u32,
) -> Option<u32> {
    if !has_resources(items) {
        None
    } else {
        match scheme {
            ProxyScheme::PerInstance => Some(next),
            ProxyScheme::Shared(id) => Some(id),
        }
    }
}

/// The number of the next proxy, once the exports `items` of an instance have
/// theirs.
pub open spec fn next_proxy(
    scheme: ProxyScheme,
    items: Seq<(Seq<char>, ItemTree)>,
    next: u32,
) -> u32 {
    if has_resources(items) && scheme is PerInstance {
        next_id(next)
    } else {
        next
    }
}

/// The plan of `items`, one after the other.
pub open spec fn table_items_plan(
    scheme: ProxyScheme,
    component: Component,
    parent: Option<ComponentExportIndex>,
    items: Seq<(Seq<char>, ItemTree)>,
    proxy: Option<u32>,
    next: u32,
) -> TablePlanView
    decreases items, 1nat, items.len(),
{
    if items.len() == 0 {
        TablePlanView { ops: Seq::empty(), outcome: Ok(()), next }
    } else {
        let before = table_items_plan(scheme, component, parent, items.drop_last(), proxy, next);
        match before.outcome {
            Err(_) => before,
            Ok(()) => {
                let last = table_item_plan(
                    scheme,
                    component,
                    parent,
                    items.last().0,
                    items.last().1,
                    proxy,
                    before.next,
                );
                TablePlanView {
                    ops: before.ops + last.ops,
                    outcome: last.outcome,
                    next: last.next,
                }
            },
        }
    }
}

/// The plan of an item that is exported under `name` from the instance `parent`
/// of `component`, or from `component` itself, where `proxy` is at hand.
pub open spec fn table_item_plan(
    scheme: ProxyScheme,
    component: Component,
    parent: Option<ComponentExportIndex>,
    name: Seq<char>,
    item: ItemTree,
    proxy: Option<u32>,
    next: u32,
) -> TablePlanView
    decreases item, 0nat, 0nat,
{
    let none = Seq::<TableOpView>::empty();
    match item {
        ItemTree::Func(signature) => match export_index_of(component, parent, name) {
            Some(index) => TablePlanView {
                ops: seq![
                    TableOpView::Func { name, index, concurrent: signature.is_async, proxy },
                ],
                outcome: Ok(()),
                next,
            },
            None => TablePlanView {
                ops: none,
                outcome: Err(
                    ErrorView::LinkingError(
                        "Export index for '"@ + name + "' not found in component"@,
                    ),
                ),
                next,
            },
        },
        ItemTree::Instance(exports) => match export_index_of(component, parent, name) {
            Some(index) => {
                let inner = table_items_plan(
                    scheme,
                    component,
                    Some(index),
                    exports,
                    instance_proxy(scheme, exports, next),
                    next_proxy(scheme, exports, next),
                );
                TablePlanView {
                    ops: seq![TableOpView::Enter { name }] + inner.ops + match inner.outcome {
                        Ok(()) => seq![TableOpView::Leave],
                        Err(_) => none,
                    },
                    outcome: inner.outcome,
                    next: inner.next,
                }
            },
            None => TablePlanView {
                ops: none,
                outcome: Err(
                    ErrorView::LinkingError(
                        "Export index for instance '"@ + name + "' not found in component"@,
                    ),
                ),
                next,
            },
        },
        ItemTree::Component(imports) => table_items_plan(
            scheme,
            component,
            parent,
            imports,
            None,
            next,
        ),
        ItemTree::Resource(_) => match proxy {
            Some(id) => TablePlanView {
                ops: seq![TableOpView::Resource { name, host: host_type(id), ty_id: id }],
                outcome: Ok(()),
                next,
            },
            None => TablePlanView { ops: none, outcome: Err(no_proxy(scheme, name)), next },
        },
        ItemTree::Type => TablePlanView { ops: none, outcome: Ok(()), next },
        ItemTree::CoreFunc => TablePlanView {
            ops: none,
            outcome: Err(ErrorView::UnsupportedLinkType { interface: name }),
            next,
        },
        ItemTree::Module => TablePlanView {
            ops: none,
            outcome: Err(ErrorView::UnsupportedLinkType { interface: name }),
            next,
        },
    }
}

// ---------------------------------------------------------------------------
// Making the plan
// ---------------------------------------------------------------------------

/// How an export is linked: the steps to take in order, what linking comes to once
/// all of them have succeeded, and the number that the next proxy gets.
pub struct TablePlan {
    pub ops: Vec<TableOp>,
    pub outcome: Result<(), CompositionError>,
    pub next: u32,
}

impl View for TablePlan {
    type V = TablePlanView;

    open spec fn view(&self) -> TablePlanView {
        TablePlanView {
            ops: table_op_views(self.ops@),
            outcome: outcome_view(self.outcome),
            next: self.next,
        }
    }
}

/// A plan under way.
pub struct TablePlanner {
    scheme: ProxyScheme,
    next: u32,
    ops: Vec<TableOp>,
}

/// `after` is `before` with the steps of `plan`, and `outcome` is its outcome.
pub open spec fn table_planned(
    plan: TablePlanView,
    before: TablePlanner,
    after: TablePlanner,
    outcome: Result<(), CompositionError>,
) -> bool {
    &&& after.steps() =~= before.steps() + plan.ops
    &&& after.next_number() == plan.next
    &&& after.scheme_of() == before.scheme_of()
    &&& outcome_view(outcome) == plan.outcome
}

impl TablePlanner {
    /// The steps so far.
    pub closed spec fn steps(self) -> Seq<TableOpView> {
        table_op_views(self.ops@)
    }

    /// The number that the next proxy gets.
    pub closed spec fn next_number(self) -> u32 {
        self.next
    }

    /// Where the proxies come from.
    pub closed spec fn scheme_of(self) -> ProxyScheme {
        self.scheme
    }

    /// No steps yet; the first proxy gets the number `next`.
    pub fn new(scheme: ProxyScheme, next: u32) -> (planner: Self)
        ensures
            planner.steps() == Seq::<TableOpView>::empty(),
            planner.next_number() == next,
            planner.scheme_of() == scheme,
    {
        let planner = TablePlanner { scheme, next, ops: Vec::new() };
        assert(planner.steps() =~= Seq::empty());
        planner
    }

    /// The plan, which comes to `outcome`.
    pub fn finish(self, outcome: Result<(), CompositionError>) -> (plan: TablePlan)
        ensures
            plan@ == (TablePlanView {
                ops: self.steps(),
                outcome: outcome_view(outcome),
                next: self.next_number(),
            }),
    {
        TablePlan { ops: self.ops, outcome, next: self.next }
    }

    /// Appends a step.
    fn push(&mut self, op: TableOp)
        ensures
            final(self).steps() == old(self).steps() + seq![op@],
            final(self).next_number() == old(self).next_number(),
            final(self).scheme_of() == old(self).scheme_of(),
    {
        self.ops.push(op);
        assert(self.steps() =~= old(self).steps() + seq![op@]);
    }

    /// Plans the linking of an item.
    pub fn link_export_item(
        &mut self,
        component: &Component,
        parent: Option<ComponentExportIndex>,
        name: &str,
        item: &ItemType,
        proxy: Option<u32>,
    ) -> (outcome: Result<(), CompositionError>)
        ensures
            table_planned(
                table_item_plan(
                    old(self).scheme_of(),
                    *component,
                    parent,
                    name@,
                    item@,
                    proxy,
                    old(self).next_number(),
                ),
                *old(self),
                *final(self),
                outcome,
            ),
        decreases item, 0nat,
    {
        match item {
            ItemType::Func(signature) => self.link_export_function(
                component,
                parent,
                name,
                signature,
                proxy,
            ),
            ItemType::Instance(exports) => self.link_export_instance(
                component,
                parent,
                name,
                exports,
            ),
            ItemType::Component(imports) => self.link_items(
                component,
                parent,
                imports,
                None,
            ),
            ItemType::Resource(ty) => self.link_export_resource(name, *ty, proxy),
            ItemType::Type => Ok(()),
            ItemType::CoreFunc => Err(
                CompositionError::UnsupportedLinkType { interface: name.to_owned() },
            ),
            ItemType::Module => Err(
                CompositionError::UnsupportedLinkType { interface: name.to_owned() },
            ),
        }
    }

    /// Plans the linking of a function.
    fn link_export_function(
        &mut self,
        component: &Component,
        parent: Option<ComponentExportIndex>,
        name: &str,
        signature: &FuncSignature,
        proxy: Option<u32>,
    ) -> (outcome: Result<(), CompositionError>)
        ensures
            table_planned(
                table_item_plan(
                    old(self).scheme_of(),
                    *component,
                    parent,
                    name@,
                    ItemTree::Func(signature@),
                    proxy,
                    old(self).next_number(),
                ),
                *old(self),
                *final(self),
                outcome,
            ),
    {
        match export_index(component, parent, name) {
            Some(index) => {
                self.push(
                    TableOp::Func {
                        name: name.to_owned(),
                        index,
                        concurrent: signature.is_async,
                        proxy,
                    },
                );
                Ok(())
            },
            None => Err(
                CompositionError::LinkingError(
                    message("Export index for '", name, "' not found in component"),
                ),
            ),
        }
    }

    /// Plans the linking of a resource type.
    fn link_export_resource(&mut self, name: &str, ty: ResourceType, proxy: Option<u32>) -> (outcome:
        Result<(), CompositionError>)
        ensures
            forall|component: Component, parent: Option<ComponentExportIndex>|
                table_planned(
                    #[trigger] table_item_plan(
                        old(self).scheme_of(),
                        component,
                        parent,
                        name@,
                        ItemTree::Resource(ty),
                        proxy,
                        old(self).next_number(),
                    ),
                    *old(self),
                    *final(self),
                    outcome,
                ),
    {
        match proxy {
            Some(id) => {
                self.push(
                    TableOp::Resource {
                        name: name.to_owned(),
                        host: host_dynamic(id),
                        ty_id: id,
                    },
                );
                Ok(())
            },
            None => {
                let text = match self.scheme {
                    ProxyScheme::PerInstance => message(
                        "Resource '",
                        name,
                        "' has no proxy table (should be created by parent instance)",
                    ),
                    ProxyScheme::Shared(_) => message(
                        "Resource '",
                        name,
                        "' has no proxy type ID (should be set by parent instance)",
                    ),
                };
                Err(CompositionError::LinkingError(text))
            },
        }
    }

    /// Plans the linking of an instance.
    fn link_export_instance(
        &mut self,
        component: &Component,
        parent: Option<ComponentExportIndex>,
        name: &str,
        exports: &Vec<(String, ItemType)>,
    ) -> (outcome: Result<(), CompositionError>)
        ensures
            forall|proxy: Option<u32>|
                table_planned(
                    #[trigger] table_item_plan(
                        old(self).scheme_of(),
                        *component,
                        parent,
                        name@,
                        ItemTree::Instance(item_trees(exports@)),
                        proxy,
                        old(self).next_number(),
                    ),
                    *old(self),
                    *final(self),
                    outcome,
                ),
        decreases exports, 2nat,
    {
        let index = match export_index(component, parent, name) {
            Some(index) => index,
            None => {
                return Err(
                    CompositionError::LinkingError(
                        message("Export index for instance '", name, "' not found in component"),
                    ),
                );
            },
        };
        let proxy = self.proxy_for(exports);
        self.push(TableOp::Enter { name: name.to_owned() });
        match self.link_items(component, Some(index), exports, proxy) {
            Ok(()) => {
                self.push(TableOp::Leave);
                Ok(())
            },
            Err(e) => Err(e),
        }
    }

    /// The proxy that the exports of an instance share.
    fn proxy_for(&mut self, exports: &Vec<(String, ItemType)>) -> (proxy: Option<u32>)
        ensures
            proxy == instance_proxy(
                old(self).scheme_of(),
                item_trees(exports@),
                old(self).next_number(),
            ),
            final(self).next_number() == next_proxy(
                old(self).scheme_of(),
                item_trees(exports@),
                old(self).next_number(),
            ),
            final(self).steps() == old(self).steps(),
            final(self).scheme_of() == old(self).scheme_of(),
    {
        let ghost trees = item_trees(exports@);
        let mut i: usize = 0;
        while i < exports.len()
            invariant
                i <= exports@.len(),
                trees == item_trees(exports@),
                *self == *old(self),
                forall|j: int| 0 <= j < i ==> !((#[trigger] trees[j]).1 is Resource),
            decreases exports.len() - i,
        {
            if is_resource(&exports[i].1) {
                assert(trees[i as int].1 is Resource);
                return match self.scheme {
                    ProxyScheme::PerInstance => {
                        let id: u32 = self.next;
                        self.next =
                        if id == u32::MAX {
                            0
                        } else {
                            id + 1
                        };
                        Some(id)
                    },
                    ProxyScheme::Shared(id) => Some(id),
                };
            }
            i = i + 1;
        }
        None
    }

    /// Plans the linking of `items`, one after the other, until one fails.
    fn link_items(
        &mut self,
        component: &Component,
        parent: Option<ComponentExportIndex>,
        items: &Vec<(String, ItemType)>,
        proxy: Option<u32>,
    ) -> (outcome: Result<(), CompositionError>)
        ensures
            table_planned(
                table_items_plan(
                    old(self).scheme_of(),
                    *component,
                    parent,
                    item_trees(items@),
                    proxy,
                    old(self).next_number(),
                ),
                *old(self),
                *final(self),
                outcome,
            ),
        decreases items, 1nat,
    {
        let ghost trees = item_trees(items@);
        let ghost scheme = self.scheme_of();
        let ghost next = self.next_number();
        let mut i: usize = 0;
        assert(trees.take(0) =~= Seq::empty());
        while i < items.len()
            invariant
                i <= items@.len(),
                trees == item_trees(items@),
                scheme == old(self).scheme_of(),
                next == old(self).next_number(),
                table_planned(
                    table_items_plan(
                        scheme,
                        *component,
                        parent,
                        trees.take(i as int),
                        proxy,
                        next,
                    ),
                    *old(self),
                    *self,
                    Ok(()),
                ),
            decreases items.len() - i,
        {
            proof {
                assert(trees.take(i + 1).drop_last() =~= trees.take(i as int));
            }
            match self.link_export_item(
                component,
                parent,
                items[i].0.as_str(),
                &items[i].1,
                proxy,
            ) {
                Ok(()) => {},
                Err(e) => {
                    proof {
                        lemma_table_failed_prefix(
                            scheme,
                            *component,
                            parent,
                            trees,
                            proxy,
                            next,
                            i + 1,
                        );
                    }
                    return Err(e);
                },
            }
            i = i + 1;
        }
        assert(trees.take(trees.len() as int) =~= trees);
        Ok(())
    }
}

/// The plan of items ends where the plan of the first `n` of them fails.
proof fn lemma_table_failed_prefix(
    scheme: ProxyScheme,
    component: Component,
    parent: Option<ComponentExportIndex>,
    items: Seq<(Seq<char>, ItemTree)>,
    proxy: Option<u32>,
    next: u32,
    n: int,
)
    requires
        0 <= n <= items.len(),
        table_items_plan(scheme, component, parent, items.take(n), proxy, next).outcome is Err,
    ensures
        table_items_plan(scheme, component, parent, items, proxy, next) == table_items_plan(
            scheme,
            component,
            parent,
            items.take(n),
            proxy,
            next,
        ),
    decreases items.len(),
{
    if n < items.len() {
        assert(items.drop_last().take(n) =~= items.take(n));
        lemma_table_failed_prefix(scheme, component, parent, items.drop_last(), proxy, next, n);
    } else {
        assert(items.take(n) =~= items);
    }
}

} // verus!
