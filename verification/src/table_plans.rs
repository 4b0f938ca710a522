//! What holds of every plan by which an export is linked with shared proxies.

use vstd::prelude::*;
use wasmtime::component::{Component, ComponentExportIndex};

use crate::describe::ItemTree;
use crate::mapper::SignatureTree;
use crate::plans::{sum, tally, tally_all, Tally};
use crate::table_link::{
    has_resources, instance_proxy, next_proxy, table_item_plan, table_items_plan, ProxyScheme,
    TableOpView,
};
use crate::wasm::{export_index_of, host_type};

verus! {

/// How many instances are entered by `ops` and not left again.
pub open spec fn table_nesting(ops: Seq<TableOpView>) -> int
    decreases ops.len(),
{
    if ops.len() == 0 {
        0
    } else {
        table_nesting(ops.drop_last()) + match ops.last() {
            TableOpView::Enter { .. } => 1int,
            TableOpView::Leave => -1int,
            _ => 0int,
        }
    }
}

/// The step number `k` of `ops` is taken inside `level` instances.
pub open spec fn is_at_table_level(ops: Seq<TableOpView>, k: int, level: int) -> bool {
    0 <= k < ops.len() && table_nesting(ops.take(k)) == level
}

/// `op` registers the function `name` of the type `signature`, which `component`
/// exports from the instance `parent`, with the proxy `proxy`.
pub open spec fn registers_with_proxy(
    component: Component,
    parent: Option<ComponentExportIndex>,
    name: Seq<char>,
    signature: SignatureTree,
    proxy: Option<u32>,
    op: TableOpView,
) -> bool {
    op matches TableOpView::Func { name: registered, index, concurrent, proxy: with } && {
        &&& registered == name
        &&& export_index_of(component, parent, name) == Some(index)
        &&& concurrent == signature.is_async
        &&& with == proxy
    }
}

/// The plan `block` is part of `ops`, from the step number `at` on.
pub open spec fn is_table_block(
    ops: Seq<TableOpView>,
    at: int,
    block: Seq<TableOpView>,
) -> bool {
    &&& 0 <= at
    &&& at + block.len() <= ops.len()
    &&& ops.subrange(at, at + block.len()) == block
}

/// The item `item` is linked with success by the steps of `ops` from the step number
/// `at` on, where `proxy` is at hand and the next proxy gets the number `next`.
pub open spec fn is_shared_at(
    scheme: ProxyScheme,
    component: Component,
    parent: Option<ComponentExportIndex>,
    item: (Seq<char>, ItemTree),
    proxy: Option<u32>,
    next: u32,
    ops: Seq<TableOpView>,
    at: int,
) -> bool {
    let plan = table_item_plan(scheme, component, parent, item.0, item.1, proxy, next);
    plan.outcome is Ok && is_table_block(ops, at, plan.ops)
}

/// The steps of `ops` by their kinds.
pub open spec fn tally_of_table_steps(ops: Seq<TableOpView>) -> Tally
    decreases ops.len(),
{
    if ops.len() == 0 {
        Tally { functions: 0, resources: 0, instances: 0 }
    } else {
        sum(
            tally_of_table_steps(ops.drop_last()),
            match ops.last() {
                TableOpView::Func { .. } => Tally { functions: 1, resources: 0, instances: 0 },
                TableOpView::Resource { .. } => Tally { functions: 0, resources: 1, instances: 0 },
                TableOpView::Enter { .. } => Tally { functions: 0, resources: 0, instances: 1 },
                TableOpView::Leave => Tally { functions: 0, resources: 0, instances: 0 },
            },
        )
    }
}

/// An item can be linked: `component` has an export index for all its functions and
/// instances, at any depth, every resource type in it is among the exports of an
/// instance, and none of it is a core function or a module.
pub open spec fn can_be_shared(
    component: Component,
    parent: Option<ComponentExportIndex>,
    name: Seq<char>,
    item: ItemTree,
    in_instance: bool,
) -> bool
    decreases item,
{
    match item {
        ItemTree::Func(_) => export_index_of(component, parent, name) is Some,
        ItemTree::Instance(exports) => export_index_of(component, parent, name) is Some && forall|
            i: int,
        |
            0 <= i < exports.len() ==> can_be_shared(
                component,
                export_index_of(component, parent, name),
                (#[trigger] exports[i]).0,
                exports[i].1,
                true,
            ),
        ItemTree::Component(imports) => forall|i: int|
            0 <= i < imports.len() ==> can_be_shared(
                component,
                parent,
                (#[trigger] imports[i]).0,
                imports[i].1,
                false,
            ),
        ItemTree::Resource(_) => in_instance,
        ItemTree::Type => true,
        ItemTree::CoreFunc => false,
        ItemTree::Module => false,
    }
}

// ---------------------------------------------------------------------------
// Laws
// ---------------------------------------------------------------------------

/// An item is linked with success just where all of it can be.
pub proof fn sharing_succeeds_where_it_can(
    scheme: ProxyScheme,
    component: Component,
    parent: Option<ComponentExportIndex>,
    name: Seq<char>,
    item: ItemTree,
    proxy: Option<u32>,
    next: u32,
)
    ensures
        table_item_plan(scheme, component, parent, name, item, proxy, next).outcome is Ok
            <==> can_be_shared(component, parent, name, item, proxy is Some),
    decreases item, 0nat,
{
    match item {
        ItemTree::Instance(exports) => {
            if let Some(index) = export_index_of(component, parent, name) {
                let shared = instance_proxy(scheme, exports, next);
                let after = next_proxy(scheme, exports, next);
                lemma_shared_items_succeed(
                    scheme,
                    component,
                    Some(index),
                    exports,
                    shared,
                    after,
                );
                assert forall|i: int| 0 <= i < exports.len() implies can_be_shared(
                    component,
                    Some(index),
                    (#[trigger] exports[i]).0,
                    exports[i].1,
                    shared is Some,
                ) == can_be_shared(component, Some(index), exports[i].0, exports[i].1, true) by {
                    lemma_place_matters_for_resources(
                        component,
                        Some(index),
                        exports[i].0,
                        exports[i].1,
                        shared is Some,
                    );
                    if exports[i].1 is Resource {
                        assert(has_resources(exports));
                    }
                }
            }
        },
        ItemTree::Component(imports) => lemma_shared_items_succeed(
            scheme,
            component,
            parent,
            imports,
            None,
            next,
        ),
        _ => {},
    }
}

/// If an item is linked with success, there are as many steps of each kind as there
/// are functions, resource types and instances in it: none is left out, and none is
/// registered twice.
pub proof fn everything_is_shared_once(
    scheme: ProxyScheme,
    component: Component,
    parent: Option<ComponentExportIndex>,
    name: Seq<char>,
    item: ItemTree,
    proxy: Option<u32>,
    next: u32,
)
    requires
        table_item_plan(scheme, component, parent, name, item, proxy, next).outcome is Ok,
    ensures
        tally_of_table_steps(
            table_item_plan(scheme, component, parent, name, item, proxy, next).ops,
        ) == tally(item),
    decreases item, 0nat,
{
    let ops = table_item_plan(scheme, component, parent, name, item, proxy, next).ops;
    match item {
        ItemTree::Func(_) => lemma_table_tally_one(ops[0]),
        ItemTree::Resource(_) => lemma_table_tally_one(ops[0]),
        ItemTree::Instance(exports) => {
            let index = export_index_of(component, parent, name);
            let shared = instance_proxy(scheme, exports, next);
            let after = next_proxy(scheme, exports, next);
            let enter = seq![TableOpView::Enter { name }];
            let body = table_items_plan(scheme, component, index, exports, shared, after).ops;
            lemma_table_tally_one(TableOpView::Enter { name });
            lemma_table_tally_one(TableOpView::Leave);
            lemma_table_tally_append(enter, body);
            lemma_table_tally_append(enter + body, seq![TableOpView::Leave]);
            lemma_table_tally_items(scheme, component, index, exports, shared, after);
        },
        ItemTree::Component(imports) => lemma_table_tally_items(
            scheme,
            component,
            parent,
            imports,
            None,
            next,
        ),
        _ => {},
    }
}

/// If an exported instance is linked with success, its steps stand between entering
/// and leaving it, and all its exports are registered inside it: a function under its
/// name, with the export index that the component has for it in that instance, to
/// run concurrently just if it is `async`; a resource type under its name, as the
/// host-defined type of the instance's proxy. If there is a resource type among
/// them, all of them share that proxy, and else they have none.
pub proof fn exports_of_an_instance_share_a_proxy(
    scheme: ProxyScheme,
    component: Component,
    parent: Option<ComponentExportIndex>,
    name: Seq<char>,
    exports: Seq<(Seq<char>, ItemTree)>,
    proxy: Option<u32>,
    next: u32,
    j: int,
)
    requires
        table_item_plan(
            scheme,
            component,
            parent,
            name,
            ItemTree::Instance(exports),
            proxy,
            next,
        ).outcome is Ok,
        0 <= j < exports.len(),
    ensures
        ({
            let item = ItemTree::Instance(exports);
            let ops = table_item_plan(scheme, component, parent, name, item, proxy, next).ops;
            let index = export_index_of(component, parent, name);
            let number = match scheme {
                ProxyScheme::PerInstance => next,
                ProxyScheme::Shared(id) => id,
            };
            let shared = if exists|i: int|
                0 <= i < exports.len() && (#[trigger] exports[i]).1 is Resource {
                Some(number)
            } else {
                None
            };
            &&& index is Some
            &&& ops[0] == (TableOpView::Enter { name })
            &&& ops.last() == TableOpView::Leave
            &&& exports[j].1 is Func ==> exists|k: int|
                #![trigger ops[k]]
                is_at_table_level(ops, k, 1) && registers_with_proxy(
                    component,
                    index,
                    exports[j].0,
                    exports[j].1->Func_0,
                    shared,
                    ops[k],
                )
            &&& exports[j].1 is Resource ==> exists|k: int|
                #![trigger ops[k]]
                is_at_table_level(ops, k, 1) && ops[k] == (TableOpView::Resource {
                    name: exports[j].0,
                    host: host_type(number),
                    ty_id: number,
                })
        }),
{
    let item = ItemTree::Instance(exports);
    let ops = table_item_plan(scheme, component, parent, name, item, proxy, next).ops;
    let index = export_index_of(component, parent, name);
    let shared = instance_proxy(scheme, exports, next);
    let after = next_proxy(scheme, exports, next);
    let enter = seq![TableOpView::Enter { name }];
    let body = table_items_plan(scheme, component, index, exports, shared, after).ops;
    assert(ops =~= enter + body + seq![TableOpView::Leave]);
    if exports[j].1 is Func || exports[j].1 is Resource {
        lemma_table_block(scheme, component, index, exports, shared, after, j);
        let before = table_items_plan(scheme, component, index, exports.take(j), shared, after);
        let inside = before.ops.len() as int;
        let inner = table_item_plan(
            scheme,
            component,
            index,
            exports[j].0,
            exports[j].1,
            shared,
            before.next,
        ).ops;
        assert(inner.len() == 1);
        assert(body.subrange(inside, inside + 1)[0] == body[inside]);
        assert(ops[1 + inside] == inner[0]);
        assert(ops.take(1 + inside) =~= enter + body.take(inside));
        lemma_table_nesting_append(enter, body.take(inside));
        lemma_table_nesting_one(TableOpView::Enter { name });
        assert(is_at_table_level(ops, 1 + inside, 1));
        if exports[j].1 is Resource {
            assert(has_resources(exports));
        }
    }
}

/// If an exported instance is linked with success, so is every instance among its
/// exports, with all its steps, inside it.
pub proof fn instances_inside_an_instance_are_shared(
    scheme: ProxyScheme,
    component: Component,
    parent: Option<ComponentExportIndex>,
    name: Seq<char>,
    exports: Seq<(Seq<char>, ItemTree)>,
    proxy: Option<u32>,
    next: u32,
    j: int,
)
    requires
        table_item_plan(
            scheme,
            component,
            parent,
            name,
            ItemTree::Instance(exports),
            proxy,
            next,
        ).outcome is Ok,
        0 <= j < exports.len(),
        exports[j].1 is Instance,
    ensures
        ({
            let item = ItemTree::Instance(exports);
            let ops = table_item_plan(scheme, component, parent, name, item, proxy, next).ops;
            exists|at: int, with: Option<u32>, number: u32| #[trigger]
                is_shared_at(
                    scheme,
                    component,
                    export_index_of(component, parent, name),
                    exports[j],
                    with,
                    number,
                    ops,
                    at,
                ) && table_nesting(ops.take(at)) == 1
        }),
{
    let item = ItemTree::Instance(exports);
    let ops = table_item_plan(scheme, component, parent, name, item, proxy, next).ops;
    let index = export_index_of(component, parent, name);
    let shared = instance_proxy(scheme, exports, next);
    let after = next_proxy(scheme, exports, next);
    let enter = seq![TableOpView::Enter { name }];
    let body = table_items_plan(scheme, component, index, exports, shared, after).ops;
    assert(ops =~= enter + body + seq![TableOpView::Leave]);
    lemma_table_block(scheme, component, index, exports, shared, after, j);
    let before = table_items_plan(scheme, component, index, exports.take(j), shared, after);
    let inside = before.ops.len() as int;
    let inner = table_item_plan(
        scheme,
        component,
        index,
        exports[j].0,
        exports[j].1,
        shared,
        before.next,
    ).ops;
    assert(ops.subrange(1 + inside, 1 + inside + inner.len()) =~= body.subrange(
        inside,
        inside + inner.len(),
    ));
    assert(ops.take(1 + inside) =~= enter + body.take(inside));
    lemma_table_nesting_append(enter, body.take(inside));
    lemma_table_nesting_one(TableOpView::Enter { name });
    assert(is_shared_at(
        scheme,
        component,
        index,
        exports[j],
        shared,
        before.next,
        ops,
        1 + inside,
    ));
}

// ---------------------------------------------------------------------------
// Lemmas
// ---------------------------------------------------------------------------

/// Only for a resource type does it matter whether it is in an instance.
proof fn lemma_place_matters_for_resources(
    component: Component,
    parent: Option<ComponentExportIndex>,
    name: Seq<char>,
    item: ItemTree,
    in_instance: bool,
)
    ensures
        !(item is Resource) ==> can_be_shared(component, parent, name, item, in_instance)
            == can_be_shared(component, parent, name, item, true),
{
}

proof fn lemma_shared_items_succeed(
    scheme: ProxyScheme,
    component: Component,
    parent: Option<ComponentExportIndex>,
    items: Seq<(Seq<char>, ItemTree)>,
    proxy: Option<u32>,
    next: u32,
)
    ensures
        table_items_plan(scheme, component, parent, items, proxy, next).outcome is Ok
            <==> forall|i: int|
            0 <= i < items.len() ==> can_be_shared(
                component,
                parent,
                (#[trigger] items[i]).0,
                items[i].1,
                proxy is Some,
            ),
    decreases items, 1nat,
{
    if items.len() > 0 {
        let init = items.drop_last();
        let last = items.last();
        lemma_shared_items_succeed(scheme, component, parent, init, proxy, next);
        let before = table_items_plan(scheme, component, parent, init, proxy, next);
        sharing_succeeds_where_it_can(
            scheme,
            component,
            parent,
            last.0,
            last.1,
            proxy,
            before.next,
        );
        assert(items[items.len() - 1] == last);
        assert(forall|i: int| 0 <= i < init.len() ==> init[i] == items[i]);
    }
}

/// Where the steps of one of `items` are.
proof fn lemma_table_block(
    scheme: ProxyScheme,
    component: Component,
    parent: Option<ComponentExportIndex>,
    items: Seq<(Seq<char>, ItemTree)>,
    proxy: Option<u32>,
    next: u32,
    j: int,
)
    requires
        table_items_plan(scheme, component, parent, items, proxy, next).outcome is Ok,
        0 <= j < items.len(),
    ensures
        ({
            let ops = table_items_plan(scheme, component, parent, items, proxy, next).ops;
            let before = table_items_plan(scheme, component, parent, items.take(j), proxy, next);
            let inner = table_item_plan(
                scheme,
                component,
                parent,
                items[j].0,
                items[j].1,
                proxy,
                before.next,
            );
            &&& inner.outcome is Ok
            &&& is_table_block(ops, before.ops.len() as int, inner.ops)
            &&& table_nesting(ops.take(before.ops.len() as int)) == 0
        }),
    decreases items.len(),
{
    let ops = table_items_plan(scheme, component, parent, items, proxy, next).ops;
    let init = items.drop_last();
    let known = table_items_plan(scheme, component, parent, init, proxy, next);
    let before = table_items_plan(scheme, component, parent, items.take(j), proxy, next);
    let at = before.ops.len() as int;
    let inner = table_item_plan(
        scheme,
        component,
        parent,
        items[j].0,
        items[j].1,
        proxy,
        before.next,
    );
    if j < items.len() - 1 {
        assert(init[j] == items[j]);
        assert(init.take(j) =~= items.take(j));
        lemma_table_block(scheme, component, parent, init, proxy, next, j);
        assert(ops.subrange(at, at + inner.ops.len()) =~= known.ops.subrange(
            at,
            at + inner.ops.len(),
        ));
        assert(ops.take(at) =~= known.ops.take(at));
    } else {
        assert(items.take(j) =~= init);
        assert(ops.subrange(at, at + inner.ops.len()) =~= inner.ops);
        assert(ops.take(at) =~= known.ops);
        lemma_table_items_level(scheme, component, parent, init, proxy, next);
    }
}

/// An item that is linked with success ends at the level at which it began.
proof fn lemma_table_item_level(
    scheme: ProxyScheme,
    component: Component,
    parent: Option<ComponentExportIndex>,
    name: Seq<char>,
    item: ItemTree,
    proxy: Option<u32>,
    next: u32,
)
    requires
        table_item_plan(scheme, component, parent, name, item, proxy, next).outcome is Ok,
    ensures
        table_nesting(
            table_item_plan(scheme, component, parent, name, item, proxy, next).ops,
        ) == 0,
    decreases item, 0nat,
{
    let ops = table_item_plan(scheme, component, parent, name, item, proxy, next).ops;
    match item {
        ItemTree::Func(_) => lemma_table_nesting_one(ops[0]),
        ItemTree::Resource(_) => lemma_table_nesting_one(ops[0]),
        ItemTree::Instance(exports) => {
            let index = export_index_of(component, parent, name);
            let shared = instance_proxy(scheme, exports, next);
            let after = next_proxy(scheme, exports, next);
            let enter = seq![TableOpView::Enter { name }];
            let body = table_items_plan(scheme, component, index, exports, shared, after).ops;
            lemma_table_nesting_append(enter, body);
            lemma_table_nesting_append(enter + body, seq![TableOpView::Leave]);
            lemma_table_nesting_one(TableOpView::Enter { name });
            lemma_table_nesting_one(TableOpView::Leave);
            lemma_table_items_level(scheme, component, index, exports, shared, after);
        },
        ItemTree::Component(imports) => lemma_table_items_level(
            scheme,
            component,
            parent,
            imports,
            None,
            next,
        ),
        _ => {},
    }
}

/// Items that are linked with success end at the level at which they began.
proof fn lemma_table_items_level(
    scheme: ProxyScheme,
    component: Component,
    parent: Option<ComponentExportIndex>,
    items: Seq<(Seq<char>, ItemTree)>,
    proxy: Option<u32>,
    next: u32,
)
    requires
        table_items_plan(scheme, component, parent, items, proxy, next).outcome is Ok,
    ensures
        table_nesting(table_items_plan(scheme, component, parent, items, proxy, next).ops) == 0,
    decreases items, 1nat,
{
    if items.len() > 0 {
        let init = items.drop_last();
        let before = table_items_plan(scheme, component, parent, init, proxy, next);
        let last = items.last();
        lemma_table_items_level(scheme, component, parent, init, proxy, next);
        lemma_table_item_level(
            scheme,
            component,
            parent,
            last.0,
            last.1,
            proxy,
            before.next,
        );
        lemma_table_nesting_append(
            before.ops,
            table_item_plan(
                scheme,
                component,
                parent,
                last.0,
                last.1,
                proxy,
                before.next,
            ).ops,
        );
    }
}

proof fn lemma_table_nesting_one(op: TableOpView)
    ensures
        table_nesting(seq![op]) == match op {
            TableOpView::Enter { .. } => 1int,
            TableOpView::Leave => -1int,
            _ => 0int,
        },
{
    assert(seq![op].drop_last() =~= Seq::empty());
    reveal_with_fuel(table_nesting, 2);
}

proof fn lemma_table_nesting_append(p: Seq<TableOpView>, q: Seq<TableOpView>)
    ensures
        table_nesting(p + q) == table_nesting(p) + table_nesting(q),
    decreases q.len(),
{
    if q.len() == 0 {
        assert(p + q =~= p);
    } else {
        lemma_table_nesting_append(p, q.drop_last());
        assert((p + q).drop_last() =~= p + q.drop_last());
    }
}

proof fn lemma_table_tally_one(op: TableOpView)
    ensures
        tally_of_table_steps(seq![op]) == match op {
            TableOpView::Func { .. } => Tally { functions: 1, resources: 0, instances: 0 },
            TableOpView::Resource { .. } => Tally { functions: 0, resources: 1, instances: 0 },
            TableOpView::Enter { .. } => Tally { functions: 0, resources: 0, instances: 1 },
            TableOpView::Leave => Tally { functions: 0, resources: 0, instances: 0 },
        },
{
    assert(seq![op].drop_last() =~= Seq::empty());
    reveal_with_fuel(tally_of_table_steps, 2);
}

proof fn lemma_table_tally_append(p: Seq<TableOpView>, q: Seq<TableOpView>)
    ensures
        tally_of_table_steps(p + q) == sum(tally_of_table_steps(p), tally_of_table_steps(q)),
    decreases q.len(),
{
    if q.len() == 0 {
        assert(p + q =~= p);
    } else {
        lemma_table_tally_append(p, q.drop_last());
        assert((p + q).drop_last() =~= p + q.drop_last());
    }
}

proof fn lemma_table_tally_items(
    scheme: ProxyScheme,
    component: Component,
    parent: Option<ComponentExportIndex>,
    items: Seq<(Seq<char>, ItemTree)>,
    proxy: Option<u32>,
    next: u32,
)
    requires
        table_items_plan(scheme, component, parent, items, proxy, next).outcome is Ok,
    ensures
        tally_of_table_steps(
            table_items_plan(scheme, component, parent, items, proxy, next).ops,
        ) == tally_all(items),
    decreases items, 1nat,
{
    if items.len() > 0 {
        let init = items.drop_last();
        let before = table_items_plan(scheme, component, parent, init, proxy, next);
        let last = items.last();
        lemma_table_tally_items(scheme, component, parent, init, proxy, next);
        everything_is_shared_once(
            scheme,
            component,
            parent,
            last.0,
            last.1,
            proxy,
            before.next,
        );
        lemma_table_tally_append(
            before.ops,
            table_item_plan(
                scheme,
                component,
                parent,
                last.0,
                last.1,
                proxy,
                before.next,
            ).ops,
        );
        assert(tally_all(items) == sum(tally_all(init), tally(last.1)));
    }
}

// ---------------------------------------------------------------------------
// Numbers
// ---------------------------------------------------------------------------

/// How many instances in an item, at any depth, have a resource type among their
/// exports.
pub open spec fn proxies_needed(item: ItemTree) -> nat
    decreases item, 0nat, 0nat,
{
    match item {
        ItemTree::Instance(exports) => proxies_needed_by_all(exports) + if exists|i: int|
            0 <= i < exports.len() && (#[trigger] exports[i]).1 is Resource {
            1nat
        } else {
            0nat
        },
        ItemTree::Component(imports) => proxies_needed_by_all(imports),
        _ => 0,
    }
}

/// How many instances in `items` need a proxy.
pub open spec fn proxies_needed_by_all(items: Seq<(Seq<char>, ItemTree)>) -> nat
    decreases items, 1nat, items.len(),
{
    if items.len() == 0 {
        0
    } else {
        proxies_needed_by_all(items.drop_last()) + proxies_needed(items.last().1)
    }
}

/// Every instance with resource types takes a number of its own, if each gets a proxy of
/// its own: after an item is linked with success, the next number is past all that it
/// needed. If all share one proxy, no number is taken. Numbers that wrap around are
/// left out.
pub proof fn every_instance_takes_a_number(
    scheme: ProxyScheme,
    component: Component,
    parent: Option<ComponentExportIndex>,
    name: Seq<char>,
    item: ItemTree,
    proxy: Option<u32>,
    next: u32,
)
    requires
        table_item_plan(scheme, component, parent, name, item, proxy, next).outcome is Ok,
        next + proxies_needed(item) <= u32::MAX,
    ensures
        table_item_plan(scheme, component, parent, name, item, proxy, next).next == next + (
        if scheme is PerInstance {
            proxies_needed(item)
        } else {
            0
        }),
    decreases item, 0nat,
{
    match item {
        ItemTree::Instance(exports) => {
            let index = export_index_of(component, parent, name);
            let shared = instance_proxy(scheme, exports, next);
            let after = next_proxy(scheme, exports, next);
            lemma_numbers_taken(scheme, component, index, exports, shared, after);
        },
        ItemTree::Component(imports) => lemma_numbers_taken(
            scheme,
            component,
            parent,
            imports,
            None,
            next,
        ),
        _ => {},
    }
}

proof fn lemma_numbers_taken(
    scheme: ProxyScheme,
    component: Component,
    parent: Option<ComponentExportIndex>,
    items: Seq<(Seq<char>, ItemTree)>,
    proxy: Option<u32>,
    next: u32,
)
    requires
        table_items_plan(scheme, component, parent, items, proxy, next).outcome is Ok,
        next + proxies_needed_by_all(items) <= u32::MAX,
    ensures
        table_items_plan(scheme, component, parent, items, proxy, next).next == next + (
        if scheme is PerInstance {
            proxies_needed_by_all(items)
        } else {
            0
        }),
    decreases items, 1nat,
{
    if items.len() > 0 {
        let init = items.drop_last();
        let last = items.last();
        let before = table_items_plan(scheme, component, parent, init, proxy, next);
        assert(proxies_needed_by_all(items) == proxies_needed_by_all(init) + proxies_needed(
            last.1,
        ));
        lemma_numbers_taken(scheme, component, parent, init, proxy, next);
        every_instance_takes_a_number(
            scheme,
            component,
            parent,
            last.0,
            last.1,
            proxy,
            before.next,
        );
    }
}

} // verus!
