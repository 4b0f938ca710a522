//! What holds of every plan by which an export is linked.

use vstd::prelude::*;
use wasmtime::component::{Component, ComponentExportIndex, ResourceType};

use crate::describe::ItemTree;
use crate::link::{
    item_plan, items_plan, lemma_resources_plan_succeeds, nothing, resources_plan, OpView,
};
use crate::mapper::{mapper_of, SignatureTree};
use crate::wasm::{entry_names, export_index_of};

verus! {

/// How many instances are entered by `ops` and not left again.
pub open spec fn nesting(ops: Seq<OpView>) -> int
    decreases ops.len(),
{
    if ops.len() == 0 {
        0
    } else {
        nesting(ops.drop_last()) + match ops.last() {
            OpView::Enter { .. } => 1int,
            OpView::Leave => -1int,
            _ => 0int,
        }
    }
}

/// The step number `k` of `ops` is taken inside `level` instances.
pub open spec fn is_at_level(ops: Seq<OpView>, k: int, level: int) -> bool {
    0 <= k < ops.len() && nesting(ops.take(k)) == level
}

/// `op` registers the function `name` of the type `signature`, which `component`
/// exports from the instance `parent`.
pub open spec fn registers_function(
    component: Component,
    parent: Option<ComponentExportIndex>,
    name: Seq<char>,
    signature: SignatureTree,
    op: OpView,
) -> bool {
    op matches OpView::Func { name: registered, index, concurrent, ctx } && {
        &&& registered == name
        &&& export_index_of(component, parent, name) == Some(index)
        &&& concurrent == signature.is_async
        &&& ctx.resource == mapper_of(signature)
    }
}

/// The plan `block` is part of `ops`, from the step number `at` on.
pub open spec fn is_block(ops: Seq<OpView>, at: int, block: Seq<OpView>) -> bool {
    &&& 0 <= at
    &&& at + block.len() <= ops.len()
    &&& ops.subrange(at, at + block.len()) == block
}

/// How many of `ops` register a function.
pub open spec fn function_steps(ops: Seq<OpView>) -> nat
    decreases ops.len(),
{
    if ops.len() == 0 {
        0
    } else {
        function_steps(ops.drop_last()) + if ops.last() is Func {
            1nat
        } else {
            0nat
        }
    }
}

/// How many of `ops` register a resource type.
pub open spec fn resource_steps(ops: Seq<OpView>) -> nat
    decreases ops.len(),
{
    if ops.len() == 0 {
        0
    } else {
        resource_steps(ops.drop_last()) + if ops.last() is Resource {
            1nat
        } else {
            0nat
        }
    }
}

/// How many of `ops` go on in a nested instance.
pub open spec fn enter_steps(ops: Seq<OpView>) -> nat
    decreases ops.len(),
{
    if ops.len() == 0 {
        0
    } else {
        enter_steps(ops.drop_last()) + if ops.last() is Enter {
            1nat
        } else {
            0nat
        }
    }
}

/// What there is to register.
pub struct Tally {
    pub functions: nat,
    pub resources: nat,
    pub instances: nat,
}

/// Both together.
pub open spec fn sum(a: Tally, b: Tally) -> Tally {
    Tally {
        functions: a.functions + b.functions,
        resources: a.resources + b.resources,
        instances: a.instances + b.instances,
    }
}

/// What there is to register for an item, at any depth.
pub open spec fn tally(item: ItemTree) -> Tally
    decreases item, 0nat, 0nat,
{
    match item {
        ItemTree::Func(_) => Tally { functions: 1, resources: 0, instances: 0 },
        ItemTree::Resource(_) => Tally { functions: 0, resources: 1, instances: 0 },
        ItemTree::Instance(exports) => sum(
            tally_all(exports),
            Tally { functions: 0, resources: 0, instances: 1 },
        ),
        ItemTree::Component(imports) => tally_all(imports),
        _ => Tally { functions: 0, resources: 0, instances: 0 },
    }
}

/// What there is to register for items, at any depth.
pub open spec fn tally_all(items: Seq<(Seq<char>, ItemTree)>) -> Tally
    decreases items, 1nat, items.len(),
{
    if items.len() == 0 {
        Tally { functions: 0, resources: 0, instances: 0 }
    } else {
        sum(tally_all(items.drop_last()), tally(items.last().1))
    }
}

/// The steps of `ops` by their kinds.
pub open spec fn tally_of_steps(ops: Seq<OpView>) -> Tally {
    Tally {
        functions: function_steps(ops),
        resources: resource_steps(ops),
        instances: enter_steps(ops),
    }
}

/// An item can be linked: `component` has an export index for all its functions and
/// instances, at any depth, and none of it is a core function or a module.
pub open spec fn can_be_linked(
    component: Component,
    parent: Option<ComponentExportIndex>,
    name: Seq<char>,
    item: ItemTree,
) -> bool
    decreases item,
{
    match item {
        ItemTree::Func(_) => export_index_of(component, parent, name) is Some,
        ItemTree::Instance(exports) => export_index_of(component, parent, name) is Some && forall|
            i: int,
        |
            0 <= i < exports.len() ==> can_be_linked(
                component,
                export_index_of(component, parent, name),
                (#[trigger] exports[i]).0,
                exports[i].1,
            ),
        ItemTree::Component(imports) => forall|i: int|
            0 <= i < imports.len() ==> can_be_linked(
                component,
                parent,
                (#[trigger] imports[i]).0,
                imports[i].1,
            ),
        ItemTree::Resource(_) => true,
        ItemTree::Type => true,
        ItemTree::CoreFunc => false,
        ItemTree::Module => false,
    }
}

// ---------------------------------------------------------------------------
// Laws
// ---------------------------------------------------------------------------

/// An item is linked with success just where all of it can be.
pub proof fn linking_succeeds_where_it_can(
    component: Component,
    parent: Option<ComponentExportIndex>,
    name: Seq<char>,
    item: ItemTree,
)
    ensures
        item_plan(component, parent, name, item).outcome is Ok <==> can_be_linked(
            component,
            parent,
            name,
            item,
        ),
    decreases item, 0nat,
{
    match item {
        ItemTree::Instance(exports) => {
            if let Some(index) = export_index_of(component, parent, name) {
                lemma_items_succeed(component, Some(index), exports, false);
                lemma_resources_plan_succeeds(exports);
            }
        },
        ItemTree::Component(imports) => lemma_items_succeed(component, parent, imports, true),
        _ => {},
    }
}

/// If an item is linked with success, there are as many steps of each kind as there
/// are functions, resource types and instances in it: none is left out, and none is
/// registered twice.
pub proof fn everything_is_registered_once(
    component: Component,
    parent: Option<ComponentExportIndex>,
    name: Seq<char>,
    item: ItemTree,
)
    requires
        item_plan(component, parent, name, item).outcome is Ok,
    ensures
        tally_of_steps(item_plan(component, parent, name, item).ops) == tally(item),
    decreases item, 0nat,
{
    let ops = item_plan(component, parent, name, item).ops;
    match item {
        ItemTree::Func(_) => lemma_tally_one(ops[0]),
        ItemTree::Resource(_) => lemma_tally_one(ops[0]),
        ItemTree::Instance(exports) => {
            let index = export_index_of(component, parent, name)->0;
            let resources = resources_plan(exports).ops;
            let body = items_plan(component, Some(index), exports, false).ops;
            lemma_resources_plan_succeeds(exports);
            lemma_instance_ops(component, parent, name, exports);
            lemma_tally_one(OpView::Enter { name });
            lemma_tally_one(OpView::Leave);
            lemma_tally_append(seq![OpView::Enter { name }], resources);
            lemma_tally_append(seq![OpView::Enter { name }] + resources, body);
            lemma_tally_append(
                seq![OpView::Enter { name }] + resources + body,
                seq![OpView::Leave],
            );
            lemma_tally_resources(exports);
            lemma_tally_items(component, Some(index), exports, false);
        },
        ItemTree::Component(imports) => lemma_tally_items(component, parent, imports, true),
        _ => {},
    }
}

/// If an exported instance is linked with success, its steps stand between entering
/// and leaving it, and every function among its exports is registered inside it:
/// under its name, with the export index that the component has for it in that
/// instance, to run concurrently just if it is `async`, and with the mapper of its
/// type.
pub proof fn functions_of_an_instance_are_linked(
    component: Component,
    parent: Option<ComponentExportIndex>,
    name: Seq<char>,
    exports: Seq<(Seq<char>, ItemTree)>,
    j: int,
)
    requires
        item_plan(component, parent, name, ItemTree::Instance(exports)).outcome is Ok,
        0 <= j < exports.len(),
        exports[j].1 is Func,
    ensures
        ({
            let ops = item_plan(component, parent, name, ItemTree::Instance(exports)).ops;
            let index = export_index_of(component, parent, name);
            &&& index is Some
            &&& ops[0] == (OpView::Enter { name })
            &&& ops.last() == OpView::Leave
            &&& exists|k: int|
                #![trigger ops[k]]
                is_at_level(ops, k, 1) && registers_function(
                    component,
                    index,
                    exports[j].0,
                    exports[j].1->Func_0,
                    ops[k],
                )
        }),
{
    let at = lemma_instance_block(component, parent, name, exports, j);
    let ops = item_plan(component, parent, name, ItemTree::Instance(exports)).ops;
    let index = export_index_of(component, parent, name)->0;
    lemma_instance_ops(component, parent, name, exports);
    let block = item_plan(component, Some(index), exports[j].0, exports[j].1).ops;
    assert(block.len() == 1);
    assert(ops.subrange(at, at + 1)[0] == ops[at]);
}

/// If an exported instance is linked with success, a function among its exports is
/// registered only once inside it, provided that no two exports have the same name
/// and that none of them is a component, which would stand for its imports.
pub proof fn functions_of_an_instance_are_linked_once(
    component: Component,
    parent: Option<ComponentExportIndex>,
    name: Seq<char>,
    exports: Seq<(Seq<char>, ItemTree)>,
    a: int,
    b: int,
)
    requires
        item_plan(component, parent, name, ItemTree::Instance(exports)).outcome is Ok,
        entry_names(exports).no_duplicates(),
        forall|i: int| 0 <= i < exports.len() ==> !((#[trigger] exports[i]).1 is Component),
        is_at_level(item_plan(component, parent, name, ItemTree::Instance(exports)).ops, a, 1),
        is_at_level(item_plan(component, parent, name, ItemTree::Instance(exports)).ops, b, 1),
        item_plan(component, parent, name, ItemTree::Instance(exports)).ops[a] is Func,
        item_plan(component, parent, name, ItemTree::Instance(exports)).ops[b] is Func,
        item_plan(component, parent, name, ItemTree::Instance(exports)).ops[a]->Func_name
            == item_plan(component, parent, name, ItemTree::Instance(exports)).ops[b]->Func_name,
    ensures
        a == b,
{
    let i = lemma_instance_function(component, parent, name, exports, a);
    let j = lemma_instance_function(component, parent, name, exports, b);
    assert(entry_names(exports)[i] == entry_names(exports)[j]);
}

/// If an exported instance is linked with success, every resource type among its
/// exports is registered inside it, under its name.
pub proof fn resources_of_an_instance_are_linked(
    component: Component,
    parent: Option<ComponentExportIndex>,
    name: Seq<char>,
    exports: Seq<(Seq<char>, ItemTree)>,
    j: int,
    ty: ResourceType,
)
    requires
        item_plan(component, parent, name, ItemTree::Instance(exports)).outcome is Ok,
        0 <= j < exports.len(),
        exports[j].1 == ItemTree::Resource(ty),
    ensures
        ({
            let ops = item_plan(component, parent, name, ItemTree::Instance(exports)).ops;
            exists|k: int|
                #![trigger ops[k]]
                is_at_level(ops, k, 1) && ops[k] == (OpView::Resource { name: exports[j].0, ty })
        }),
{
    let ops = item_plan(component, parent, name, ItemTree::Instance(exports)).ops;
    let enter = seq![OpView::Enter { name }];
    let resources = resources_plan(exports).ops;
    lemma_instance_ops(component, parent, name, exports);
    let at = lemma_resource_step(exports, j);
    assert(ops[1 + at] == resources[at]);
    assert(ops.take(1 + at) =~= enter + resources.take(at));
    lemma_nesting_append(enter, resources.take(at));
    lemma_nesting_one(OpView::Enter { name });
    lemma_resources_level(exports, at);
}

/// If an exported instance is linked with success, so is every instance among its
/// exports, with all its steps, inside it.
pub proof fn instances_of_an_instance_are_linked(
    component: Component,
    parent: Option<ComponentExportIndex>,
    name: Seq<char>,
    exports: Seq<(Seq<char>, ItemTree)>,
    j: int,
)
    requires
        item_plan(component, parent, name, ItemTree::Instance(exports)).outcome is Ok,
        0 <= j < exports.len(),
        exports[j].1 is Instance,
    ensures
        ({
            let ops = item_plan(component, parent, name, ItemTree::Instance(exports)).ops;
            let inner = item_plan(
                component,
                export_index_of(component, parent, name),
                exports[j].0,
                exports[j].1,
            );
            &&& inner.outcome is Ok
            &&& inner.ops.len() >= 2
            &&& exists|at: int| #[trigger]
                is_block(ops, at, inner.ops) && nesting(ops.take(at)) == 1
        }),
{
    let at = lemma_instance_block(component, parent, name, exports, j);
    let index = export_index_of(component, parent, name)->0;
    lemma_instance_ops(component, parent, name, exports);
    lemma_instance_ops(component, Some(index), exports[j].0, exports[j].1->Instance_0);
}

/// A function that is exported by itself is registered by a single step, if the
/// component has an export index for it.
pub proof fn functions_are_linked(
    component: Component,
    parent: Option<ComponentExportIndex>,
    name: Seq<char>,
    signature: SignatureTree,
)
    requires
        export_index_of(component, parent, name) is Some,
    ensures
        ({
            let plan = item_plan(component, parent, name, ItemTree::Func(signature));
            &&& plan.outcome is Ok
            &&& plan.ops.len() == 1
            &&& registers_function(component, parent, name, signature, plan.ops[0])
        }),
{
}

/// A component stands for its imports: if it is linked with success, each of them is,
/// with all its steps.
pub proof fn imports_of_a_component_are_linked(
    component: Component,
    parent: Option<ComponentExportIndex>,
    name: Seq<char>,
    imports: Seq<(Seq<char>, ItemTree)>,
    j: int,
)
    requires
        item_plan(component, parent, name, ItemTree::Component(imports)).outcome is Ok,
        0 <= j < imports.len(),
    ensures
        ({
            let ops = item_plan(component, parent, name, ItemTree::Component(imports)).ops;
            let inner = item_plan(component, parent, imports[j].0, imports[j].1);
            &&& inner.outcome is Ok
            &&& exists|at: int| #[trigger]
                is_block(ops, at, inner.ops) && nesting(ops.take(at)) == 0
        }),
{
    lemma_items_block(component, parent, imports, true, j);
    let at = items_plan(component, parent, imports.take(j), true).ops.len() as int;
    let inner = item_plan(component, parent, imports[j].0, imports[j].1);
    assert(is_block(items_plan(component, parent, imports, true).ops, at, inner.ops));
}

// ---------------------------------------------------------------------------
// Lemmas
// ---------------------------------------------------------------------------

/// The steps of an instance that is linked with success.
proof fn lemma_instance_ops(
    component: Component,
    parent: Option<ComponentExportIndex>,
    name: Seq<char>,
    exports: Seq<(Seq<char>, ItemTree)>,
)
    requires
        item_plan(component, parent, name, ItemTree::Instance(exports)).outcome is Ok,
    ensures
        export_index_of(component, parent, name) is Some,
        items_plan(
            component,
            export_index_of(component, parent, name),
            exports,
            false,
        ).outcome is Ok,
        item_plan(component, parent, name, ItemTree::Instance(exports)).ops == seq![
            OpView::Enter { name },
        ] + resources_plan(exports).ops + items_plan(
            component,
            export_index_of(component, parent, name),
            exports,
            false,
        ).ops + seq![OpView::Leave],
{
    lemma_resources_plan_succeeds(exports);
    let index = export_index_of(component, parent, name)->0;
    let enter = seq![OpView::Enter { name }];
    let leave = seq![OpView::Leave];
    let resources = resources_plan(exports).ops;
    let body = items_plan(component, Some(index), exports, false).ops;
    assert(enter + (resources + (body + leave)) =~= enter + resources + body + leave);
}

/// Where the steps of an export of an instance are.
proof fn lemma_instance_block(
    component: Component,
    parent: Option<ComponentExportIndex>,
    name: Seq<char>,
    exports: Seq<(Seq<char>, ItemTree)>,
    j: int,
) -> (at: int)
    requires
        item_plan(component, parent, name, ItemTree::Instance(exports)).outcome is Ok,
        0 <= j < exports.len(),
        !(exports[j].1 is Resource),
    ensures
        export_index_of(component, parent, name) is Some,
        ({
            let ops = item_plan(component, parent, name, ItemTree::Instance(exports)).ops;
            let inner = item_plan(
                component,
                export_index_of(component, parent, name),
                exports[j].0,
                exports[j].1,
            );
            &&& inner.outcome is Ok
            &&& is_block(ops, at, inner.ops)
            &&& nesting(ops.take(at)) == 1
        }),
{
    lemma_instance_ops(component, parent, name, exports);
    let index = export_index_of(component, parent, name);
    let ops = item_plan(component, parent, name, ItemTree::Instance(exports)).ops;
    let enter = seq![OpView::Enter { name }];
    let resources = resources_plan(exports).ops;
    let body = items_plan(component, index, exports, false).ops;
    lemma_items_block(component, index, exports, false, j);
    let inside = items_plan(component, index, exports.take(j), false).ops.len() as int;
    let inner = item_plan(component, index, exports[j].0, exports[j].1).ops;
    let at = 1 + resources.len() + inside;
    assert(ops.subrange(at, at + inner.len()) =~= body.subrange(inside, inside + inner.len()));
    assert(ops.take(at) =~= enter + resources + body.take(inside));
    lemma_nesting_append(enter + resources, body.take(inside));
    lemma_nesting_append(enter, resources);
    lemma_nesting_one(OpView::Enter { name });
    lemma_resources_level(exports, resources.len() as int);
    assert(resources.take(resources.len() as int) =~= resources);
    at
}

/// Which export of an instance a function is that is registered inside it.
proof fn lemma_instance_function(
    component: Component,
    parent: Option<ComponentExportIndex>,
    name: Seq<char>,
    exports: Seq<(Seq<char>, ItemTree)>,
    k: int,
) -> (j: int)
    requires
        item_plan(component, parent, name, ItemTree::Instance(exports)).outcome is Ok,
        forall|i: int| 0 <= i < exports.len() ==> !((#[trigger] exports[i]).1 is Component),
        is_at_level(item_plan(component, parent, name, ItemTree::Instance(exports)).ops, k, 1),
        item_plan(component, parent, name, ItemTree::Instance(exports)).ops[k] is Func,
    ensures
        0 <= j < exports.len(),
        exports[j].0 == item_plan(
            component,
            parent,
            name,
            ItemTree::Instance(exports),
        ).ops[k]->Func_name,
        k == 1 + resources_plan(exports).ops.len() + items_plan(
            component,
            export_index_of(component, parent, name),
            exports.take(j),
            false,
        ).ops.len(),
{
    lemma_instance_ops(component, parent, name, exports);
    let index = export_index_of(component, parent, name);
    let ops = item_plan(component, parent, name, ItemTree::Instance(exports)).ops;
    let enter = seq![OpView::Enter { name }];
    let resources = resources_plan(exports).ops;
    let body = items_plan(component, index, exports, false).ops;
    if 1 <= k <= resources.len() {
        assert(ops[k] == resources[k - 1]);
        lemma_only_resources(exports, k - 1);
    }
    assert(k > resources.len());
    let inside = k - 1 - resources.len();
    assert(inside < body.len());
    assert(ops[k] == body[inside]);
    assert(ops.take(k) =~= enter + resources + body.take(inside));
    lemma_nesting_append(enter + resources, body.take(inside));
    lemma_nesting_append(enter, resources);
    lemma_nesting_one(OpView::Enter { name });
    lemma_resources_level(exports, resources.len() as int);
    assert(resources.take(resources.len() as int) =~= resources);
    lemma_items_cover(component, index, exports, false, inside)
}

/// Which of `items` a function is that is registered at their level.
proof fn lemma_items_cover(
    component: Component,
    parent: Option<ComponentExportIndex>,
    items: Seq<(Seq<char>, ItemTree)>,
    resources: bool,
    k: int,
) -> (j: int)
    requires
        items_plan(component, parent, items, resources).outcome is Ok,
        forall|i: int| 0 <= i < items.len() ==> !((#[trigger] items[i]).1 is Component),
        is_at_level(items_plan(component, parent, items, resources).ops, k, 0),
        items_plan(component, parent, items, resources).ops[k] is Func,
    ensures
        0 <= j < items.len(),
        items[j].0 == items_plan(component, parent, items, resources).ops[k]->Func_name,
        k == items_plan(component, parent, items.take(j), resources).ops.len(),
    decreases items.len(),
{
    let ops = items_plan(component, parent, items, resources).ops;
    let init = items.drop_last();
    let before = items_plan(component, parent, init, resources).ops;
    let last = items.last();
    assert(items[items.len() - 1] == last);
    if k < before.len() {
        assert(ops[k] == before[k]);
        assert(ops.take(k) =~= before.take(k));
        assert forall|i: int| 0 <= i < init.len() implies !((#[trigger] init[i]).1 is Component) by {
            assert(init[i] == items[i]);
        }
        let j = lemma_items_cover(component, parent, init, resources, k);
        assert(init.take(j) =~= items.take(j));
        j
    } else {
        let block = item_plan(component, parent, last.0, last.1).ops;
        let inside = k - before.len();
        assert(ops =~= before + block);
        assert(ops[k] == block[inside]);
        assert(ops.take(k) =~= before + block.take(inside));
        lemma_nesting_append(before, block.take(inside));
        lemma_items_level(component, parent, init, resources);
        if last.1 is Instance {
            lemma_instance_inside(component, parent, last.0, last.1->Instance_0, inside);
        }
        assert(items.take(items.len() - 1) =~= init);
        items.len() - 1
    }
}

/// Inside an instance, the level is above that outside.
proof fn lemma_instance_inside(
    component: Component,
    parent: Option<ComponentExportIndex>,
    name: Seq<char>,
    exports: Seq<(Seq<char>, ItemTree)>,
    k: int,
)
    requires
        item_plan(component, parent, name, ItemTree::Instance(exports)).outcome is Ok,
        0 < k < item_plan(component, parent, name, ItemTree::Instance(exports)).ops.len(),
    ensures
        nesting(
            item_plan(component, parent, name, ItemTree::Instance(exports)).ops.take(k),
        ) >= 1,
    decreases exports, 2nat,
{
    lemma_instance_ops(component, parent, name, exports);
    let index = export_index_of(component, parent, name);
    let ops = item_plan(component, parent, name, ItemTree::Instance(exports)).ops;
    let enter = seq![OpView::Enter { name }];
    let resources = resources_plan(exports).ops;
    let body = items_plan(component, index, exports, false).ops;
    lemma_nesting_one(OpView::Enter { name });
    if k <= 1 + resources.len() {
        assert(ops.take(k) =~= enter + resources.take(k - 1));
        lemma_nesting_append(enter, resources.take(k - 1));
        lemma_resources_level(exports, k - 1);
    } else {
        let inside = k - 1 - resources.len();
        assert(ops.take(k) =~= enter + resources + body.take(inside));
        lemma_nesting_append(enter + resources, body.take(inside));
        lemma_nesting_append(enter, resources);
        lemma_resources_level(exports, resources.len() as int);
        assert(resources.take(resources.len() as int) =~= resources);
        lemma_items_above(component, index, exports, false, inside);
    }
}

/// Steps of items never leave the level at which they began.
proof fn lemma_items_above(
    component: Component,
    parent: Option<ComponentExportIndex>,
    items: Seq<(Seq<char>, ItemTree)>,
    resources: bool,
    k: int,
)
    requires
        items_plan(component, parent, items, resources).outcome is Ok,
        0 <= k <= items_plan(component, parent, items, resources).ops.len(),
    ensures
        nesting(items_plan(component, parent, items, resources).ops.take(k)) >= 0,
    decreases items, 1nat, items.len(),
{
    let ops = items_plan(component, parent, items, resources).ops;
    if items.len() == 0 {
        assert(ops.take(k) =~= Seq::empty());
    } else {
        let init = items.drop_last();
        let before = items_plan(component, parent, init, resources).ops;
        let last = items.last();
        if k <= before.len() {
            assert(ops.take(k) =~= before.take(k));
            lemma_items_above(component, parent, init, resources, k);
        } else {
            let block = item_plan(component, parent, last.0, last.1).ops;
            let inside = k - before.len();
            assert(ops.take(k) =~= before + block.take(inside));
            lemma_nesting_append(before, block.take(inside));
            lemma_items_level(component, parent, init, resources);
            lemma_item_above(component, parent, last.0, last.1, inside);
        }
    }
}

/// Steps of an item never leave the level at which they began.
proof fn lemma_item_above(
    component: Component,
    parent: Option<ComponentExportIndex>,
    name: Seq<char>,
    item: ItemTree,
    k: int,
)
    requires
        item_plan(component, parent, name, item).outcome is Ok,
        0 <= k <= item_plan(component, parent, name, item).ops.len(),
    ensures
        nesting(item_plan(component, parent, name, item).ops.take(k)) >= 0,
    decreases item, 0nat, 0nat,
{
    let ops = item_plan(component, parent, name, item).ops;
    if k == ops.len() {
        assert(ops.take(k) =~= ops);
        lemma_item_level(component, parent, name, item);
    } else if k == 0 {
        assert(ops.take(k) =~= Seq::empty());
    } else {
        match item {
            ItemTree::Instance(exports) => lemma_instance_inside(
                component,
                parent,
                name,
                exports,
                k,
            ),
            ItemTree::Component(imports) => lemma_items_above(
                component,
                parent,
                imports,
                true,
                k,
            ),
            _ => {},
        }
    }
}

/// An item that is linked with success ends at the level at which it began.
proof fn lemma_item_level(
    component: Component,
    parent: Option<ComponentExportIndex>,
    name: Seq<char>,
    item: ItemTree,
)
    requires
        item_plan(component, parent, name, item).outcome is Ok,
    ensures
        nesting(item_plan(component, parent, name, item).ops) == 0,
    decreases item, 0nat, 0nat,
{
    let ops = item_plan(component, parent, name, item).ops;
    match item {
        ItemTree::Func(_) => lemma_nesting_one(ops[0]),
        ItemTree::Resource(_) => lemma_nesting_one(ops[0]),
        ItemTree::Instance(exports) => {
            lemma_instance_ops(component, parent, name, exports);
            let index = export_index_of(component, parent, name);
            let enter = seq![OpView::Enter { name }];
            let resources = resources_plan(exports).ops;
            let body = items_plan(component, index, exports, false).ops;
            lemma_nesting_append(enter, resources);
            lemma_nesting_append(enter + resources, body);
            lemma_nesting_append(enter + resources + body, seq![OpView::Leave]);
            lemma_nesting_one(OpView::Enter { name });
            lemma_nesting_one(OpView::Leave);
            lemma_resources_level(exports, resources.len() as int);
            assert(resources.take(resources.len() as int) =~= resources);
            lemma_items_level(component, index, exports, false);
        },
        ItemTree::Component(imports) => lemma_items_level(component, parent, imports, true),
        _ => {},
    }
}

/// Items that are linked with success end at the level at which they began.
proof fn lemma_items_level(
    component: Component,
    parent: Option<ComponentExportIndex>,
    items: Seq<(Seq<char>, ItemTree)>,
    resources: bool,
)
    requires
        items_plan(component, parent, items, resources).outcome is Ok,
    ensures
        nesting(items_plan(component, parent, items, resources).ops) == 0,
    decreases items, 1nat, items.len(),
{
    if items.len() > 0 {
        let init = items.drop_last();
        let before = items_plan(component, parent, init, resources).ops;
        let last = items.last();
        lemma_items_level(component, parent, init, resources);
        if last.1 is Resource && !resources {
            assert(before + nothing().ops =~= before);
        } else {
            lemma_item_level(component, parent, last.0, last.1);
            lemma_nesting_append(before, item_plan(component, parent, last.0, last.1).ops);
        }
    }
}

/// Where the steps of one of `items` are.
proof fn lemma_items_block(
    component: Component,
    parent: Option<ComponentExportIndex>,
    items: Seq<(Seq<char>, ItemTree)>,
    resources: bool,
    j: int,
)
    requires
        items_plan(component, parent, items, resources).outcome is Ok,
        0 <= j < items.len(),
        resources || !(items[j].1 is Resource),
    ensures
        ({
            let ops = items_plan(component, parent, items, resources).ops;
            let at = items_plan(component, parent, items.take(j), resources).ops.len() as int;
            let inner = item_plan(component, parent, items[j].0, items[j].1);
            &&& inner.outcome is Ok
            &&& is_block(ops, at, inner.ops)
            &&& nesting(ops.take(at)) == 0
        }),
    decreases items.len(),
{
    let ops = items_plan(component, parent, items, resources).ops;
    let init = items.drop_last();
    let before = items_plan(component, parent, init, resources).ops;
    let inner = item_plan(component, parent, items[j].0, items[j].1);
    if j < items.len() - 1 {
        assert(init[j] == items[j]);
        assert(init.take(j) =~= items.take(j));
        lemma_items_block(component, parent, init, resources, j);
        let at = items_plan(component, parent, items.take(j), resources).ops.len() as int;
        assert(ops.subrange(at, at + inner.ops.len()) =~= before.subrange(
            at,
            at + inner.ops.len(),
        ));
        assert(ops.take(at) =~= before.take(at));
    } else {
        assert(items.take(j) =~= init);
        let at = before.len() as int;
        assert(ops.subrange(at, at + inner.ops.len()) =~= inner.ops);
        assert(ops.take(at) =~= before);
        lemma_items_level(component, parent, init, resources);
    }
}

/// Items are linked with success just where each of them can be.
proof fn lemma_items_succeed(
    component: Component,
    parent: Option<ComponentExportIndex>,
    items: Seq<(Seq<char>, ItemTree)>,
    resources: bool,
)
    ensures
        items_plan(component, parent, items, resources).outcome is Ok <==> forall|i: int|
            0 <= i < items.len() ==> can_be_linked(
                component,
                parent,
                (#[trigger] items[i]).0,
                items[i].1,
            ),
    decreases items, 1nat,
{
    if items.len() > 0 {
        let init = items.drop_last();
        let last = items.last();
        lemma_items_succeed(component, parent, init, resources);
        linking_succeeds_where_it_can(component, parent, last.0, last.1);
        assert(items[items.len() - 1] == last);
        assert(forall|i: int| 0 <= i < init.len() ==> init[i] == items[i]);
    }
}

proof fn lemma_nesting_one(op: OpView)
    ensures
        nesting(seq![op]) == match op {
            OpView::Enter { .. } => 1int,
            OpView::Leave => -1int,
            _ => 0int,
        },
{
    assert(seq![op].drop_last() =~= Seq::empty());
    reveal_with_fuel(nesting, 2);
}

proof fn lemma_nesting_append(p: Seq<OpView>, q: Seq<OpView>)
    ensures
        nesting(p + q) == nesting(p) + nesting(q),
    decreases q.len(),
{
    if q.len() == 0 {
        assert(p + q =~= p);
    } else {
        lemma_nesting_append(p, q.drop_last());
        assert((p + q).drop_last() =~= p + q.drop_last());
    }
}

/// Registering resource types stays at the same level.
proof fn lemma_resources_level(items: Seq<(Seq<char>, ItemTree)>, k: int)
    requires
        0 <= k <= resources_plan(items).ops.len(),
    ensures
        nesting(resources_plan(items).ops.take(k)) == 0,
    decreases k,
{
    let ops = resources_plan(items).ops;
    if k == 0 {
        assert(ops.take(k) =~= Seq::empty());
    } else {
        lemma_resources_level(items, k - 1);
        lemma_only_resources(items, k - 1);
        assert(ops.take(k).drop_last() =~= ops.take(k - 1));
    }
}

proof fn lemma_only_resources(items: Seq<(Seq<char>, ItemTree)>, k: int)
    requires
        0 <= k < resources_plan(items).ops.len(),
    ensures
        resources_plan(items).ops[k] is Resource,
    decreases items.len(),
{
    if items.len() > 0 {
        let init = items.drop_last();
        lemma_resources_plan_succeeds(init);
        let before = resources_plan(init).ops;
        if k < before.len() {
            lemma_only_resources(init, k);
            assert(resources_plan(items).ops[k] == before[k]);
        }
    }
}

/// Where a resource type is registered.
proof fn lemma_resource_step(items: Seq<(Seq<char>, ItemTree)>, j: int) -> (at: int)
    requires
        0 <= j < items.len(),
        items[j].1 is Resource,
    ensures
        0 <= at < resources_plan(items).ops.len(),
        resources_plan(items).ops[at] == (OpView::Resource {
            name: items[j].0,
            ty: items[j].1->Resource_0,
        }),
    decreases items.len(),
{
    let init = items.drop_last();
    lemma_resources_plan_succeeds(init);
    let before = resources_plan(init).ops;
    if j < items.len() - 1 {
        assert(init[j] == items[j]);
        let at = lemma_resource_step(init, j);
        assert(resources_plan(items).ops[at] == before[at]);
        at
    } else {
        before.len() as int
    }
}

proof fn lemma_tally_one(op: OpView)
    ensures
        tally_of_steps(seq![op]) == (Tally {
            functions: if op is Func {
                1
            } else {
                0
            },
            resources: if op is Resource {
                1
            } else {
                0
            },
            instances: if op is Enter {
                1
            } else {
                0
            },
        }),
{
    assert(seq![op].drop_last() =~= Seq::empty());
    reveal_with_fuel(function_steps, 2);
    reveal_with_fuel(resource_steps, 2);
    reveal_with_fuel(enter_steps, 2);
}

proof fn lemma_tally_append(p: Seq<OpView>, q: Seq<OpView>)
    ensures
        tally_of_steps(p + q) == sum(tally_of_steps(p), tally_of_steps(q)),
    decreases q.len(),
{
    if q.len() == 0 {
        assert(p + q =~= p);
    } else {
        lemma_tally_append(p, q.drop_last());
        assert((p + q).drop_last() =~= p + q.drop_last());
    }
}

/// How many of `items` are resource types.
spec fn resources_among(items: Seq<(Seq<char>, ItemTree)>) -> nat
    decreases items.len(),
{
    if items.len() == 0 {
        0
    } else {
        resources_among(items.drop_last()) + if items.last().1 is Resource {
            1nat
        } else {
            0nat
        }
    }
}

proof fn lemma_tally_resources(items: Seq<(Seq<char>, ItemTree)>)
    ensures
        tally_of_steps(resources_plan(items).ops) == (Tally {
            functions: 0,
            resources: resources_among(items),
            instances: 0,
        }),
    decreases items.len(),
{
    if items.len() > 0 {
        let init = items.drop_last();
        lemma_tally_resources(init);
        lemma_resources_plan_succeeds(init);
        let before = resources_plan(init).ops;
        match items.last().1 {
            ItemTree::Resource(ty) => {
                let op = OpView::Resource { name: items.last().0, ty };
                lemma_tally_one(op);
                lemma_tally_append(before, seq![op]);
            },
            _ => {
                assert(before + nothing().ops =~= before);
            },
        }
    }
}

proof fn lemma_tally_items(
    component: Component,
    parent: Option<ComponentExportIndex>,
    items: Seq<(Seq<char>, ItemTree)>,
    resources: bool,
)
    requires
        items_plan(component, parent, items, resources).outcome is Ok,
    ensures
        sum(
            tally_of_steps(items_plan(component, parent, items, resources).ops),
            Tally {
                functions: 0,
                resources: if resources {
                    0
                } else {
                    resources_among(items)
                },
                instances: 0,
            },
        ) == tally_all(items),
    decreases items, 1nat,
{
    if items.len() > 0 {
        let init = items.drop_last();
        let before = items_plan(component, parent, init, resources).ops;
        let last = items.last();
        lemma_tally_items(component, parent, init, resources);
        if last.1 is Resource && !resources {
            assert(before + nothing().ops =~= before);
            assert(tally(last.1) == (Tally { functions: 0, resources: 1, instances: 0 }));
        } else {
            everything_is_registered_once(component, parent, last.0, last.1);
            lemma_tally_append(before, item_plan(component, parent, last.0, last.1).ops);
        }
        assert(tally_all(items) == sum(tally_all(init), tally(last.1)));
    }
}

} // verus!
