//! What holds of every linker through which exports are linked.

use vstd::prelude::*;
use wasmtime::component::{Component, ComponentExportIndex, ResourceType};

use crate::describe::ItemTree;
use crate::link::{
    and_next, item_plan, items_plan, nothing, resources_plan, single, OpView, PlanView,
};
use crate::linker::{
    abandoned, fresh_linker, next_id, numbered, recorded, registration, LinkerView,
    RegistrationView,
};
use crate::proxy::registered;
use crate::wasm::host_type;

verus! {

/// The linker `state` once the step `op` has been taken.
pub open spec fn stepped(state: LinkerView, op: OpView) -> LinkerView {
    recorded(numbered(state, op), registration(state, op))
}

/// The linker `state` once the steps `ops` have been taken, in order.
pub open spec fn run(state: LinkerView, ops: Seq<OpView>) -> LinkerView
    decreases ops.len(),
{
    if ops.len() == 0 {
        state
    } else {
        stepped(run(state, ops.drop_last()), ops.last())
    }
}

/// What is registered for the step number `k` of `ops`, where all the steps
/// before it have been taken.
pub open spec fn registered_at(state: LinkerView, ops: Seq<OpView>, k: int) -> RegistrationView {
    registration(run(state, ops.take(k)), ops[k])
}

/// The resource map `map` has an entry for `ty`.
pub open spec fn knows(map: Seq<(ResourceType, u32)>, ty: ResourceType) -> bool {
    exists|i: int| 0 <= i < map.len() && (#[trigger] map[i]).0 == ty
}

/// `later` has all the levels of `earlier`: those around the innermost level of
/// `earlier` are unchanged, and that one has at most got more resource types.
pub open spec fn grows(earlier: LinkerView, later: LinkerView) -> bool {
    let top = earlier.levels.len() - 1;
    &&& later.levels.len() >= earlier.levels.len()
    &&& forall|i: int| 0 <= i < top ==> later.levels[i] == earlier.levels[i]
    &&& earlier.levels[top].is_prefix_of(later.levels[top])
}

/// No step of `ops` loses a level or a resource type that a linker had before.
pub open spec fn steady(ops: Seq<OpView>) -> bool {
    forall|state: LinkerView, k: int|
        state.levels.len() >= 1 && 0 <= k <= ops.len() ==> grows(
            state,
            #[trigger] run(state, ops.take(k)),
        )
}

/// All of `ops` together end at the level at which they began.
pub open spec fn balanced(ops: Seq<OpView>) -> bool {
    forall|state: LinkerView|
        state.levels.len() >= 1 ==> (#[trigger] run(state, ops)).levels.len() == state.levels.len()
}

/// The number of resource types that `ops` registers.
pub open spec fn resource_count(ops: Seq<OpView>) -> nat
    decreases ops.len(),
{
    if ops.len() == 0 {
        0
    } else {
        resource_count(ops.drop_last()) + if ops.last() is Resource {
            1nat
        } else {
            0nat
        }
    }
}

/// What happens to a linker.
pub enum LinkerEvent {
    /// The step `op` is tried, and its registration succeeds or not.
    Try { op: OpView, made: bool },
    /// Linking an export is given up.
    Abandon,
}

/// The linker `state` once the step `op` has been tried: whether or not its
/// registration succeeds it is prepared, and it is recorded if it does.
pub open spec fn tried(state: LinkerView, op: OpView, made: bool) -> LinkerView {
    if made {
        stepped(state, op)
    } else {
        numbered(state, op)
    }
}

/// The linker `state` once all of `events` have happened, in order.
pub open spec fn after(state: LinkerView, events: Seq<LinkerEvent>) -> LinkerView
    decreases events.len(),
{
    if events.len() == 0 {
        state
    } else {
        let before = after(state, events.drop_last());
        match events.last() {
            LinkerEvent::Try { op, made } => tried(before, op, made),
            LinkerEvent::Abandon => abandoned(before),
        }
    }
}

/// How many resource types have been tried to register, in any instance.
pub open spec fn resources_tried(events: Seq<LinkerEvent>) -> nat
    decreases events.len(),
{
    if events.len() == 0 {
        0
    } else {
        resources_tried(events.drop_last()) + match events.last() {
            LinkerEvent::Try { op: OpView::Resource { .. }, .. } => 1nat,
            _ => 0nat,
        }
    }
}

// ---------------------------------------------------------------------------
// Laws
// ---------------------------------------------------------------------------

/// Counted from 0 over all the instances of a linker, the `k`-th resource type that
/// is tried gets the number `k`, whatever has been registered before, has failed or
/// has been given up. If it is registered, this is noted in the instance in which it
/// is and in no other; if it fails, nothing is noted.
pub proof fn the_kth_resource_type_gets_the_number_k(
    events: Seq<LinkerEvent>,
    name: Seq<char>,
    ty: ResourceType,
)
    requires
        resources_tried(events) < 0x1_0000_0000,
    ensures
        ({
            let state = after(fresh_linker(), events);
            let op = OpView::Resource { name, ty };
            let k = resources_tried(events) as u32;
            &&& registration(state, op) == (RegistrationView::Resource {
                name,
                ty,
                ty_id: k,
                host: host_type(k),
            })
            &&& tried(state, op, true).levels == state.levels.drop_last().push(
                state.levels.last().push((ty, k)),
            )
            &&& tried(state, op, false).levels == state.levels
        }),
{
    lemma_numbers_used(events);
}

/// The number of the next resource type is how many have been tried.
proof fn lemma_numbers_used(events: Seq<LinkerEvent>)
    requires
        resources_tried(events) < 0x1_0000_0000,
    ensures
        after(fresh_linker(), events).next_ty_id == resources_tried(events),
    decreases events.len(),
{
    if events.len() > 0 {
        lemma_numbers_used(events.drop_last());
    }
}

/// What is registered for a step is what the step says, with nothing changed but what
/// the linker adds: to a function the resource types that its instance knows, to a
/// resource type its number.
pub proof fn registrations_are_what_the_steps_say(state: LinkerView, op: OpView)
    ensures
        match (op, registration(state, op)) {
            (
                OpView::Func { name, index, concurrent, ctx },
                RegistrationView::Func {
                    name: as_name,
                    index: at,
                    concurrent: as_concurrent,
                    ctx: with,
                },
            ) => {
                &&& as_name == name
                &&& at == index
                &&& as_concurrent == concurrent
                &&& with.resource == ctx.resource
                &&& with.resource_map == Some(state.levels[state.levels.len() - 1])
            },
            (
                OpView::Resource { name, ty },
                RegistrationView::Resource { name: as_name, ty: as_ty, ty_id, host },
            ) => as_name == name && as_ty == ty && host == host_type(ty_id),
            (OpView::Enter { name }, RegistrationView::Enter { name: as_name }) => as_name == name,
            (OpView::Leave, RegistrationView::Leave) => true,
            _ => false,
        },
{
}

/// Linking an export with success ends in the instance in which it began. The
/// resource types known in the instances around stay as they were, and those
/// known in that instance before are still known.
pub proof fn linking_ends_where_it_began(
    component: Component,
    parent: Option<ComponentExportIndex>,
    name: Seq<char>,
    item: ItemTree,
    state: LinkerView,
)
    requires
        state.levels.len() >= 1,
        item_plan(component, parent, name, item).outcome is Ok,
    ensures
        ({
            let after = run(state, item_plan(component, parent, name, item).ops);
            after.levels.len() == state.levels.len() && grows(state, after)
        }),
{
    lemma_item_plan_steady(component, parent, name, item);
    let ops = item_plan(component, parent, name, item).ops;
    assert(ops.take(ops.len() as int) =~= ops);
}

/// A function of an exported instance is registered when all the resource types
/// of that instance are known: wherever they stand among its exports, the
/// function takes every one of them along, so that its results of these types are
/// proxied.
pub proof fn functions_know_the_resources_of_their_instance(
    component: Component,
    parent: Option<ComponentExportIndex>,
    name: Seq<char>,
    exports: Seq<(Seq<char>, ItemTree)>,
    state: LinkerView,
    k: int,
    j: int,
)
    requires
        state.levels.len() >= 1,
        0 <= k < item_plan(component, parent, name, ItemTree::Instance(exports)).ops.len(),
        item_plan(component, parent, name, ItemTree::Instance(exports)).ops[k] is Func,
        run(
            state,
            item_plan(component, parent, name, ItemTree::Instance(exports)).ops.take(k),
        ).levels.len() == state.levels.len() + 1,
        0 <= j < exports.len(),
        exports[j].1 is Resource,
    ensures
        registered_at(
            state,
            item_plan(component, parent, name, ItemTree::Instance(exports)).ops,
            k,
        ) matches RegistrationView::Func { ctx, .. } && ctx.resource_map matches Some(map)
            && registered(map, exports[j].1->Resource_0) is Some,
{
    let ops = item_plan(component, parent, name, ItemTree::Instance(exports)).ops;
    let index = crate::wasm::export_index_of(component, parent, name)->0;
    let enter = OpView::Enter { name };
    let resources = resources_plan(exports).ops;
    crate::link::lemma_resources_plan_succeeds(exports);
    let rest = and_next(
        items_plan(component, Some(index), exports, false),
        single(OpView::Leave),
    ).ops;
    assert(ops =~= seq![enter] + resources + rest);
    lemma_resources_plan_all_resources(exports);
    let inside = run(state, seq![enter]);
    assert(seq![enter].drop_last() =~= Seq::empty());
    reveal_with_fuel(run, 2);
    assert(inside.levels == state.levels.push(Seq::empty()));
    let known = run(inside, resources);
    lemma_resources_are_known(exports, inside, j);
    lemma_run_append(state, seq![enter], resources);
    assert(k > resources.len()) by {
        if k >= 1 && k <= resources.len() {
            assert(ops[k] == resources[k - 1]);
        }
    }
    let done = k - 1 - resources.len();
    assert(ops.take(k) =~= (seq![enter] + resources) + rest.take(done));
    lemma_run_append(state, seq![enter] + resources, rest.take(done));
    lemma_items_plan_steady(component, Some(index), exports, false);
    let body = items_plan(component, Some(index), exports, false).ops;
    if done <= body.len() {
        assert(rest.take(done) =~= body.take(done));
    } else {
        assert(rest[done] == ops[k]);
    }
    let now = run(state, ops.take(k));
    assert(grows(known, now));
    let top = state.levels.len() as int;
    lemma_knows_prefix(known.levels[top], now.levels[top], exports[j].1->Resource_0);
    lemma_known_is_registered(now.levels[top], exports[j].1->Resource_0);
}

/// Two resource types that are registered with the same linker get different
/// numbers, as long as there are numbers enough for all of them.
pub proof fn resource_numbers_differ(state: LinkerView, ops: Seq<OpView>, i: int, j: int)
    requires
        0 <= i < j < ops.len(),
        ops[i] is Resource,
        ops[j] is Resource,
        resource_count(ops) <= 0x1_0000_0000,
    ensures
        registered_at(state, ops, i)->Resource_ty_id != registered_at(
            state,
            ops,
            j,
        )->Resource_ty_id,
{
    lemma_number(state, ops.take(i));
    lemma_number(state, ops.take(j));
    lemma_count_prefix(ops, j + 1);
    lemma_count_prefix(ops.take(j), i + 1);
    assert(ops.take(j + 1).drop_last() =~= ops.take(j));
    assert(ops.take(j).take(i + 1) =~= ops.take(i + 1));
    assert(ops.take(i + 1).drop_last() =~= ops.take(i));
    let a = resource_count(ops.take(i));
    let b = resource_count(ops.take(j));
    assert(a < b < 0x1_0000_0000);
    let s = state.next_ty_id as int;
    assert((s + a) % 0x1_0000_0000 != (s + b) % 0x1_0000_0000) by (nonlinear_arith)
        requires
            0 <= a < b < 0x1_0000_0000,
            0 <= s < 0x1_0000_0000,
    ;
}

// ---------------------------------------------------------------------------
// Lemmas
// ---------------------------------------------------------------------------

/// Steps can be taken in two goes.
proof fn lemma_run_append(state: LinkerView, p: Seq<OpView>, q: Seq<OpView>)
    ensures
        run(state, p + q) == run(run(state, p), q),
    decreases q.len(),
{
    if q.len() == 0 {
        assert(p + q =~= p);
    } else {
        assert((p + q).drop_last() =~= p + q.drop_last());
        assert((p + q).last() == q.last());
        lemma_run_append(state, p, q.drop_last());
    }
}

proof fn lemma_grows_trans(a: LinkerView, b: LinkerView, c: LinkerView)
    requires
        a.levels.len() >= 1,
        b.levels.len() == a.levels.len(),
        grows(a, b),
        grows(b, c),
    ensures
        grows(a, c),
{
    let top = a.levels.len() - 1;
    assert(a.levels[top].is_prefix_of(c.levels[top]));
}

/// Steady and balanced steps, one after the other.
proof fn lemma_steady_append(p: Seq<OpView>, q: Seq<OpView>)
    requires
        steady(p),
        balanced(p),
        steady(q),
    ensures
        steady(p + q),
        balanced(q) ==> balanced(p + q),
{
    assert forall|state: LinkerView, k: int|
        state.levels.len() >= 1 && 0 <= k <= (p + q).len() implies grows(
        state,
        #[trigger] run(state, (p + q).take(k)),
    ) by {
        if k <= p.len() {
            assert((p + q).take(k) =~= p.take(k));
        } else {
            let done = k - p.len();
            assert((p + q).take(k) =~= p + q.take(done));
            lemma_run_append(state, p, q.take(done));
            let middle = run(state, p);
            assert(p.take(p.len() as int) =~= p);
            assert(grows(state, middle));
            assert(grows(middle, run(middle, q.take(done))));
            lemma_grows_trans(state, middle, run(middle, q.take(done)));
        }
    }
    if balanced(q) {
        assert forall|state: LinkerView| state.levels.len() >= 1 implies (#[trigger] run(
            state,
            p + q,
        )).levels.len() == state.levels.len() by {
            lemma_run_append(state, p, q);
            assert(run(run(state, p), q).levels.len() == run(state, p).levels.len());
        }
    }
}

proof fn lemma_nothing_steady()
    ensures
        steady(Seq::empty()),
        balanced(Seq::empty()),
{
    assert forall|state: LinkerView, k: int|
        state.levels.len() >= 1 && 0 <= k <= Seq::<OpView>::empty().len() implies grows(
        state,
        #[trigger] run(state, Seq::<OpView>::empty().take(k)),
    ) by {
        assert(Seq::<OpView>::empty().take(k) =~= Seq::empty());
    }
}

proof fn lemma_single_steady(op: OpView)
    requires
        op is Func || op is Resource,
    ensures
        steady(seq![op]),
        balanced(seq![op]),
{
    assert(seq![op].drop_last() =~= Seq::empty());
    reveal_with_fuel(run, 2);
    assert forall|state: LinkerView, k: int|
        state.levels.len() >= 1 && 0 <= k <= seq![op].len() implies grows(
        state,
        #[trigger] run(state, seq![op].take(k)),
    ) by {
        if k == 0 {
            assert(seq![op].take(k) =~= Seq::empty());
        } else {
            assert(seq![op].take(k) =~= seq![op]);
            assert(run(state, seq![op]) == stepped(state, op));
        }
    }
    assert forall|state: LinkerView| state.levels.len() >= 1 implies (#[trigger] run(
        state,
        seq![op],
    )).levels.len() == state.levels.len() by {
        assert(run(state, seq![op]) == stepped(state, op));
    }
}

/// Steps inside a nested instance are steady from outside, whether they come to
/// the end of that instance or not.
proof fn lemma_nested_steady(name: Seq<char>, body: Seq<OpView>)
    requires
        steady(body),
    ensures
        steady(seq![OpView::Enter { name }] + body),
        balanced(body) ==> steady(seq![OpView::Enter { name }] + body + seq![OpView::Leave]),
        balanced(body) ==> balanced(seq![OpView::Enter { name }] + body + seq![OpView::Leave]),
{
    let enter = seq![OpView::Enter { name }];
    let leave = seq![OpView::Leave];
    reveal_with_fuel(run, 2);
    assert(enter.drop_last() =~= Seq::empty());
    assert(leave.drop_last() =~= Seq::empty());
    assert forall|state: LinkerView, k: int|
        state.levels.len() >= 1 && 0 <= k <= (enter + body).len() implies grows(
        state,
        #[trigger] run(state, (enter + body).take(k)),
    ) by {
        if k == 0 {
            assert((enter + body).take(k) =~= Seq::empty());
        } else {
            assert((enter + body).take(k) =~= enter + body.take(k - 1));
            lemma_run_append(state, enter, body.take(k - 1));
            let inside = run(state, enter);
            assert(inside == stepped(state, OpView::Enter { name }));
            let now = run(inside, body.take(k - 1));
            assert(grows(inside, now));
            let top = state.levels.len() - 1;
            assert(now.levels[top] == inside.levels[top]);
        }
    }
    if balanced(body) {
        let all = enter + body + leave;
        assert forall|state: LinkerView| state.levels.len() >= 1 implies (#[trigger] run(
            state,
            all,
        )).levels.len() == state.levels.len() && grows(state, run(state, all)) by {
            lemma_run_append(state, enter + body, leave);
            lemma_run_append(state, enter, body);
            let inside = run(state, enter);
            assert(inside == stepped(state, OpView::Enter { name }));
            let before = run(inside, body);
            assert(body.take(body.len() as int) =~= body);
            assert(grows(inside, before));
            assert(before.levels.len() == inside.levels.len());
            assert(run(state, all) == stepped(before, OpView::Leave));
            let top = state.levels.len() - 1;
            assert(before.levels[top] == inside.levels[top]);
        }
        assert forall|state: LinkerView, k: int|
            state.levels.len() >= 1 && 0 <= k <= all.len() implies grows(
            state,
            #[trigger] run(state, all.take(k)),
        ) by {
            if k < all.len() {
                assert(all.take(k) =~= (enter + body).take(k));
            } else {
                assert(all.take(k) =~= all);
            }
        }
    }
}

/// One plan after another.
proof fn lemma_next_steady(p: PlanView, q: PlanView)
    requires
        steady(p.ops),
        p.outcome is Ok ==> balanced(p.ops),
        steady(q.ops),
        q.outcome is Ok ==> balanced(q.ops),
    ensures
        steady(and_next(p, q).ops),
        and_next(p, q).outcome is Ok ==> balanced(and_next(p, q).ops),
{
    if p.outcome is Ok {
        lemma_steady_append(p.ops, q.ops);
    }
}

proof fn lemma_resources_plan_steady(items: Seq<(Seq<char>, ItemTree)>)
    ensures
        steady(resources_plan(items).ops),
        balanced(resources_plan(items).ops),
    decreases items.len(),
{
    crate::link::lemma_resources_plan_succeeds(items);
    lemma_nothing_steady();
    if items.len() > 0 {
        lemma_resources_plan_steady(items.drop_last());
        let last = match items.last().1 {
            ItemTree::Resource(ty) => single(OpView::Resource { name: items.last().0, ty }),
            _ => nothing(),
        };
        if let ItemTree::Resource(ty) = items.last().1 {
            lemma_single_steady(OpView::Resource { name: items.last().0, ty });
        }
        lemma_next_steady(resources_plan(items.drop_last()), last);
    }
}

proof fn lemma_items_plan_steady(
    component: Component,
    parent: Option<ComponentExportIndex>,
    items: Seq<(Seq<char>, ItemTree)>,
    resources: bool,
)
    ensures
        steady(items_plan(component, parent, items, resources).ops),
        items_plan(component, parent, items, resources).outcome is Ok ==> balanced(
            items_plan(component, parent, items, resources).ops,
        ),
    decreases items, 1nat, items.len(),
{
    lemma_nothing_steady();
    if items.len() > 0 {
        lemma_items_plan_steady(component, parent, items.drop_last(), resources);
        let last = if items.last().1 is Resource && !resources {
            nothing()
        } else {
            item_plan(component, parent, items.last().0, items.last().1)
        };
        lemma_item_plan_steady(component, parent, items.last().0, items.last().1);
        lemma_next_steady(items_plan(component, parent, items.drop_last(), resources), last);
    }
}

proof fn lemma_item_plan_steady(
    component: Component,
    parent: Option<ComponentExportIndex>,
    name: Seq<char>,
    item: ItemTree,
)
    ensures
        steady(item_plan(component, parent, name, item).ops),
        item_plan(component, parent, name, item).outcome is Ok ==> balanced(
            item_plan(component, parent, name, item).ops,
        ),
    decreases item, 0nat, 0nat,
{
    lemma_nothing_steady();
    let plan = item_plan(component, parent, name, item);
    match item {
        ItemTree::Func(_) => {
            if plan.ops.len() > 0 {
                lemma_single_steady(plan.ops[0]);
            }
        },
        ItemTree::Instance(exports) => {
            if let Some(index) = crate::wasm::export_index_of(component, parent, name) {
                lemma_items_plan_steady(component, Some(index), exports, false);
                lemma_resources_plan_steady(exports);
                crate::link::lemma_resources_plan_succeeds(exports);
                let resources = resources_plan(exports);
                let rest = items_plan(component, Some(index), exports, false);
                lemma_next_steady(resources, rest);
                let body = resources.ops + rest.ops;
                lemma_nested_steady(name, body);
                if rest.outcome is Ok {
                    assert(plan.ops =~= seq![OpView::Enter { name }] + body + seq![OpView::Leave]);
                } else {
                    assert(plan.ops =~= seq![OpView::Enter { name }] + body);
                }
            }
        },
        ItemTree::Component(imports) => {
            lemma_items_plan_steady(component, parent, imports, true);
        },
        ItemTree::Resource(ty) => {
            lemma_single_steady(OpView::Resource { name, ty });
        },
        _ => {},
    }
}

/// The steps for resource types are registrations of resource types.
proof fn lemma_resources_plan_all_resources(items: Seq<(Seq<char>, ItemTree)>)
    ensures
        forall|k: int|
            0 <= k < resources_plan(items).ops.len() ==> (
            #[trigger] resources_plan(items).ops[k]) is Resource,
    decreases items.len(),
{
    if items.len() > 0 {
        lemma_resources_plan_all_resources(items.drop_last());
        crate::link::lemma_resources_plan_succeeds(items.drop_last());
    }
}

/// After the steps for resource types, each of them is known.
proof fn lemma_resources_are_known(items: Seq<(Seq<char>, ItemTree)>, state: LinkerView, j: int)
    requires
        state.levels.len() >= 1,
        0 <= j < items.len(),
        items[j].1 is Resource,
    ensures
        knows(
            run(state, resources_plan(items).ops).levels.last(),
            items[j].1->Resource_0,
        ),
        run(state, resources_plan(items).ops).levels.len() == state.levels.len(),
    decreases items.len(),
{
    let init = items.drop_last();
    crate::link::lemma_resources_plan_succeeds(init);
    lemma_resources_plan_steady(items);
    lemma_resources_plan_steady(init);
    let before = run(state, resources_plan(init).ops);
    assert(before.levels.len() == state.levels.len());
    let ty = items[j].1->Resource_0;
    if j == items.len() - 1 {
        let op = OpView::Resource { name: items.last().0, ty };
        assert(resources_plan(items).ops =~= resources_plan(init).ops + seq![op]);
        assert(resources_plan(items).ops.drop_last() =~= resources_plan(init).ops);
        let after = run(state, resources_plan(items).ops);
        assert(after == stepped(before, op));
        let known = after.levels.last();
        assert(known[known.len() - 1].0 == ty);
    } else {
        lemma_resources_are_known(init, state, j);
        if let ItemTree::Resource(last) = items.last().1 {
            let op = OpView::Resource { name: items.last().0, ty: last };
            assert(resources_plan(items).ops.drop_last() =~= resources_plan(init).ops);
            let after = run(state, resources_plan(items).ops);
            assert(after == stepped(before, op));
            lemma_knows_prefix(before.levels.last(), after.levels.last(), ty);
        } else {
            assert(resources_plan(items).ops =~= resources_plan(init).ops);
        }
    }
}

/// What a map knows, a map that extends it knows too.
proof fn lemma_knows_prefix(
    map: Seq<(ResourceType, u32)>,
    longer: Seq<(ResourceType, u32)>,
    ty: ResourceType,
)
    requires
        knows(map, ty),
        map.is_prefix_of(longer),
    ensures
        knows(longer, ty),
{
    let i = choose|i: int| 0 <= i < map.len() && (#[trigger] map[i]).0 == ty;
    assert(longer[i].0 == ty);
}

/// A resource type with an entry is registered.
proof fn lemma_known_is_registered(map: Seq<(ResourceType, u32)>, ty: ResourceType)
    requires
        knows(map, ty),
    ensures
        registered(map, ty) is Some,
    decreases map.len(),
{
    let i = choose|i: int| 0 <= i < map.len() && (#[trigger] map[i]).0 == ty;
    if i < map.len() - 1 {
        assert(map.drop_last()[i].0 == ty);
        lemma_known_is_registered(map.drop_last(), ty);
    }
}

/// The number that a linker gives next, by how many it has given.
proof fn lemma_number(state: LinkerView, ops: Seq<OpView>)
    ensures
        run(state, ops).next_ty_id as int == (state.next_ty_id + resource_count(ops))
            % 0x1_0000_0000,
    decreases ops.len(),
{
    if ops.len() > 0 {
        lemma_number(state, ops.drop_last());
        let n = state.next_ty_id + resource_count(ops.drop_last());
        let before = run(state, ops.drop_last());
        if ops.last() is Resource {
            assert(run(state, ops).next_ty_id == next_id(before.next_ty_id));
            assert((n + 1) % 0x1_0000_0000 == if n % 0x1_0000_0000 == 0xffff_ffff {
                0
            } else {
                n % 0x1_0000_0000 + 1
            }) by (nonlinear_arith)
                requires
                    n >= 0,
            ;
        }
    }
}

/// A prefix registers at most as many resource types.
proof fn lemma_count_prefix(ops: Seq<OpView>, n: int)
    requires
        0 <= n <= ops.len(),
    ensures
        resource_count(ops.take(n)) <= resource_count(ops),
    decreases ops.len(),
{
    if n < ops.len() {
        assert(ops.drop_last().take(n) =~= ops.take(n));
        lemma_count_prefix(ops.drop_last(), n);
    } else {
        assert(ops.take(n) =~= ops);
    }
}

/// A nested instance starts without resource types, and none of what it registers is
/// known around it when it is left. Giving up goes back to the outermost instance, as
/// it was.
pub proof fn instances_keep_their_resource_types_to_themselves(
    state: LinkerView,
    name: Seq<char>,
)
    requires
        state.levels.len() >= 1,
    ensures
        stepped(state, OpView::Enter { name }).levels == state.levels.push(Seq::empty()),
        state.levels.len() > 1 ==> stepped(state, OpView::Leave).levels == state.levels.drop_last(),
        abandoned(state).levels.len() == 1,
        abandoned(state).levels[0] == state.levels[0],
        abandoned(state).next_ty_id == state.next_ty_id,
{
}

} // verus!
