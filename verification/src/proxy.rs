//! Standing in for the resources of another store.
//!
//! A resource that a producer hands to a consumer stays in the producer's store.
//! The consumer gets a handle of its own, whose number is the place of the
//! producer's handle in a table.

use vstd::prelude::*;
use wasmtime::component::{ResourceAny, ResourceTable, ResourceType};
use wasmtime::StoreContextMut;

use crate::error::VisitError;
use crate::mapper::{row, ValMapper};
use crate::navigator::{lemma_parts_are_in, part_leaves, parts_fit, NavTree};
use crate::value::{handles_at, lemma_own_handles, with_handles, Leaf, Value, ValueTree};
use crate::visitor::{chained, handles_left, new_visits, walked, ProxyState, ValVisitor, Visit};
use crate::wasm::{
    handle_owned, handle_type, host_type, is_owned, proxy_handle, proxy_id, same_type, stands_for,
    table_delete, table_get, table_handles, table_orphans, table_parents, table_push, table_room,
};

verus! {

/// The number under which the importer knows a resource type: that of the first
/// entry for it.
pub open spec fn registered(map: Seq<(ResourceType, u32)>, ty: ResourceType) -> Option<u32>
    decreases map.len(),
{
    if map.len() == 0 {
        None
    } else if registered(map.drop_last(), ty) is Some {
        registered(map.drop_last(), ty)
    } else if map.last().0 == ty {
        Some(map.last().1)
    } else {
        None
    }
}

/// Looks up the number under which the importer knows a resource type.
pub fn registered_type(map: &Vec<(ResourceType, u32)>, ty: ResourceType) -> (found: Option<u32>)
    ensures
        found == registered(map@, ty),
{
    let mut i: usize = 0;
    assert(map@.take(0) =~= Seq::empty());
    while i < map.len()
        invariant
            i <= map@.len(),
            registered(map@.take(i as int), ty) is None,
        decreases map.len() - i,
    {
        assert(map@.take(i + 1).drop_last() =~= map@.take(i as int));
        if same_type(&map[i].0, &ty) {
            proof {
                lemma_registered_extends(map@, i + 1, ty);
            }
            return Some(map[i].1);
        }
        i = i + 1;
    }
    assert(map@.take(map@.len() as int) =~= map@);
    None
}

proof fn lemma_registered_extends(map: Seq<(ResourceType, u32)>, n: int, ty: ResourceType)
    requires
        0 <= n <= map.len(),
        registered(map.take(n), ty) is Some,
    ensures
        registered(map, ty) == registered(map.take(n), ty),
    decreases map.len(),
{
    if n < map.len() {
        assert(map.drop_last().take(n) =~= map.take(n));
        lemma_registered_extends(map.drop_last(), n, ty);
    } else {
        assert(map.take(n) =~= map);
    }
}

// ---------------------------------------------------------------------------
// The table
// ---------------------------------------------------------------------------

/// The proxies in a table.
pub open spec fn proxies_in(table: ResourceTable) -> ProxyState {
    ProxyState {
        handles: table_handles(table),
        room: table_room(table),
        orphans: table_orphans(table),
    }
}

/// No proxies, and no room for any.
spec fn no_proxies() -> ProxyState {
    ProxyState { handles: Map::empty(), room: 0, orphans: Set::empty() }
}

/// Resolves a consumer's handle. If it stands for the proxy number `id` and the
/// table holds a handle with that number, this is the producer's handle; any
/// other handle is left as it is.
pub fn resolve_handle(table: &ResourceTable, handle: ResourceAny, id: Option<u32>) -> (r:
    ResourceAny)
    ensures
        r == resolved(table_handles(*table), handle, id),
{
    match id {
        Some(id) => match table_get(table, id) {
            Some(producer) => producer,
            None => handle,
        },
        None => handle,
    }
}

/// What a consumer's handle with this proxy number stands for.
pub open spec fn resolved(
    proxies: Map<u32, ResourceAny>,
    handle: ResourceAny,
    id: Option<u32>,
) -> ResourceAny {
    match id {
        Some(id) => if proxies.dom().contains(id) {
            proxies[id]
        } else {
            handle
        },
        None => handle,
    }
}

/// Forgets the producer's handle with the proxy number `id`, when the consumer
/// drops its handle.
pub fn release_proxy(table: &mut ResourceTable, id: u32)
    requires
        !table_orphans(*old(table)).contains(id),
    ensures
        table_orphans(*final(table)) == table_orphans(*old(table)),
        table_handles(*final(table)) == if table_parents(*old(table)).contains(id) {
            table_handles(*old(table))
        } else {
            table_handles(*old(table)).remove(id)
        },
        table_handles(*old(table)).dom().contains(id) && !table_parents(*old(table)).contains(id)
            ==> table_room(*final(table)) == table_room(*old(table)) + 1,
{
    let _ = table_delete(table, id);
    proof {
        let handles = table_handles(*old(table));
        if !handles.dom().contains(id) {
            assert(handles.remove(id) =~= handles);
        }
    }
}

// ---------------------------------------------------------------------------
// Visitors
// ---------------------------------------------------------------------------

/// Collects the handles of a value, and leaves them as they are.
struct HandleCollector {
    seen: Vec<ResourceAny>,
    trace: Ghost<Seq<Visit<ResourceAny>>>,
}

impl HandleCollector {
    #[verifier::type_invariant]
    spec fn inv(self) -> bool {
        &&& self.seen@.len() == self.trace@.len()
        &&& forall|i: int|
            0 <= i < self.seen@.len() ==> (#[trigger] self.seen@[i]) == self.trace@[i].before
    }
}

impl ValVisitor<ResourceAny> for HandleCollector {
    closed spec fn trace(&self) -> Seq<Visit<ResourceAny>> {
        self.trace@
    }

    closed spec fn proxies(&self) -> ProxyState {
        no_proxies()
    }

    closed spec fn allows(&self, k: int, visit: Visit<ResourceAny>) -> bool {
        visit.outcome is Ok && visit.after == visit.before
    }

    fn visit(&mut self, val: &mut ResourceAny, ty: ResourceType) -> (outcome: Result<
        (),
        VisitError,
    >) {
        proof {
            use_type_invariant(&*self);
        }
        let ghost trace = self.trace@;
        let mut before = HandleCollector { seen: Vec::new(), trace: Ghost(Seq::empty()) };
        std::mem::swap(&mut before, self);
        let mut seen = before.seen;
        seen.push(*val);
        let ghost visit = Visit {
            before: *val,
            ty,
            after: *val,
            outcome: Ok(()),
            held: no_proxies(),
            holds: no_proxies(),
        };
        *self = HandleCollector { seen, trace: Ghost(trace.push(visit)) };
        Ok(())
    }
}

/// Params visitor: consumer proxy handle to producer handle, by the proxy numbers
/// that the handles stand for, in order.
struct ParamsVisitor<'a> {
    ids: &'a Vec<Option<u32>>,
    at: usize,
    table: &'a ResourceTable,
    trace: Ghost<Seq<Visit<ResourceAny>>>,
}

impl<'a> ParamsVisitor<'a> {
    #[verifier::type_invariant]
    spec fn inv(self) -> bool {
        self.at == if self.trace@.len() < self.ids@.len() {
            self.trace@.len()
        } else {
            self.ids@.len()
        }
    }
}

impl<'a> ValVisitor<ResourceAny> for ParamsVisitor<'a> {
    closed spec fn trace(&self) -> Seq<Visit<ResourceAny>> {
        self.trace@
    }

    closed spec fn proxies(&self) -> ProxyState {
        proxies_in(*self.table)
    }

    closed spec fn allows(&self, k: int, visit: Visit<ResourceAny>) -> bool {
        &&& visit.outcome is Ok
        &&& 0 <= k < self.ids@.len() ==> visit.after == resolved(
            table_handles(*self.table),
            visit.before,
            self.ids@[k],
        )
    }

    fn visit(&mut self, val: &mut ResourceAny, ty: ResourceType) -> (outcome: Result<
        (),
        VisitError,
    >) {
        proof {
            use_type_invariant(&*self);
        }
        let ghost trace = self.trace@;
        let ghost before = *val;
        let mut at: usize = self.at;
        if at < self.ids.len() {
            *val = resolve_handle(self.table, *val, self.ids[at]);
            at = at + 1;
        }
        let ghost visit = Visit {
            before,
            ty,
            after: *val,
            outcome: Ok(()),
            held: self.proxies(),
            holds: self.proxies(),
        };
        *self = ParamsVisitor {
            ids: self.ids,
            at,
            table: self.table,
            trace: Ghost(trace.push(visit)),
        };
        Ok(())
    }
}

/// Results visitor: producer handle to consumer proxy handle.
///
/// A handle whose resource type the importer knows is put into the table, and an
/// owned proxy for it takes its place. A handle of any other type is left as it is.
#[verifier::reject_recursive_types(T)]
struct ResultsVisitor<'a, 'b, 'c, T: 'static> {
    store: &'a mut StoreContextMut<'b, T>,
    table: ResourceTable,
    resource_map: &'c Vec<(ResourceType, u32)>,
    trace: Ghost<Seq<Visit<ResourceAny>>>,
}

/// What a results visitor with this resource map may do in one call.
pub open spec fn results_rule(map: Seq<(ResourceType, u32)>, visit: Visit<ResourceAny>) -> bool {
    match registered(map, visit.ty) {
        None => {
            &&& visit.outcome is Ok
            &&& visit.after == visit.before
            &&& visit.holds == visit.held
        },
        Some(ty_id) => match visit.outcome {
            Ok(()) => {
                &&& exists|id: u32| #[trigger]
                    proxied(visit, id) && stands_for(visit.after, id)
                &&& handle_type(visit.after) == host_type(ty_id)
                &&& handle_owned(visit.after)
            },
            Err(VisitError::TableFull) => {
                &&& visit.held.room == 0
                &&& visit.after == visit.before
                &&& visit.holds == visit.held
            },
            Err(VisitError::Runtime(_)) => {
                &&& visit.after == visit.before
                &&& exists|id: u32| #[trigger] proxied(visit, id)
            },
        },
    }
}

/// The visited handle went into the table, under the number `id`, which was free.
pub open spec fn proxied(visit: Visit<ResourceAny>, id: u32) -> bool {
    &&& visit.held.room > 0
    &&& !visit.held.handles.dom().contains(id)
    &&& !visit.held.orphans.contains(id)
    &&& visit.holds == (ProxyState {
        handles: visit.held.handles.insert(id, visit.before),
        room: (visit.held.room - 1) as nat,
        orphans: visit.held.orphans,
    })
}

impl<'a, 'b, 'c, T: 'static> ValVisitor<ResourceAny> for ResultsVisitor<'a, 'b, 'c, T> {
    closed spec fn trace(&self) -> Seq<Visit<ResourceAny>> {
        self.trace@
    }

    closed spec fn proxies(&self) -> ProxyState {
        proxies_in(self.table)
    }

    closed spec fn allows(&self, k: int, visit: Visit<ResourceAny>) -> bool {
        results_rule(self.resource_map@, visit)
    }

    fn visit(&mut self, val: &mut ResourceAny, ty: ResourceType) -> (outcome: Result<
        (),
        VisitError,
    >) {
        let ghost held = proxies_in(self.table);
        let ghost mut slot: u32 = 0;
        let outcome = match registered_type(self.resource_map, ty) {
            None => Ok(()),
            Some(ty_id) => match table_push(&mut self.table, *val) {
                None => Err(VisitError::TableFull),
                Some(id) => {
                    proof {
                        slot = id;
                        assert(held.handles.insert(id, *old(val)).dom().contains(id));
                    }
                    match proxy_handle(id, ty_id, self.store) {
                        Ok(handle) => {
                            *val = handle;
                            Ok(())
                        },
                        Err(e) => Err(VisitError::Runtime(e)),
                    }
                },
            },
        };
        proof {
            let visit = Visit {
                before: *old(val),
                ty,
                after: *val,
                outcome,
                held,
                holds: proxies_in(self.table),
            };
            if registered(self.resource_map@, ty) is Some && visit.holds != held {
                assert(proxied(visit, slot));
            }
            self.trace@ = self.trace@.push(visit);
        }
        outcome
    }
}

// ---------------------------------------------------------------------------
// Calls
// ---------------------------------------------------------------------------

/// The calls of a visitor that took `value` to `new_value` and the proxies from
/// `held` to `holds`: one for each of `places`, in order, up to the first that
/// failed.
pub open spec fn remapped(
    places: Seq<Leaf>,
    visits: Seq<Visit<ResourceAny>>,
    value: ValueTree,
    new_value: ValueTree,
    held: ProxyState,
    holds: ProxyState,
    outcome: Result<(), VisitError>,
) -> bool {
    &&& walked(places, visits, outcome)
    &&& chained(held, visits, holds)
    &&& new_value == with_handles(value, places, handles_left(visits))
}

/// The handles at `places` that arguments have once those that stand for a proxy
/// number are resolved.
pub open spec fn resolved_handles(
    places: Seq<Leaf>,
    ids: Seq<Option<u32>>,
    proxies: Map<u32, ResourceAny>,
) -> Seq<ResourceAny> {
    Seq::new(places.len(), |i: int| resolved(proxies, places[i].handle, ids[i]))
}

/// The handles in the arguments of a call that may be proxies, in order, and the
/// arguments.
pub fn param_handles(mapper: &ValMapper, params: Vec<Value>) -> (r: (Vec<Value>, Vec<ResourceAny>))
    requires
        parts_fit(mapper@.params, row(params@)),
    ensures
        row(r.0@) == row(params@),
        r.1@ == handles_at(part_leaves(mapper@.params, row(params@))),
{
    let ghost places = part_leaves(mapper@.params, row(params@));
    let mut collector = HandleCollector { seen: Vec::new(), trace: Ghost(Seq::empty()) };
    let ghost start = collector;
    let r = mapper.map_params(params, &mut collector);
    let ghost visits = new_visits(start, collector);
    proof {
        use_type_invariant(&collector);
        assert(visits =~= collector.trace@);
        assert forall|i: int| 0 <= i < visits.len() implies (#[trigger] visits[i]).outcome is Ok
            && visits[i].after == visits[i].before by {
            assert(start.allows(i, visits[i]));
        }
    }
    match r {
        Ok(unchanged) => {
            proof {
                assert(collector.seen@ =~= handles_at(places));
                assert(handles_left(visits) =~= handles_at(places));
                lemma_parts_are_in(mapper@.params, row(params@));
                lemma_own_handles(row(params@), places, handles_left(visits));
            }
            (unchanged, collector.seen)
        },
        Err(_) => {
            assert(visits[visits.len() - 1].outcome is Ok);
            assert(false);
            (Vec::new(), Vec::new())
        },
    }
}

/// Replaces the consumer's handles in the arguments of a call by the producer's
/// handles in `table`, where `ids` are the proxy numbers that they stand for, in
/// order.
pub fn resolve_params_by(
    mapper: &ValMapper,
    params: Vec<Value>,
    ids: &Vec<Option<u32>>,
    table: &ResourceTable,
) -> (mapped: Vec<Value>)
    requires
        parts_fit(mapper@.params, row(params@)),
        ids@.len() == part_leaves(mapper@.params, row(params@)).len(),
    ensures
        row(mapped@) == with_handles(
            row(params@),
            part_leaves(mapper@.params, row(params@)),
            resolved_handles(
                part_leaves(mapper@.params, row(params@)),
                ids@,
                table_handles(*table),
            ),
        ),
{
    let ghost places = part_leaves(mapper@.params, row(params@));
    let mut visitor = ParamsVisitor { ids, at: 0, table, trace: Ghost(Seq::empty()) };
    let ghost start = visitor;
    let r = mapper.map_params(params, &mut visitor);
    let ghost visits = new_visits(start, visitor);
    proof {
        assert(visits =~= visitor.trace@);
        assert forall|i: int| 0 <= i < visits.len() implies (#[trigger] visits[i]).outcome is Ok && (
        i < ids@.len() ==> visits[i].after == resolved(
            table_handles(*table),
            visits[i].before,
            ids@[i],
        )) by {
            assert(start.allows(i, visits[i]));
        }
    }
    match r {
        Ok(mapped) => {
            assert(handles_left(visits) =~= resolved_handles(places, ids@, table_handles(*table)));
            mapped
        },
        Err(_) => {
            assert(visits[visits.len() - 1].outcome is Ok);
            assert(false);
            Vec::new()
        },
    }
}

/// `id` may be the number that `handle` stands for, where it is `borrowed` if the
/// handle is borrowed. An owned handle has one only if it is a handle to a
/// host-defined resource.
pub open spec fn may_stand_for(
    handle: ResourceAny,
    borrowed: Option<u32>,
    id: Option<u32>,
) -> bool {
    if handle_owned(handle) {
        id matches Some(number) ==> stands_for(handle, number) && exists|ty_id: u32|
            handle_type(handle) == #[trigger] host_type(ty_id)
    } else {
        id == borrowed
    }
}

/// `ids` may be the numbers that the handles at `places` stand for, where `borrowed`
/// are those of the borrowed handles among them.
pub open spec fn all_may_stand_for(
    places: Seq<Leaf>,
    borrowed: Seq<Option<u32>>,
    ids: Seq<Option<u32>>,
) -> bool {
    &&& ids.len() == places.len()
    &&& forall|i: int|
        0 <= i < ids.len() ==> may_stand_for(places[i].handle, borrowed[i], #[trigger] ids[i])
}

/// `id` is what the store returned when it was asked, through `store`, for the number
/// of `handle`.
pub closed spec fn reported<T: 'static>(
    store: &mut StoreContextMut<'_, T>,
    handle: ResourceAny,
    id: Option<u32>,
) -> bool {
    call_ensures(proxy_id::<T>, (handle, store), id)
}

/// What the store reports is what asking it returns, and nothing else.
pub(crate) proof fn reports_are_what_was_returned<T: 'static>(
    store: &mut StoreContextMut<'_, T>,
    handle: ResourceAny,
    id: Option<u32>,
)
    ensures
        reported(store, handle, id) <==> call_ensures(proxy_id::<T>, (handle, store), id),
{
}

/// The states of a store between `first` and `last`, with `n` steps from one to the
/// next.
pub open spec fn leads<T: 'static>(
    states: Seq<StoreContextMut<'_, T>>,
    first: StoreContextMut<'_, T>,
    last: StoreContextMut<'_, T>,
    n: nat,
) -> bool {
    &&& states.len() == n + 1
    &&& states[0] == first
    &&& states[n as int] == last
}

/// The proxy number that a handle stands for: `borrowed` if the handle is borrowed,
/// else what the store gives for it.
pub(crate) fn number_of<T: 'static>(
    handle: ResourceAny,
    borrowed: Option<u32>,
    store: &mut StoreContextMut<'_, T>,
) -> (id: Option<u32>)
    ensures
        may_stand_for(handle, borrowed, id),
        handle_owned(handle) ==> exists|asked: &mut StoreContextMut<'_, T>|
            {
                &&& *asked == *old(store)
                &&& *final(asked) == *final(store)
                &&& reported(asked, handle, id)
                &&& #[trigger] call_ensures(proxy_id::<T>, (handle, asked), id)
            },
        !handle_owned(handle) ==> *final(store) == *old(store),
{
    if is_owned(&handle) {
        proxy_id(handle, store)
    } else {
        borrowed
    }
}

/// Replaces the consumer's handles in the arguments of a call by the producer's
/// handles that they stand for. `store` and `table` belong to the consumer.
///
/// The store tells the numbers of the owned handles. A borrowed handle is only good
/// while the call that lent it goes on, so the caller tells its number: `borrowed`
/// has an entry for each handle that [`param_handles`] finds, of which those for the
/// borrowed ones are used.
pub fn resolve_params<T: 'static>(
    mapper: &ValMapper,
    params: Vec<Value>,
    borrowed: &Vec<Option<u32>>,
    store: &mut StoreContextMut<'_, T>,
    table: &ResourceTable,
) -> (mapped: Vec<Value>)
    requires
        parts_fit(mapper@.params, row(params@)),
        borrowed@.len() == part_leaves(mapper@.params, row(params@)).len(),
    ensures
        exists|ids: Seq<Option<u32>>, states: Seq<StoreContextMut<'_, T>>|
            {
                &&& #[trigger] all_may_stand_for(
                    part_leaves(mapper@.params, row(params@)),
                    borrowed@,
                    ids,
                )
                &&& #[trigger] leads(states, *old(store), *final(store), ids.len())
                &&& forall|i: int|
                    0 <= i < ids.len() && handle_owned(
                        (#[trigger] part_leaves(mapper@.params, row(params@))[i]).handle,
                    ) ==> exists|asked: &mut StoreContextMut<'_, T>|
                        *asked == states[i] && *final(asked) == states[i + 1] && #[trigger] reported(
                            asked,
                            part_leaves(mapper@.params, row(params@))[i].handle,
                            ids[i],
                        )
                &&& forall|i: int|
                    0 <= i < ids.len() && !handle_owned(
                        (#[trigger] part_leaves(mapper@.params, row(params@))[i]).handle,
                    ) ==> ids[i] == borrowed@[i] && states[i + 1] == states[i]
                &&& row(mapped@) == with_handles(
                    row(params@),
                    part_leaves(mapper@.params, row(params@)),
                    resolved_handles(
                        part_leaves(mapper@.params, row(params@)),
                        ids,
                        table_handles(*table),
                    ),
                )
            },
{
    let ghost places = part_leaves(mapper@.params, row(params@));
    let (params, handles) = param_handles(mapper, params);
    let mut ids: Vec<Option<u32>> = Vec::new();
    let ghost mut states: Seq<StoreContextMut<'_, T>> = seq![*store];
    let mut i: usize = 0;
    while i < handles.len()
        invariant
            i <= handles@.len(),
            handles@ == handles_at(places),
            borrowed@.len() == places.len(),
            ids@.len() == i,
            leads(states, *old(store), *store, i as nat),
            forall|j: int|
                0 <= j < i && handle_owned((#[trigger] places[j]).handle) ==> exists|
                    asked: &mut StoreContextMut<'_, T>,
                |
                    *asked == states[j] && *final(asked) == states[j + 1] && #[trigger] reported(
                        asked,
                        places[j].handle,
                        ids@[j],
                    ),
            forall|j: int|
                0 <= j < i && !handle_owned((#[trigger] places[j]).handle) ==> ids@[j]
                    == borrowed@[j] && states[j + 1] == states[j],
            forall|j: int|
                0 <= j < i ==> may_stand_for(places[j].handle, borrowed@[j], #[trigger] ids@[j]),
        decreases handles.len() - i,
    {
        assert(handles@[i as int] == places[i as int].handle);
        let ghost known = ids@;
        let ghost passed = states;
        let id = number_of(handles[i], borrowed[i], store);
        proof {
            let handle = places[i as int].handle;
            assert(handle_owned(handle) ==> exists|asked: &mut StoreContextMut<'_, T>|
                *asked == passed[i as int] && *final(asked) == *store && #[trigger] reported(
                    asked,
                    handle,
                    id,
                ));
        }
        ids.push(id);
        proof {
            states = states.push(*store);
            assert forall|j: int|
                0 <= j < i + 1 && handle_owned((#[trigger] places[j]).handle) implies exists|
                asked: &mut StoreContextMut<'_, T>,
            |
                *asked == states[j] && *final(asked) == states[j + 1] && #[trigger] reported(
                    asked,
                    places[j].handle,
                    ids@[j],
                ) by {
                if j < i {
                    assert(ids@[j] == known[j]);
                    assert(states[j] == passed[j] && states[j + 1] == passed[j + 1]);
                } else {
                    assert(ids@[j] == id);
                    assert(states[j] == passed[j] && states[j + 1] == *store);
                }
            }
            assert forall|j: int|
                0 <= j < i + 1 && !handle_owned((#[trigger] places[j]).handle) implies ids@[j]
                == borrowed@[j] && states[j + 1] == states[j] by {
                if j < i {
                    assert(ids@[j] == known[j]);
                    assert(states[j] == passed[j] && states[j + 1] == passed[j + 1]);
                }
            }
        }
        i = i + 1;
    }
    assert(all_may_stand_for(places, borrowed@, ids@));
    assert(leads(states, *old(store), *store, ids@.len()));
    resolve_params_by(mapper, params, &ids, table)
}

/// The results of a call, a row `before`, have become `after`, and the table `table`
/// has become `left`: the handles that `parts` lead to were remapped one after the
/// other, as far as `outcome` says. The entries of the table that cannot be taken
/// out stay the same, and no new handle is among them.
pub open spec fn results_proxied(
    parts: Seq<(int, NavTree)>,
    map: Seq<(ResourceType, u32)>,
    before: ValueTree,
    after: ValueTree,
    table: ResourceTable,
    left: ResourceTable,
    outcome: Result<(), VisitError>,
) -> bool {
    &&& exists|visits: Seq<Visit<ResourceAny>>|
        {
            &&& #[trigger] remapped(
                part_leaves(parts, before),
                visits,
                before,
                after,
                proxies_in(table),
                proxies_in(left),
                outcome,
            )
            &&& forall|i: int| 0 <= i < visits.len() ==> results_rule(map, #[trigger] visits[i])
        }
    &&& table_orphans(left) == table_orphans(table)
    &&& forall|id: u32| #[trigger]
        table_handles(left).dom().contains(id) && !table_handles(table).dom().contains(id)
            ==> !table_orphans(left).contains(id)
}

/// Replaces the producer's handles in the results of a call by proxies in the
/// consumer's store. `store` and `table` belong to the consumer, and
/// `resource_map` holds the resource types that it knows. Hands the table back.
pub fn proxy_results<T: 'static>(
    mapper: &ValMapper,
    resource_map: &Vec<(ResourceType, u32)>,
    results: &mut Vec<Value>,
    store: &mut StoreContextMut<'_, T>,
    table: ResourceTable,
) -> (r: (ResourceTable, Result<(), VisitError>))
    requires
        parts_fit(mapper@.results, row(old(results)@)),
    ensures
        results_proxied(
            mapper@.results,
            resource_map@,
            row(old(results)@),
            row(final(results)@),
            table,
            r.0,
            r.1,
        ),
{
    let ghost held = proxies_in(table);
    let mut visitor = ResultsVisitor { store, table, resource_map, trace: Ghost(Seq::empty()) };
    let ghost start = visitor;
    let r = mapper.map_results(results, &mut visitor);
    let ghost visits = new_visits(start, visitor);
    proof {
        assert forall|i: int| 0 <= i < visits.len() implies results_rule(
            resource_map@,
            #[trigger] visits[i],
        ) by {
            assert(start.allows(i, visits[i]));
        }
    }
    let out = (visitor.table, r);
    assert(remapped(
        part_leaves(mapper@.results, row(old(results)@)),
        visits,
        row(old(results)@),
        row(results@),
        held,
        proxies_in(out.0),
        out.1,
    ));
    proof {
        let holds = proxies_in(out.0);
        new_proxies_can_be_released(resource_map@, held, visits, holds);
        assert forall|id: u32| #[trigger]
            table_handles(out.0).dom().contains(id) && !table_handles(table).dom().contains(
                id,
            ) implies !table_orphans(out.0).contains(id) by {
            assert(holds.handles.dom().contains(id) && !held.handles.dom().contains(id));
        }
    }
    out
}

/// What follows a call that has come to `called`: if the producer failed, the consumer
/// gets its error, and the results and the table stay as they are; else the handles
/// in the results are replaced by proxies. Hands the table back.
pub fn after_call<T: 'static>(
    called: Result<(), wasmtime::Error>,
    mapper: &ValMapper,
    resource_map: &Vec<(ResourceType, u32)>,
    results: &mut Vec<Value>,
    store: &mut StoreContextMut<'_, T>,
    table: ResourceTable,
) -> (r: (ResourceTable, Result<(), VisitError>))
    requires
        called is Ok ==> parts_fit(mapper@.results, row(old(results)@)),
    ensures
        match called {
            Err(e) => {
                &&& r.1 == Err::<(), VisitError>(VisitError::Runtime(e))
                &&& final(results)@ == old(results)@
                &&& r.0 == table
            },
            Ok(()) => results_proxied(
                mapper@.results,
                resource_map@,
                row(old(results)@),
                row(final(results)@),
                table,
                r.0,
                r.1,
            ),
        },
{
    match called {
        Err(e) => (table, Err(VisitError::Runtime(e))),
        Ok(()) => proxy_results(mapper, resource_map, results, store, table),
    }
}

// ---------------------------------------------------------------------------
// Laws
// ---------------------------------------------------------------------------

/// A handle that a result visit put into the table is what its proxy number
/// stands for from then on: whatever other results are proxied and whatever other
/// proxies are released afterwards, an argument with that number is resolved to
/// it.
pub proof fn proxied_handle_comes_back(
    map: Seq<(ResourceType, u32)>,
    visit: Visit<ResourceAny>,
    id: u32,
    released: Set<u32>,
    kept: ProxyState,
    later: Seq<Visit<ResourceAny>>,
    holds: ProxyState,
    argument: ResourceAny,
)
    requires
        proxied(visit, id),
        !released.contains(id),
        kept.handles == visit.holds.handles.remove_keys(released),
        chained(kept, later, holds),
        forall|i: int| 0 <= i < later.len() ==> results_rule(map, #[trigger] later[i]),
    ensures
        resolved(holds.handles, argument, Some(id)) == visit.before,
{
    proxies_are_kept(map, kept, later, holds);
    assert(kept.handles.contains_pair(id, visit.before));
}

/// If the table has room for as many handles as there are in the results, it does
/// not get full.
pub proof fn a_table_with_room_does_not_get_full(
    map: Seq<(ResourceType, u32)>,
    places: Seq<Leaf>,
    visits: Seq<Visit<ResourceAny>>,
    held: ProxyState,
    holds: ProxyState,
    outcome: Result<(), VisitError>,
)
    requires
        walked(places, visits, outcome),
        chained(held, visits, holds),
        forall|i: int| 0 <= i < visits.len() ==> results_rule(map, #[trigger] visits[i]),
        held.room >= places.len(),
    ensures
        outcome != Err::<(), VisitError>(VisitError::TableFull),
{
    if visits.len() > 0 {
        lemma_room(map, held, visits.drop_last(), visits.last().held);
        assert(results_rule(map, visits[visits.len() - 1]));
    }
}

/// A call uses up room for at most one handle.
proof fn lemma_room(
    map: Seq<(ResourceType, u32)>,
    held: ProxyState,
    visits: Seq<Visit<ResourceAny>>,
    holds: ProxyState,
)
    requires
        chained(held, visits, holds),
        forall|i: int| 0 <= i < visits.len() ==> results_rule(map, #[trigger] visits[i]),
    ensures
        holds.room + visits.len() >= held.room,
    decreases visits.len(),
{
    if visits.len() > 0 {
        let visit = visits[visits.len() - 1];
        assert(results_rule(map, visit));
        assert forall|i: int| 0 <= i < visits.drop_last().len() implies results_rule(
            map,
            #[trigger] visits.drop_last()[i],
        ) by {
            assert(results_rule(map, visits[i]));
        }
        lemma_room(map, held, visits.drop_last(), visit.held);
        if visit.holds != visit.held {
            let id = choose|id: u32| #[trigger] proxied(visit, id);
        }
    }
}

/// Remapping results never drops or changes a handle that the table holds.
pub proof fn proxies_are_kept(
    map: Seq<(ResourceType, u32)>,
    held: ProxyState,
    visits: Seq<Visit<ResourceAny>>,
    holds: ProxyState,
)
    requires
        chained(held, visits, holds),
        forall|i: int| 0 <= i < visits.len() ==> results_rule(map, #[trigger] visits[i]),
    ensures
        held.handles.submap_of(holds.handles),
    decreases visits.len(),
{
    if visits.len() > 0 {
        let visit = visits[visits.len() - 1];
        assert(results_rule(map, visit));
        assert forall|i: int| 0 <= i < visits.drop_last().len() implies results_rule(
            map,
            #[trigger] visits.drop_last()[i],
        ) by {
            assert(results_rule(map, visits[i]));
        }
        proxies_are_kept(map, held, visits.drop_last(), visit.held);
        assert(visit.held.handles.submap_of(visit.holds.handles)) by {
            if visit.holds != visit.held {
                let id = choose|id: u32| #[trigger] proxied(visit, id);
            }
        }
        assert forall|k: u32| #[trigger] held.handles.dom().contains(k) implies holds.handles.dom().contains(
            k,
        ) && holds.handles[k] == held.handles[k] by {
            assert(visit.held.handles.dom().contains(k) && visit.held.handles[k]
                == held.handles[k]);
            assert(visit.holds.handles.dom().contains(k) && visit.holds.handles[k]
                == visit.held.handles[k]);
        }
    }
}

/// The number of a handle that remapping results put into the table can be released:
/// it is not one of the entries that cannot be taken out, which stay the same.
pub proof fn new_proxies_can_be_released(
    map: Seq<(ResourceType, u32)>,
    held: ProxyState,
    visits: Seq<Visit<ResourceAny>>,
    holds: ProxyState,
)
    requires
        chained(held, visits, holds),
        forall|i: int| 0 <= i < visits.len() ==> results_rule(map, #[trigger] visits[i]),
    ensures
        holds.orphans == held.orphans,
        forall|id: u32| #[trigger]
            holds.handles.dom().contains(id) && !held.handles.dom().contains(id)
                ==> !holds.orphans.contains(id),
    decreases visits.len(),
{
    if visits.len() > 0 {
        let visit = visits[visits.len() - 1];
        assert(results_rule(map, visit));
        assert forall|i: int| 0 <= i < visits.drop_last().len() implies results_rule(
            map,
            #[trigger] visits.drop_last()[i],
        ) by {
            assert(results_rule(map, visits[i]));
        }
        new_proxies_can_be_released(map, held, visits.drop_last(), visit.held);
        if visit.holds != visit.held {
            let slot = choose|id: u32| #[trigger] proxied(visit, id);
            assert forall|id: u32| #[trigger]
                holds.handles.dom().contains(id) && !held.handles.dom().contains(id) implies
                !holds.orphans.contains(id) by {
                if id != slot {
                    assert(visit.held.handles.dom().contains(id));
                }
            }
        }
    }
}

/// Without registered resource types, results keep their handles.
pub proof fn unregistered_results_are_left(
    places: Seq<Leaf>,
    visits: Seq<Visit<ResourceAny>>,
    outcome: Result<(), VisitError>,
)
    requires
        walked(places, visits, outcome),
        forall|i: int|
            0 <= i < visits.len() ==> results_rule(
                Seq::<(ResourceType, u32)>::empty(),
                #[trigger] visits[i],
            ),
    ensures
        outcome is Ok,
        forall|i: int|
            0 <= i < visits.len() ==> (#[trigger] visits[i]).after == visits[i].before
                && visits[i].holds == visits[i].held,
{
    if outcome is Err {
        assert(results_rule(Seq::<(ResourceType, u32)>::empty(), visits[visits.len() - 1]));
    }
}

} // verus!
