//! Proxies whose numbers are the slots of a table of their own.
//!
//! One table serves one resource type of the importer. It only looks at values
//! that are resource handles themselves, not at those inside other values.

use vstd::prelude::*;
use wasmtime::component::{ResourceAny, ResourceType};
use wasmtime::StoreContextMut;

use crate::proxy::{leads, may_stand_for, number_of, reported};
use crate::value::{value_trees, Value, ValueTree};
use crate::wasm::{
    handle_owned, handle_type, host_dynamic, host_type, proxy_handle, stands_for,
};

verus! {

/// Maps proxy IDs to producer-side resource handles.
pub struct ResourceProxyTable {
    entries: Vec<Option<ResourceAny>>,
    /// The number of the host-defined resource type that stands for the producer's.
    ty_id: u32,
}

/// The first free slot of a table.
pub open spec fn free_slot(entries: Seq<Option<ResourceAny>>) -> int
    decreases entries.len(),
{
    if entries.len() == 0 {
        0
    } else if free_slot(entries.drop_last()) < entries.len() - 1 {
        free_slot(entries.drop_last())
    } else if entries.last() is None {
        entries.len() - 1
    } else {
        entries.len() as int
    }
}

/// The table with `handle` in the first free slot.
pub open spec fn placed(
    entries: Seq<Option<ResourceAny>>,
    handle: ResourceAny,
) -> Seq<Option<ResourceAny>> {
    if free_slot(entries) < entries.len() {
        entries.update(free_slot(entries), Some(handle))
    } else {
        entries.push(Some(handle))
    }
}

/// The handle in a slot.
pub open spec fn slot_of(entries: Seq<Option<ResourceAny>>, slot: int) -> Option<ResourceAny> {
    if 0 <= slot < entries.len() {
        entries[slot]
    } else {
        None
    }
}

/// The table once the handles among `values` are in it.
pub open spec fn filled(
    entries: Seq<Option<ResourceAny>>,
    values: Seq<ValueTree>,
) -> Seq<Option<ResourceAny>>
    decreases values.len(),
{
    if values.len() == 0 {
        entries
    } else {
        let before = filled(entries, values.drop_last());
        match values.last() {
            ValueTree::Resource(handle) => placed(before, handle),
            _ => before,
        }
    }
}

/// `after` is the value number `i` of `before` with an owned handle of the importer's
/// type in the place of a handle: one that stands for the slot into which the handle
/// went.
pub open spec fn proxied_value(
    entries: Seq<Option<ResourceAny>>,
    ty_id: u32,
    before: Seq<ValueTree>,
    i: int,
    after: ValueTree,
) -> bool {
    match before[i] {
        ValueTree::Resource(_) => after matches ValueTree::Resource(handle) && handle_type(handle)
            == host_type(ty_id) && handle_owned(handle) && stands_for(
            handle,
            free_slot(filled(entries, before.take(i))) as u32,
        ),
        _ => after == before[i],
    }
}

/// What a consumer's handle with this proxy number stands for: the handle in that
/// slot, or itself if there is none.
pub open spec fn slot_resolved(
    entries: Seq<Option<ResourceAny>>,
    handle: ResourceAny,
    id: Option<u32>,
) -> ResourceAny {
    match id {
        Some(id) => match slot_of(entries, id as int) {
            Some(producer) => producer,
            None => handle,
        },
        None => handle,
    }
}

/// `after` is `before` with a handle resolved by the proxy number `id`, which it may
/// stand for, where it is `borrowed` if the handle is borrowed.
pub open spec fn resolved_value(
    entries: Seq<Option<ResourceAny>>,
    before: ValueTree,
    borrowed: Option<u32>,
    id: Option<u32>,
    after: ValueTree,
) -> bool {
    match before {
        ValueTree::Resource(handle) => {
            &&& after == ValueTree::Resource(slot_resolved(entries, handle, id))
            &&& may_stand_for(handle, borrowed, id)
        },
        _ => after == before,
    }
}

/// The results `before` of a call have become `after`, and the table `entries` has
/// become `left`: all handles among the results are replaced by proxies, or those
/// before the first for which the store refuses a handle.
pub open spec fn results_remapped(
    entries: Seq<Option<ResourceAny>>,
    ty_id: u32,
    before: Seq<Value>,
    left: Seq<Option<ResourceAny>>,
    after: Seq<Value>,
    outcome: Result<(), wasmtime::Error>,
) -> bool {
    &&& after.len() == before.len()
    &&& match outcome {
        Ok(()) => {
            &&& left == filled(entries, value_trees(before))
            &&& forall|i: int|
                0 <= i < after.len() ==> proxied_value(
                    entries,
                    ty_id,
                    value_trees(before),
                    i,
                    (#[trigger] after[i])@,
                )
        },
        Err(_) => exists|n: int|
            {
                &&& 0 <= n < before.len()
                &&& (#[trigger] before[n])@ is Resource
                &&& left == filled(entries, value_trees(before).take(n + 1))
                &&& forall|i: int|
                    0 <= i < n ==> proxied_value(
                        entries,
                        ty_id,
                        value_trees(before),
                        i,
                        (#[trigger] after[i])@,
                    )
                &&& forall|i: int|
                    n <= i < before.len() ==> (#[trigger] after[i]) == before[i]
            },
    }
}

impl View for ResourceProxyTable {
    type V = Seq<Option<ResourceAny>>;

    closed spec fn view(&self) -> Seq<Option<ResourceAny>> {
        self.entries@
    }
}

impl ResourceProxyTable {
    /// The number of the importer's resource type.
    pub closed spec fn type_id(&self) -> u32 {
        self.ty_id
    }

    /// An empty table for the importer's resource type `ty_id`.
    pub fn new(ty_id: u32) -> (table: Self)
        ensures
            table@ == Seq::<Option<ResourceAny>>::empty(),
            table.type_id() == ty_id,
    {
        ResourceProxyTable { entries: Vec::new(), ty_id }
    }

    /// The importer's resource type.
    pub fn resource_type(&self) -> (ty: ResourceType)
        ensures
            ty == host_type(self.type_id()),
    {
        host_dynamic(self.ty_id)
    }

    /// Store a producer-side handle and return its proxy ID. A vacant slot is
    /// reused if there is one.
    pub fn insert(&mut self, producer: ResourceAny) -> (id: u32)
        ensures
            id == free_slot(old(self)@) as u32,
            final(self)@ == placed(old(self)@, producer),
            final(self).type_id() == old(self).type_id(),
    {
        let ghost all = self.entries@;
        let mut i: usize = 0;
        assert(all.take(0) =~= Seq::empty());
        while i < self.entries.len()
            invariant
                i <= self.entries@.len(),
                self.entries@ == all,
                all == old(self)@,
                self.ty_id == old(self).ty_id,
                free_slot(all.take(i as int)) == i,
            decreases self.entries.len() - i,
        {
            assert(all.take(i + 1).drop_last() =~= all.take(i as int));
            if self.entries[i].is_none() {
                proof {
                    lemma_free_slot_extends(all, i + 1);
                }
                self.entries.set(i, Some(producer));
                return i as u32;
            }
            i = i + 1;
        }
        assert(all.take(all.len() as int) =~= all);
        let id: u32 = self.entries.len() as u32;
        self.entries.push(Some(producer));
        id
    }

    /// Look up the producer-side handle for a proxy ID.
    pub fn get(&self, proxy_id: u32) -> (handle: Option<ResourceAny>)
        ensures
            handle == slot_of(self@, proxy_id as int),
    {
        if (proxy_id as usize) < self.entries.len() {
            self.entries[proxy_id as usize]
        } else {
            None
        }
    }

    /// Remove and return the producer-side handle for a proxy ID.
    pub fn remove(&mut self, proxy_id: u32) -> (handle: Option<ResourceAny>)
        ensures
            handle == slot_of(old(self)@, proxy_id as int),
            final(self)@ == if proxy_id < old(self)@.len() {
                old(self)@.update(proxy_id as int, None)
            } else {
                old(self)@
            },
            final(self).type_id() == old(self).type_id(),
    {
        if (proxy_id as usize) < self.entries.len() {
            let handle = self.entries[proxy_id as usize];
            self.entries.set(proxy_id as usize, None);
            handle
        } else {
            None
        }
    }

    /// Replace producer-side handles in results with consumer proxy handles.
    ///
    /// If the store refuses a handle, the results from there on stay as they are.
    pub fn remap_results<T: 'static>(
        &mut self,
        store: &mut StoreContextMut<'_, T>,
        results: &mut Vec<Value>,
    ) -> (r: Result<(), wasmtime::Error>)
        ensures
            final(self).type_id() == old(self).type_id(),
            results_remapped(
                old(self)@,
                old(self).type_id(),
                old(results)@,
                final(self)@,
                final(results)@,
                r,
            ),
    {
        let ghost before = results@;
        let ghost trees = value_trees(before);
        let ghost entries = self@;
        let mut i: usize = 0;
        assert(trees.take(0) =~= Seq::empty());
        while i < results.len()
            invariant
                i <= results@.len(),
                results@.len() == before.len(),
                before == old(results)@,
                entries == old(self)@,
                trees == value_trees(before),
                self.type_id() == old(self).type_id(),
                self@ == filled(entries, trees.take(i as int)),
                forall|j: int|
                    0 <= j < i ==> proxied_value(
                        entries,
                        old(self).type_id(),
                        trees,
                        j,
                        (#[trigger] results@[j])@,
                    ),
                forall|j: int| i <= j < before.len() ==> (#[trigger] results@[j]) == before[j],
            decreases results.len() - i,
        {
            assert(trees.take(i + 1).drop_last() =~= trees.take(i as int));
            assert(trees[i as int] == before[i as int]@);
            assert(results@[i as int] == before[i as int]);
            if let Value::Resource(producer) = &results[i] {
                let id = self.insert(*producer);
                match proxy_handle(id, self.ty_id, store) {
                    Ok(handle) => {
                        results.set(i, Value::Resource(handle));
                        assert(proxied_value(
                            entries,
                            old(self).type_id(),
                            trees,
                            i as int,
                            results@[i as int]@,
                        ));
                    },
                    Err(e) => {
                        assert(before[i as int]@ is Resource);
                        return Err(e);
                    },
                }
            }
            i = i + 1;
        }
        assert(trees.take(trees.len() as int) =~= trees);
        Ok(())
    }

    /// What follows a call that has come to `called`: if the producer failed, the
    /// consumer gets its error, and the results and the table stay as they are; else
    /// the handles in the results are replaced by proxies.
    pub fn after_call<T: 'static>(
        &mut self,
        called: Result<(), wasmtime::Error>,
        store: &mut StoreContextMut<'_, T>,
        results: &mut Vec<Value>,
    ) -> (r: Result<(), wasmtime::Error>)
        ensures
            final(self).type_id() == old(self).type_id(),
            match called {
                Err(_) => {
                    &&& r == called
                    &&& final(results)@ == old(results)@
                    &&& final(self)@ == old(self)@
                },
                Ok(()) => results_remapped(
                    old(self)@,
                    old(self).type_id(),
                    old(results)@,
                    final(self)@,
                    final(results)@,
                    r,
                ),
            },
    {
        match called {
            Err(e) => Err(e),
            Ok(()) => self.remap_results(store, results),
        }
    }

    /// Resolves a consumer's handle that stands for the proxy number `id`.
    pub fn resolve(&self, handle: ResourceAny, id: Option<u32>) -> (r: ResourceAny)
        ensures
            r == slot_resolved(self@, handle, id),
    {
        match id {
            Some(id) => match self.get(id) {
                Some(producer) => producer,
                None => handle,
            },
            None => handle,
        }
    }

    /// Replace consumer proxy handles in params with the producer-side handles.
    ///
    /// The store tells the numbers of the owned handles. A borrowed handle is only
    /// good while the call that lent it goes on, so the caller tells its number:
    /// `borrowed` has an entry for each of `params`, of which those for borrowed
    /// handles are used.
    pub fn remap_params<T: 'static>(
        &self,
        store: &mut StoreContextMut<'_, T>,
        params: Vec<Value>,
        borrowed: &Vec<Option<u32>>,
    ) -> (remapped: Vec<Value>)
        requires
            borrowed@.len() == params@.len(),
        ensures
            exists|ids: Seq<Option<u32>>, states: Seq<StoreContextMut<'_, T>>|
                {
                    &&& #[trigger] resolved_values(self@, params@, borrowed@, ids, remapped@)
                    &&& #[trigger] leads(states, *old(store), *final(store), params@.len())
                    &&& forall|i: int|
                        0 <= i < ids.len() && #[trigger] owned_at(params@, i) ==> exists|
                            asked: &mut StoreContextMut<'_, T>,
                        |
                            *asked == states[i] && *final(asked) == states[i + 1]
                                && #[trigger] reported(
                                asked,
                                params@[i]@->Resource_0,
                                ids[i],
                            )
                    &&& forall|i: int|
                        0 <= i < ids.len() && !#[trigger] owned_at(params@, i) ==> states[i + 1]
                            == states[i]
                },
    {
        let ghost before = params@;
        let ghost mut ids: Seq<Option<u32>> = Seq::empty();
        let ghost mut states: Seq<StoreContextMut<'_, T>> = seq![*store];
        let mut remapped = params;
        let mut i: usize = 0;
        while i < remapped.len()
            invariant
                i <= remapped@.len(),
                remapped@.len() == before.len(),
                borrowed@.len() == before.len(),
                ids.len() == i,
                leads(states, *old(store), *store, i as nat),
                forall|j: int|
                    0 <= j < i && #[trigger] owned_at(before, j) ==> exists|
                        asked: &mut StoreContextMut<'_, T>,
                    |
                        *asked == states[j] && *final(asked) == states[j + 1]
                            && #[trigger] reported(asked, before[j]@->Resource_0, ids[j]),
                forall|j: int|
                    0 <= j < i && !#[trigger] owned_at(before, j) ==> states[j + 1] == states[j],
                forall|j: int|
                    0 <= j < i ==> resolved_value(
                        self@,
                        before[j]@,
                        borrowed@[j],
                        ids[j],
                        (#[trigger] remapped@[j])@,
                    ),
                forall|j: int| i <= j < before.len() ==> (#[trigger] remapped@[j]) == before[j],
            decreases remapped.len() - i,
        {
            assert(remapped@[i as int] == before[i as int]);
            let ghost known = ids;
            let ghost passed = states;
            let ghost mut number: Option<u32> = None;
            if let Value::Resource(consumer) = &remapped[i] {
                let id = number_of(*consumer, borrowed[i], store);
                let handle = self.resolve(*consumer, id);
                proof {
                    number = id;
                }
                remapped.set(i, Value::Resource(handle));
            }
            proof {
                assert(owned_at(before, i as int) ==> exists|asked: &mut StoreContextMut<'_, T>|
                    *asked == passed[i as int] && *final(asked) == *store && #[trigger] reported(
                        asked,
                        before[i as int]@->Resource_0,
                        number,
                    ));
                ids = ids.push(number);
                states = states.push(*store);
                assert forall|j: int| 0 <= j < i + 1 && #[trigger] owned_at(before, j) implies exists|
                    asked: &mut StoreContextMut<'_, T>,
                |
                    *asked == states[j] && *final(asked) == states[j + 1] && #[trigger] reported(
                        asked,
                        before[j]@->Resource_0,
                        ids[j],
                    ) by {
                    if j < i {
                        assert(ids[j] == known[j]);
                        assert(states[j] == passed[j] && states[j + 1] == passed[j + 1]);
                    } else {
                        assert(ids[j] == number);
                        assert(states[j] == passed[j] && states[j + 1] == *store);
                    }
                }
                assert(resolved_value(
                    self@,
                    before[i as int]@,
                    borrowed@[i as int],
                    number,
                    remapped@[i as int]@,
                ));
            }
            i = i + 1;
        }
        assert(resolved_values(self@, before, borrowed@, ids, remapped@));
        assert(leads(states, *old(store), *store, before.len()));
        remapped
    }
}

/// The value number `i` is an owned handle.
pub open spec fn owned_at(values: Seq<Value>, i: int) -> bool {
    values[i]@ matches ValueTree::Resource(handle) && handle_owned(handle)
}

/// `after` is `before` with its handles resolved by the proxy numbers `ids`, where
/// `borrowed` are those of the borrowed handles.
pub open spec fn resolved_values(
    entries: Seq<Option<ResourceAny>>,
    before: Seq<Value>,
    borrowed: Seq<Option<u32>>,
    ids: Seq<Option<u32>>,
    after: Seq<Value>,
) -> bool {
    &&& ids.len() == before.len()
    &&& after.len() == before.len()
    &&& forall|i: int|
        0 <= i < after.len() ==> resolved_value(
            entries,
            before[i]@,
            borrowed[i],
            ids[i],
            (#[trigger] after[i])@,
        )
}

/// Whether one of `values` is a resource handle.
pub fn holds_resource(values: &Vec<Value>) -> (r: bool)
    ensures
        r == exists|i: int| 0 <= i < values@.len() && (#[trigger] values@[i])@ is Resource,
{
    let mut i: usize = 0;
    while i < values.len()
        invariant
            i <= values@.len(),
            forall|j: int| 0 <= j < i ==> !((#[trigger] values@[j])@ is Resource),
        decreases values.len() - i,
    {
        if let Value::Resource(_) = &values[i] {
            assert(values@[i as int]@ is Resource);
            return true;
        }
        i = i + 1;
    }
    false
}

// ---------------------------------------------------------------------------
// Laws
// ---------------------------------------------------------------------------

/// A handle that is put into a table goes into a slot that was free, is found
/// there, and changes no other slot.
pub proof fn an_inserted_handle_is_found(
    entries: Seq<Option<ResourceAny>>,
    handle: ResourceAny,
    other: int,
)
    ensures
        slot_of(entries, free_slot(entries)) is None,
        slot_of(placed(entries, handle), free_slot(entries)) == Some(handle),
        other != free_slot(entries) ==> slot_of(placed(entries, handle), other) == slot_of(
            entries,
            other,
        ),
{
    lemma_free_slot(entries);
}

/// A table grows only when all its slots are taken.
pub proof fn vacant_slots_are_reused(entries: Seq<Option<ResourceAny>>, handle: ResourceAny)
    ensures
        placed(entries, handle).len() > entries.len() <==> forall|i: int|
            0 <= i < entries.len() ==> (#[trigger] entries[i]) is Some,
{
    lemma_free_slot(entries);
}

/// If the results of a call are remapped with success, every handle among them becomes
/// an owned handle of the importer's type which stands for a slot that was free and
/// has the producer's handle in it, so that it comes back as an argument. Everything
/// else among the results, and in the table, stays. A table with more slots than
/// there are numbers is left out.
pub proof fn remapped_results_come_back(
    entries: Seq<Option<ResourceAny>>,
    ty_id: u32,
    before: Seq<Value>,
    left: Seq<Option<ResourceAny>>,
    after: Seq<Value>,
    i: int,
    slot: int,
)
    requires
        results_remapped(entries, ty_id, before, left, after, Ok(())),
        left.len() <= 0x1_0000_0000,
    ensures
        after.len() == before.len(),
        0 <= i < before.len() ==> match before[i]@ {
            ValueTree::Resource(producer) => {
                &&& after[i]@ is Resource
                &&& handle_owned(after[i]@->Resource_0)
                &&& handle_type(after[i]@->Resource_0) == host_type(ty_id)
                &&& exists|n: u32| #[trigger]
                    stands_for(after[i]@->Resource_0, n) && slot_of(entries, n as int) is None
                        && slot_of(left, n as int) == Some(producer) && slot_resolved(
                        left,
                        after[i]@->Resource_0,
                        Some(n),
                    ) == producer
            },
            other => after[i]@ == other,
        },
        slot_of(entries, slot) is Some ==> slot_of(left, slot) == slot_of(entries, slot),
{
    let trees = value_trees(before);
    lemma_filled_keeps(entries, trees, 0);
    assert(trees.take(0) =~= Seq::empty());
    if 0 <= i < before.len() {
        assert(trees[i] == before[i]@);
        assert(proxied_value(entries, ty_id, trees, i, after[i]@));
        if let ValueTree::Resource(producer) = before[i]@ {
            let known = filled(entries, trees.take(i));
            let n = free_slot(known);
            assert(trees.take(i + 1).drop_last() =~= trees.take(i));
            assert(filled(entries, trees.take(i + 1)) == placed(known, producer));
            an_inserted_handle_is_found(known, producer, 0);
            lemma_free_slot(known);
            lemma_filled_keeps(entries, trees, i + 1);
            lemma_filled_keeps(entries, trees.take(i), 0);
            assert(trees.take(i).take(0) =~= Seq::empty());
            assert(slot_of(left, n) == Some(producer));
            assert(n < left.len());
            assert((n as u32) as int == n);
            assert(slot_of(entries, n) is None) by {
                if slot_of(entries, n) is Some {
                    assert(slot_of(known, n) is Some);
                }
            }
            assert(stands_for(after[i]@->Resource_0, n as u32));
        }
    }
}

/// What is in a table when some of the values are in it is there when all of them are.
proof fn lemma_filled_keeps(
    entries: Seq<Option<ResourceAny>>,
    values: Seq<ValueTree>,
    n: int,
)
    requires
        0 <= n <= values.len(),
    ensures
        forall|slot: int| #[trigger]
            slot_of(filled(entries, values.take(n)), slot) is Some ==> slot_of(
                filled(entries, values),
                slot,
            ) == slot_of(filled(entries, values.take(n)), slot),
    decreases values.len(),
{
    if n == values.len() {
        assert(values.take(n) =~= values);
    } else {
        let init = values.drop_last();
        lemma_filled_keeps(entries, init, n);
        assert(init.take(n) =~= values.take(n));
        let before = filled(entries, init);
        if let ValueTree::Resource(handle) = values.last() {
            lemma_free_slot(before);
            assert forall|slot: int| #[trigger] slot_of(
                filled(entries, values.take(n)),
                slot,
            ) is Some implies slot_of(filled(entries, values), slot) == slot_of(
                filled(entries, values.take(n)),
                slot,
            ) by {
                an_inserted_handle_is_found(before, handle, slot);
                assert(slot_of(before, slot) is Some);
            }
        }
    }
}

/// An argument that stands for a proxy number becomes the producer's handle in that
/// slot, whatever slot it is. An argument that stands for none, or for a slot with
/// nothing in it, stays as it is, and so does every argument that is no handle.
pub proof fn parameters_become_the_producers_handles(
    entries: Seq<Option<ResourceAny>>,
    before: Seq<Value>,
    borrowed: Seq<Option<u32>>,
    ids: Seq<Option<u32>>,
    after: Seq<Value>,
    i: int,
)
    requires
        resolved_values(entries, before, borrowed, ids, after),
        0 <= i < before.len(),
    ensures
        after.len() == before.len(),
        match before[i]@ {
            ValueTree::Resource(consumer) => after[i]@ == ValueTree::Resource(
                if ids[i] is Some && ids[i]->0 < entries.len() && entries[ids[i]->0 as int] is Some {
                    entries[ids[i]->0 as int]->0
                } else {
                    consumer
                },
            ),
            other => after[i]@ == other,
        },
{
    assert(resolved_value(entries, before[i]@, borrowed[i], ids[i], after[i]@));
}

proof fn lemma_free_slot(entries: Seq<Option<ResourceAny>>)
    ensures
        0 <= free_slot(entries) <= entries.len(),
        free_slot(entries) < entries.len() ==> entries[free_slot(entries)] is None,
        forall|i: int| 0 <= i < free_slot(entries) ==> (#[trigger] entries[i]) is Some,
    decreases entries.len(),
{
    if entries.len() > 0 {
        let init = entries.drop_last();
        lemma_free_slot(init);
        assert forall|i: int| 0 <= i < free_slot(entries) implies (#[trigger] entries[i]) is Some by {
            if i < init.len() {
                assert(init[i] == entries[i]);
            }
        }
    }
}

proof fn lemma_free_slot_extends(entries: Seq<Option<ResourceAny>>, n: int)
    requires
        0 < n <= entries.len(),
        free_slot(entries.take(n)) == n - 1,
    ensures
        free_slot(entries) == n - 1,
    decreases entries.len(),
{
    if n < entries.len() {
        assert(entries.drop_last().take(n) =~= entries.take(n));
        lemma_free_slot_extends(entries.drop_last(), n);
    } else {
        assert(entries.take(n) =~= entries);
    }
}

} // verus!
