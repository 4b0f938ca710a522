//! Visitors of the resource handles of a value.

use vstd::prelude::*;
use wasmtime::component::{ResourceAny, ResourceType};

use crate::error::VisitError;
use crate::value::Leaf;

verus! {

/// The proxies of a consumer.
#[verifier::ext_equal]
pub struct ProxyState {
    /// The producer's handles, by proxy number.
    pub handles: Map<u32, ResourceAny>,
    /// For how many more there is room.
    pub room: nat,
    /// The numbers of the entries that cannot be taken out: those whose parent does
    /// not count them among its children.
    pub orphans: Set<u32>,
}

/// What one call of [`ValVisitor::visit`] did.
pub struct Visit<V> {
    /// The value that the visitor was shown.
    pub before: V,
    /// The resource type at that place.
    pub ty: ResourceType,
    /// The value that it left there.
    pub after: V,
    /// What it returned.
    pub outcome: Result<(), VisitError>,
    /// The proxies before the call.
    pub held: ProxyState,
    /// The proxies after the call.
    pub holds: ProxyState,
}

/// Visitor for cross-store value remapping.
///
/// Generic over the value type `V` (a resource handle, for instance). The
/// direction of the remapping is determined by which visitor is passed, not by
/// which method is called.
pub trait ValVisitor<V> {
    /// The calls so far.
    spec fn trace(&self) -> Seq<Visit<V>>;

    /// The proxies.
    spec fn proxies(&self) -> ProxyState;

    /// What this visitor may do in its call number `k`.
    spec fn allows(&self, k: int, visit: Visit<V>) -> bool;

    /// Remaps `val`, which has the resource type `ty`, in place.
    fn visit(&mut self, val: &mut V, ty: ResourceType) -> (outcome: Result<(), VisitError>)
        ensures
            final(self).trace() == old(self).trace().push(
                (Visit {
                    before: *old(val),
                    ty,
                    after: *final(val),
                    outcome,
                    held: old(self).proxies(),
                    holds: final(self).proxies(),
                }),
            ),
            old(self).allows(old(self).trace().len() as int, final(self).trace().last()),
            forall|k: int, visit: Visit<V>| #[trigger]
                final(self).allows(k, visit) == old(self).allows(k, visit),
    ;
}

/// The calls that took the visitor from `before` to `after`.
pub open spec fn new_visits<W: ValVisitor<ResourceAny>>(before: W, after: W) -> Seq<
    Visit<ResourceAny>,
> {
    after.trace().skip(before.trace().len() as int)
}

/// The handles that the calls left behind.
pub open spec fn handles_left(visits: Seq<Visit<ResourceAny>>) -> Seq<ResourceAny> {
    visits.map_values(|visit: Visit<ResourceAny>| visit.after)
}

/// The calls went through `leaves` in order, one call each, and stopped with
/// `outcome`: after the last leaf, or at the first call that failed.
pub open spec fn walked(
    leaves: Seq<Leaf>,
    visits: Seq<Visit<ResourceAny>>,
    outcome: Result<(), VisitError>,
) -> bool {
    &&& visits.len() <= leaves.len()
    &&& forall|i: int|
        0 <= i < visits.len() ==> (#[trigger] visits[i]).before == leaves[i].handle && visits[i].ty
            == leaves[i].ty
    &&& match outcome {
        Ok(()) => visits.len() == leaves.len() && forall|i: int|
            0 <= i < visits.len() ==> (#[trigger] visits[i]).outcome is Ok,
        Err(_) => visits.len() > 0 && visits.last().outcome == outcome && forall|i: int|
            0 <= i < visits.len() - 1 ==> (#[trigger] visits[i]).outcome is Ok,
    }
}

/// The calls follow one another from the proxies `start` to the proxies `end`.
pub open spec fn chained(
    start: ProxyState,
    visits: Seq<Visit<ResourceAny>>,
    end: ProxyState,
) -> bool
    decreases visits.len(),
{
    if visits.len() == 0 {
        start == end
    } else {
        visits.last().holds == end && chained(start, visits.drop_last(), visits.last().held)
    }
}

/// The visitor went through `leaves`, as far as `outcome` says, and each of its
/// calls is one that it allows.
pub open spec fn visited<W: ValVisitor<ResourceAny>>(
    before: W,
    after: W,
    leaves: Seq<Leaf>,
    outcome: Result<(), VisitError>,
) -> bool {
    let visits = new_visits(before, after);
    &&& after.trace() == before.trace() + visits
    &&& walked(leaves, visits, outcome)
    &&& chained(before.proxies(), visits, after.proxies())
    &&& forall|i: int|
        0 <= i < visits.len() ==> before.allows(before.trace().len() + i, #[trigger] visits[i])
    &&& forall|k: int, visit: Visit<ResourceAny>| #[trigger]
        after.allows(k, visit) == before.allows(k, visit)
}

pub(crate) proof fn lemma_visited_nothing<W: ValVisitor<ResourceAny>>(visitor: W)
    ensures
        visited(visitor, visitor, Seq::empty(), Ok(())),
        new_visits(visitor, visitor) == Seq::<Visit<ResourceAny>>::empty(),
{
    assert(new_visits(visitor, visitor) =~= Seq::empty());
    assert(visitor.trace() + Seq::empty() =~= visitor.trace());
}

pub(crate) proof fn lemma_visited_one<W: ValVisitor<ResourceAny>>(
    before: W,
    after: W,
    leaf: Leaf,
    visit: Visit<ResourceAny>,
)
    requires
        after.trace() == before.trace().push(visit),
        visit.before == leaf.handle,
        visit.ty == leaf.ty,
        visit.held == before.proxies(),
        visit.holds == after.proxies(),
        before.allows(before.trace().len() as int, visit),
        forall|k: int, v: Visit<ResourceAny>| #[trigger]
            after.allows(k, v) == before.allows(k, v),
    ensures
        visited(before, after, seq![leaf], visit.outcome),
        new_visits(before, after) == seq![visit],
{
    assert(new_visits(before, after) =~= seq![visit]);
    assert(before.trace() + seq![visit] =~= before.trace().push(visit));
    assert(seq![visit].drop_last() =~= Seq::empty());
    reveal_with_fuel(chained, 2);
}

pub(crate) proof fn lemma_chained_append(
    a: ProxyState,
    first: Seq<Visit<ResourceAny>>,
    b: ProxyState,
    second: Seq<Visit<ResourceAny>>,
    c: ProxyState,
)
    requires
        chained(a, first, b),
        chained(b, second, c),
    ensures
        chained(a, first + second, c),
    decreases second.len(),
{
    if second.len() == 0 {
        assert(first + second =~= first);
    } else {
        lemma_chained_append(a, first, b, second.drop_last(), second.last().held);
        assert((first + second).drop_last() =~= first + second.drop_last());
    }
}

pub(crate) proof fn lemma_walked_append(
    first: Seq<Leaf>,
    one: Seq<Visit<ResourceAny>>,
    second: Seq<Leaf>,
    two: Seq<Visit<ResourceAny>>,
    outcome: Result<(), VisitError>,
)
    requires
        walked(first, one, Ok(())),
        walked(second, two, outcome),
    ensures
        walked(first + second, one + two, outcome),
{
    let visits = one + two;
    let leaves = first + second;
    assert forall|i: int| 0 <= i < visits.len() implies (#[trigger] visits[i]).before
        == leaves[i].handle && visits[i].ty == leaves[i].ty by {
        if i < one.len() {
            assert(visits[i] == one[i]);
        } else {
            assert(visits[i] == two[i - one.len()]);
        }
    }
    assert forall|i: int|
        0 <= i < visits.len() && (i < visits.len() - 1 || outcome is Ok) implies (
    #[trigger] visits[i]).outcome is Ok by {
        if i < one.len() {
            assert(visits[i] == one[i]);
        } else {
            assert(visits[i] == two[i - one.len()]);
        }
    }
}

pub(crate) proof fn lemma_visited_more<W: ValVisitor<ResourceAny>>(
    a: W,
    b: W,
    c: W,
    first: Seq<Leaf>,
    second: Seq<Leaf>,
    outcome: Result<(), VisitError>,
)
    requires
        visited(a, b, first, Ok(())),
        visited(b, c, second, outcome),
    ensures
        visited(a, c, first + second, outcome),
        new_visits(a, c) == new_visits(a, b) + new_visits(b, c),
        new_visits(a, b).len() == first.len(),
        handles_left(new_visits(a, c)) == handles_left(new_visits(a, b)) + handles_left(
            new_visits(b, c),
        ),
{
    let one = new_visits(a, b);
    let two = new_visits(b, c);
    assert(new_visits(a, c) =~= one + two);
    assert(c.trace() =~= a.trace() + (one + two));
    lemma_walked_append(first, one, second, two, outcome);
    lemma_chained_append(a.proxies(), one, b.proxies(), two, c.proxies());
    assert(handles_left(one + two) =~= handles_left(one) + handles_left(two));
    assert forall|i: int| 0 <= i < (one + two).len() implies a.allows(
        a.trace().len() + i,
        #[trigger] (one + two)[i],
    ) by {
        if i < one.len() {
            assert((one + two)[i] == one[i]);
        } else {
            assert((one + two)[i] == two[i - one.len()]);
            assert(b.allows(b.trace().len() + (i - one.len()), two[i - one.len()]));
        }
    }
}

pub(crate) proof fn lemma_visited_failed<W: ValVisitor<ResourceAny>>(
    before: W,
    after: W,
    first: Seq<Leaf>,
    second: Seq<Leaf>,
    outcome: Result<(), VisitError>,
)
    requires
        visited(before, after, first, outcome),
        outcome is Err,
    ensures
        visited(before, after, first + second, outcome),
{
}

pub(crate) proof fn lemma_visited_under<W: ValVisitor<ResourceAny>>(
    before: W,
    after: W,
    leaves: Seq<Leaf>,
    outcome: Result<(), VisitError>,
    k: int,
)
    requires
        visited(before, after, leaves, outcome),
    ensures
        visited(before, after, crate::value::all_under(k, leaves), outcome),
{
}

} // verus!
