//! Dispatching the calls that reach a running component.

use std::collections::VecDeque;

use vstd::prelude::*;
use wasmtime::component::ComponentExportIndex;

use crate::error::CompositionError;

verus! {

// ---------------------------------------------------------------------------
// The order of calls
// ---------------------------------------------------------------------------

/// A single function-call request.
pub struct ChannelTask<P> {
    /// The place of the function in its component.
    pub export_index: ComponentExportIndex,
    /// Whether the function is declared `async`.
    pub is_async: bool,
    /// Arguments, results and where to reply.
    pub data: P,
}

/// What is dispatched at once.
pub enum Dispatch<P> {
    /// Calls that run concurrently.
    Concurrent(Vec<ChannelTask<P>>),
    /// A call that runs alone.
    Single(ChannelTask<P>),
}

/// The mathematical view of a [`Dispatch`].
pub enum DispatchView<P> {
    Concurrent(Seq<ChannelTask<P>>),
    Single(ChannelTask<P>),
}

impl<P> View for Dispatch<P> {
    type V = DispatchView<P>;

    open spec fn view(&self) -> DispatchView<P> {
        match *self {
            Dispatch::Concurrent(tasks) => DispatchView::Concurrent(tasks@),
            Dispatch::Single(task) => DispatchView::Single(task),
        }
    }
}

/// The views of a list of dispatches.
pub open spec fn dispatch_views<P>(dispatches: Seq<Dispatch<P>>) -> Seq<DispatchView<P>> {
    dispatches.map_values(|dispatch: Dispatch<P>| dispatch@)
}

/// The tasks of a dispatch, in order.
pub open spec fn tasks_of<P>(dispatch: DispatchView<P>) -> Seq<ChannelTask<P>> {
    match dispatch {
        DispatchView::Concurrent(tasks) => tasks,
        DispatchView::Single(task) => seq![task],
    }
}

/// How a batch of tasks is dispatched: in order, consecutive calls of `async`
/// functions together and every other call alone.
pub open spec fn schedule_of<P>(batch: Seq<ChannelTask<P>>) -> Seq<DispatchView<P>>
    decreases batch.len(),
{
    if batch.len() == 0 {
        Seq::empty()
    } else {
        let before = schedule_of(batch.drop_last());
        let task = batch.last();
        if !task.is_async {
            before.push(DispatchView::Single(task))
        } else if before.len() > 0 && before.last() is Concurrent {
            before.drop_last().push(
                DispatchView::Concurrent(before.last()->Concurrent_0.push(task)),
            )
        } else {
            before.push(DispatchView::Concurrent(seq![task]))
        }
    }
}

/// Schedules a batch of tasks.
pub fn schedule<P>(batch: Vec<ChannelTask<P>>) -> (dispatches: Vec<Dispatch<P>>)
    ensures
        dispatch_views(dispatches@) == schedule_of(batch@),
{
    let ghost all = batch@;
    let mut dispatches: Vec<Dispatch<P>> = Vec::new();
    let mut async_run: Vec<ChannelTask<P>> = Vec::new();
    assert(all.take(0) =~= Seq::empty());
    assert(flushed(dispatches@, async_run@) =~= schedule_of(all.take(0)));
    for task in iter: batch
        invariant
            iter.seq() == all,
            flushed(dispatches@, async_run@) == schedule_of(all.take(iter.index() as int)),
            dispatches@.len() > 0 ==> dispatches@.last() is Single,
    {
        let ghost i = iter.index() as int;
        assert(all.take(i + 1).drop_last() =~= all.take(i));
        assert(all.take(i + 1).last() == task);
        let ghost run = async_run@;
        let ghost done = dispatches@;
        if task.is_async {
            async_run.push(task);
            proof {
                let before = schedule_of(all.take(i));
                if run.len() > 0 {
                    assert(before.drop_last() =~= dispatch_views(done));
                } else if before.len() > 0 {
                    assert(before.last() == done.last()@);
                    assert(run.push(task) =~= seq![task]);
                } else {
                    assert(run.push(task) =~= seq![task]);
                }
            }
            assert(flushed(dispatches@, async_run@) =~= schedule_of(all.take(i + 1)));
        } else {
            if async_run.len() > 0 {
                let mut tasks: Vec<ChannelTask<P>> = Vec::new();
                std::mem::swap(&mut tasks, &mut async_run);
                dispatches.push(Dispatch::Concurrent(tasks));
                assert(dispatch_views(dispatches@) =~= flushed(done, run));
            }
            let ghost cleared = dispatches@;
            dispatches.push(Dispatch::Single(task));
            assert(dispatch_views(dispatches@) =~= dispatch_views(cleared).push(
                DispatchView::Single(task),
            ));
            assert(flushed(dispatches@, async_run@) =~= schedule_of(all.take(i + 1)));
        }
    }
    assert(all.take(all.len() as int) =~= all);
    if async_run.len() > 0 {
        let ghost done = dispatches@;
        let ghost run = async_run@;
        dispatches.push(Dispatch::Concurrent(async_run));
        assert(dispatch_views(dispatches@) =~= flushed(done, run));
    }
    dispatches
}

/// The schedule once the run of `async` calls that is not yet dispatched is.
spec fn flushed<P>(dispatches: Seq<Dispatch<P>>, run: Seq<ChannelTask<P>>) -> Seq<
    DispatchView<P>,
> {
    if run.len() > 0 {
        dispatch_views(dispatches).push(DispatchView::Concurrent(run))
    } else {
        dispatch_views(dispatches)
    }
}

/// All the tasks of the dispatches, in order.
pub open spec fn flattened<P>(dispatches: Seq<DispatchView<P>>) -> Seq<ChannelTask<P>>
    decreases dispatches.len(),
{
    if dispatches.len() == 0 {
        Seq::empty()
    } else {
        flattened(dispatches.drop_last()) + tasks_of(dispatches.last())
    }
}

/// Only calls of `async` functions run concurrently, and all of them do.
pub open spec fn well_sorted<P>(dispatch: DispatchView<P>) -> bool {
    match dispatch {
        DispatchView::Concurrent(tasks) => tasks.len() > 0 && forall|i: int|
            0 <= i < tasks.len() ==> (#[trigger] tasks[i]).is_async,
        DispatchView::Single(task) => !task.is_async,
    }
}

/// Every task of a batch is dispatched, once and in order.
pub proof fn batches_are_dispatched_in_order<P>(batch: Seq<ChannelTask<P>>)
    ensures
        flattened(schedule_of(batch)) == batch,
    decreases batch.len(),
{
    let now = schedule_of(batch);
    if batch.len() > 0 {
        let init = batch.drop_last();
        let before = schedule_of(init);
        let task = batch.last();
        batches_are_dispatched_in_order(init);
        if task.is_async && before.len() > 0 && before.last() is Concurrent {
            let run = before.last()->Concurrent_0;
            assert(now.drop_last() =~= before.drop_last());
            assert(flattened(now) =~= flattened(before.drop_last()) + run.push(task));
            assert(flattened(now) =~= flattened(before).push(task));
        } else {
            assert(now.drop_last() =~= before);
            assert(flattened(now) =~= flattened(before).push(task));
        }
        assert(flattened(now) =~= batch);
    } else {
        assert(flattened(now) =~= batch);
    }
}

/// Calls run concurrently just where the functions are `async` and the calls come
/// one after the other: of two neighbouring dispatches at least one is a single
/// call.
pub proof fn neighbouring_async_calls_run_together<P>(batch: Seq<ChannelTask<P>>, k: int)
    requires
        0 <= k < schedule_of(batch).len(),
    ensures
        well_sorted(schedule_of(batch)[k]),
        k > 0 ==> schedule_of(batch)[k] is Single || schedule_of(batch)[k - 1] is Single,
    decreases batch.len(),
{
    let now = schedule_of(batch);
    let init = batch.drop_last();
    let before = schedule_of(init);
    let task = batch.last();
    if task.is_async && before.len() > 0 && before.last() is Concurrent {
        neighbouring_async_calls_run_together(init, before.len() - 1);
        if k < before.len() - 1 {
            neighbouring_async_calls_run_together(init, k);
        }
    } else if k < before.len() {
        neighbouring_async_calls_run_together(init, k);
    } else if before.len() > 0 {
        neighbouring_async_calls_run_together(init, before.len() - 1);
    }
}

/// The inbox of a running component: what has been received and is not dispatched
/// yet. One dispatch runs at a time, in order.
pub struct Inbox<P> {
    waiting: VecDeque<Dispatch<P>>,
    busy: bool,
}

/// The mathematical view of an [`Inbox`].
#[verifier::ext_equal]
pub struct InboxView<P> {
    /// What is to be dispatched, in order.
    pub waiting: Seq<DispatchView<P>>,
    /// Whether a dispatch is running.
    pub busy: bool,
}

impl<P> View for Inbox<P> {
    type V = InboxView<P>;

    closed spec fn view(&self) -> InboxView<P> {
        InboxView { waiting: dispatch_views(self.waiting@), busy: self.busy }
    }
}

impl<P> Inbox<P> {
    /// Nothing is waiting or running.
    pub fn new() -> (inbox: Self)
        ensures
            inbox@ == (InboxView { waiting: Seq::<DispatchView<P>>::empty(), busy: false }),
    {
        let inbox = Inbox { waiting: VecDeque::new(), busy: false };
        assert(inbox@.waiting =~= Seq::empty());
        inbox
    }

    /// Takes in a batch of tasks. Says whether there can be more: an empty batch is
    /// received when all senders are gone and nothing is left.
    pub fn receive(&mut self, batch: Vec<ChannelTask<P>>) -> (open: bool)
        ensures
            open == (batch@.len() > 0),
            final(self)@ == (InboxView {
                waiting: old(self)@.waiting + schedule_of(batch@),
                busy: old(self)@.busy,
            }),
    {
        let open = batch.len() > 0;
        let dispatches = schedule(batch);
        let ghost all = dispatches@;
        assert(dispatch_views(all.take(0)) =~= Seq::empty());
        for dispatch in iter: dispatches
            invariant
                iter.seq() == all,
                self.busy == old(self).busy,
                self@.waiting =~= old(self)@.waiting + dispatch_views(
                    all.take(iter.index() as int),
                ),
        {
            let ghost i = iter.index() as int;
            let ghost before = self@.waiting;
            self.waiting.push_back(dispatch);
            assert(self@.waiting =~= before.push(dispatch@));
            assert(dispatch_views(all.take(i + 1)) =~= dispatch_views(all.take(i)).push(
                dispatch@,
            ));
        }
        assert(all.take(all.len() as int) =~= all);
        open
    }

    /// What to dispatch next: nothing while a dispatch is running.
    pub fn next(&mut self) -> (dispatch: Option<Dispatch<P>>)
        ensures
            match dispatch {
                Some(dispatch) => {
                    &&& !old(self)@.busy
                    &&& final(self)@.busy
                    &&& old(self)@.waiting == seq![dispatch@] + final(self)@.waiting
                },
                None => {
                    &&& old(self)@.busy || old(self)@.waiting.len() == 0
                    &&& final(self)@ == old(self)@
                },
            },
    {
        if self.busy {
            return None;
        }
        let dispatch = self.waiting.pop_front();
        if dispatch.is_some() {
            self.busy = true;
            assert(old(self)@.waiting =~= seq![dispatch->0@] + self@.waiting);
        }
        dispatch
    }

    /// Takes note that the dispatch that was running is over: all its calls are
    /// replied to.
    pub fn finished(&mut self)
        ensures
            final(self)@ == (InboxView { waiting: old(self)@.waiting, busy: false }),
    {
        self.busy = false;
    }
}

/// What happens to an inbox.
pub enum InboxEvent<P> {
    /// A batch of tasks is received.
    Received(Seq<ChannelTask<P>>),
    /// The next dispatch is asked for, and starts if there is one.
    Next,
    /// The dispatch that was running is over.
    Finished,
}

/// The history of an inbox.
pub struct InboxHistory<P> {
    /// The batches that were received.
    pub received: Seq<Seq<ChannelTask<P>>>,
    /// The dispatches that have started, in order.
    pub started: Seq<DispatchView<P>>,
    /// How many of them are over.
    pub over: nat,
    /// The inbox.
    pub inbox: InboxView<P>,
}

/// The history of a new inbox to which `events` have happened, in order.
pub open spec fn history<P>(events: Seq<InboxEvent<P>>) -> InboxHistory<P>
    decreases events.len(),
{
    if events.len() == 0 {
        InboxHistory {
            received: Seq::empty(),
            started: Seq::empty(),
            over: 0,
            inbox: InboxView { waiting: Seq::empty(), busy: false },
        }
    } else {
        let before = history(events.drop_last());
        let inbox = before.inbox;
        match events.last() {
            InboxEvent::Received(batch) => InboxHistory {
                received: before.received.push(batch),
                inbox: InboxView {
                    waiting: inbox.waiting + schedule_of(batch),
                    busy: inbox.busy,
                },
                ..before
            },
            InboxEvent::Next => if inbox.busy || inbox.waiting.len() == 0 {
                before
            } else {
                InboxHistory {
                    started: before.started.push(inbox.waiting[0]),
                    inbox: InboxView { waiting: inbox.waiting.skip(1), busy: true },
                    ..before
                }
            },
            InboxEvent::Finished => InboxHistory {
                over: before.over + if inbox.busy {
                    1nat
                } else {
                    0nat
                },
                inbox: InboxView { waiting: inbox.waiting, busy: false },
                ..before
            },
        }
    }
}

/// Whatever happens to an inbox, what has started and what is waiting is all that is
/// scheduled for the batches received, in order; and a dispatch starts only when all
/// that started before it are over, so that at most one is running.
pub proof fn dispatches_run_one_after_the_other<P>(events: Seq<InboxEvent<P>>)
    ensures
        ({
            let now = history(events);
            &&& now.started + now.inbox.waiting == course_of(now.received)
            &&& now.started.len() == now.over + if now.inbox.busy {
                1nat
            } else {
                0nat
            }
            &&& history(events.push(InboxEvent::Next)).started.len() > now.started.len()
                ==> now.over == now.started.len()
        }),
    decreases events.len(),
{
    let now = history(events);
    assert(events.push(InboxEvent::Next).drop_last() =~= events);
    if events.len() > 0 {
        dispatches_run_one_after_the_other(events.drop_last());
        let before = history(events.drop_last());
        match events.last() {
            InboxEvent::Received(batch) => {
                assert(now.received.drop_last() =~= before.received);
                assert(now.started + now.inbox.waiting =~= (before.started + before.inbox.waiting)
                    + schedule_of(batch));
            },
            _ => {},
        }
        assert(now.started + now.inbox.waiting =~= course_of(now.received));
    } else {
        assert(now.started + now.inbox.waiting =~= course_of(now.received));
    }
}

/// The tasks of batches, in the order of their arrival.
pub open spec fn arrivals<P>(batches: Seq<Seq<ChannelTask<P>>>) -> Seq<ChannelTask<P>>
    decreases batches.len(),
{
    if batches.len() == 0 {
        Seq::empty()
    } else {
        arrivals(batches.drop_last()) + batches.last()
    }
}

/// All that is dispatched for batches that are received one after the other, in
/// order.
pub open spec fn course_of<P>(batches: Seq<Seq<ChannelTask<P>>>) -> Seq<DispatchView<P>>
    decreases batches.len(),
{
    if batches.len() == 0 {
        Seq::empty()
    } else {
        course_of(batches.drop_last()) + schedule_of(batches.last())
    }
}

/// The number of the dispatch in which the task number `p` runs.
pub open spec fn dispatch_of<P>(dispatches: Seq<DispatchView<P>>, p: int) -> int
    decreases dispatches.len(),
{
    if dispatches.len() == 0 {
        0
    } else if p < flattened(dispatches.drop_last()).len() {
        dispatch_of(dispatches.drop_last(), p)
    } else {
        dispatches.len() - 1
    }
}

/// However the tasks come in batches, every task that arrives is dispatched, once
/// and in the order of arrival.
pub proof fn every_arrival_is_dispatched<P>(batches: Seq<Seq<ChannelTask<P>>>)
    ensures
        flattened(course_of(batches)) == arrivals(batches),
    decreases batches.len(),
{
    if batches.len() > 0 {
        every_arrival_is_dispatched(batches.drop_last());
        batches_are_dispatched_in_order(batches.last());
        lemma_flattened_append(course_of(batches.drop_last()), schedule_of(batches.last()));
    }
}

/// However the tasks come in batches, a task starts in the same dispatch as one that
/// arrived before it, or in a later one. In the same dispatch, and so at the same
/// time, only consecutive calls of `async` functions run. So a call of any other
/// function starts when all earlier calls are replied to, and no later call starts
/// before its own reply.
pub proof fn only_consecutive_async_calls_overlap<P>(
    batches: Seq<Seq<ChannelTask<P>>>,
    p: int,
    q: int,
)
    requires
        0 <= p < q < arrivals(batches).len(),
    ensures
        ({
            let dispatches = course_of(batches);
            let first = dispatch_of(dispatches, p);
            let second = dispatch_of(dispatches, q);
            &&& 0 <= first <= second < dispatches.len()
            &&& tasks_of(dispatches[first]).contains(arrivals(batches)[p])
            &&& tasks_of(dispatches[second]).contains(arrivals(batches)[q])
            &&& first == second ==> forall|k: int|
                p <= k <= q ==> (#[trigger] arrivals(batches)[k]).is_async
            &&& !arrivals(batches)[p].is_async || !arrivals(batches)[q].is_async ==> first < second
        }),
{
    every_arrival_is_dispatched(batches);
    let dispatches = course_of(batches);
    assert forall|i: int| 0 <= i < dispatches.len() implies well_sorted(#[trigger] dispatches[i]) by {
        lemma_course_well_sorted(batches, i);
    }
    lemma_dispatch_of(dispatches, p, q);
    if dispatch_of(dispatches, p) == dispatch_of(dispatches, q) {
        assert(arrivals(batches)[p].is_async && arrivals(batches)[q].is_async);
    }
}

/// The tasks of dispatches, one after the other.
proof fn lemma_flattened_append<P>(first: Seq<DispatchView<P>>, second: Seq<DispatchView<P>>)
    ensures
        flattened(first + second) == flattened(first) + flattened(second),
    decreases second.len(),
{
    if second.len() == 0 {
        assert(first + second =~= first);
        assert(flattened(first) + flattened(second) =~= flattened(first));
    } else {
        lemma_flattened_append(first, second.drop_last());
        assert((first + second).drop_last() =~= first + second.drop_last());
        assert(flattened(first + second) =~= flattened(first) + flattened(second));
    }
}

/// What is dispatched is sorted, batch by batch.
proof fn lemma_course_well_sorted<P>(batches: Seq<Seq<ChannelTask<P>>>, i: int)
    requires
        0 <= i < course_of(batches).len(),
    ensures
        well_sorted(course_of(batches)[i]),
    decreases batches.len(),
{
    let before = course_of(batches.drop_last());
    if i < before.len() {
        lemma_course_well_sorted(batches.drop_last(), i);
    } else {
        neighbouring_async_calls_run_together(batches.last(), i - before.len());
    }
}

/// Where two tasks run.
proof fn lemma_dispatch_of<P>(dispatches: Seq<DispatchView<P>>, p: int, q: int)
    requires
        0 <= p <= q < flattened(dispatches).len(),
        forall|i: int| 0 <= i < dispatches.len() ==> well_sorted(#[trigger] dispatches[i]),
    ensures
        ({
            let first = dispatch_of(dispatches, p);
            let second = dispatch_of(dispatches, q);
            &&& 0 <= first <= second < dispatches.len()
            &&& tasks_of(dispatches[first]).contains(flattened(dispatches)[p])
            &&& tasks_of(dispatches[second]).contains(flattened(dispatches)[q])
            &&& first == second && p < q ==> forall|k: int|
                p <= k <= q ==> (#[trigger] flattened(dispatches)[k]).is_async
        }),
    decreases dispatches.len(),
{
    let init = dispatches.drop_last();
    let before = flattened(init);
    let last = tasks_of(dispatches.last());
    let all = flattened(dispatches);
    assert forall|i: int| 0 <= i < init.len() implies well_sorted(#[trigger] init[i]) by {
        assert(init[i] == dispatches[i]);
    }
    assert(dispatches[dispatches.len() - 1] == dispatches.last());
    assert(well_sorted(dispatches[dispatches.len() - 1]));
    if q < before.len() {
        lemma_dispatch_of(init, p, q);
        assert forall|k: int| p <= k <= q implies before[k] == #[trigger] all[k] by {}
    } else {
        assert(last[q - before.len()] == all[q]);
        if p < before.len() {
            lemma_dispatch_of(init, p, p);
        } else {
            assert(last[p - before.len()] == all[p]);
            assert forall|k: int| p <= k <= q && p < q implies (#[trigger] all[k]).is_async by {
                assert(last[k - before.len()] == all[k]);
            }
        }
    }
}

// ---------------------------------------------------------------------------
// The course of a call
// ---------------------------------------------------------------------------

/// How far a call has come.
pub enum CallProgress {
    /// The function is to be called.
    Calling,
    /// The function has returned and is to be finished with.
    Finishing,
    /// The call is over, and this is the reply.
    Done(Result<(), CompositionError>),
}

/// The start of a call, where the function has been found in the instance or not.
pub open spec fn call_started(found: bool) -> CallProgress {
    if found {
        CallProgress::Calling
    } else {
        CallProgress::Done(Err(CompositionError::FuncNotFound))
    }
}

/// The call `progress` after its next step has come to `outcome`.
pub open spec fn call_advanced(
    progress: CallProgress,
    outcome: Result<(), wasmtime::Error>,
) -> CallProgress {
    match (progress, outcome) {
        (CallProgress::Calling, Ok(())) => CallProgress::Finishing,
        (CallProgress::Finishing, Ok(())) => CallProgress::Done(Ok(())),
        (CallProgress::Done(reply), _) => CallProgress::Done(reply),
        (_, Err(e)) => CallProgress::Done(Err(CompositionError::Runtime(e))),
    }
}

impl CallProgress {
    /// The start of a call, where the function has been found in the instance or
    /// not.
    pub fn start(found: bool) -> (progress: Self)
        ensures
            progress == call_started(found),
    {
        if found {
            CallProgress::Calling
        } else {
            CallProgress::Done(Err(CompositionError::FuncNotFound))
        }
    }

    /// The call after its next step has come to `outcome`.
    pub fn advance(self, outcome: Result<(), wasmtime::Error>) -> (progress: Self)
        ensures
            progress == call_advanced(self, outcome),
    {
        match (self, outcome) {
            (CallProgress::Calling, Ok(())) => CallProgress::Finishing,
            (CallProgress::Finishing, Ok(())) => CallProgress::Done(Ok(())),
            (CallProgress::Done(reply), _) => CallProgress::Done(reply),
            (_, Err(e)) => CallProgress::Done(Err(CompositionError::Runtime(e))),
        }
    }
}

/// A call is over when the function has been called and finished with, and its reply
/// is the first error on the way, if there is one.
pub proof fn every_call_comes_to_a_reply(
    found: bool,
    called: Result<(), wasmtime::Error>,
    finished: Result<(), wasmtime::Error>,
)
    ensures
        call_advanced(call_advanced(call_started(found), called), finished) == CallProgress::Done(
            if !found {
                Err(CompositionError::FuncNotFound)
            } else if let Err(e) = called {
                Err(CompositionError::Runtime(e))
            } else if let Err(e) = finished {
                Err(CompositionError::Runtime(e))
            } else {
                Ok(())
            },
        ),
{
}

/// What a caller gets: the reply or, where the component is gone before it has
/// taken the call or replied, an error.
pub fn received(reply: Option<Result<(), CompositionError>>) -> (r: Result<(), CompositionError>)
    ensures
        r == match reply {
            Some(reply) => reply,
            None => Err(CompositionError::Unavailable),
        },
{
    match reply {
        Some(reply) => reply,
        None => Err(CompositionError::Unavailable),
    }
}

// ---------------------------------------------------------------------------
// Replies
// ---------------------------------------------------------------------------

/// Reply slots for concurrent dispatch.
///
/// Replies are sent one by one as the calls complete, and those that are left
/// when all of them fail together get the error.
pub struct ReplySlots<R> {
    slots: Vec<Option<R>>,
}

impl<R> View for ReplySlots<R> {
    type V = Seq<Option<R>>;

    closed spec fn view(&self) -> Seq<Option<R>> {
        self.slots@
    }
}

/// The replies that are still in their slots, in order.
pub open spec fn unsent<R>(slots: Seq<Option<R>>) -> Seq<R>
    decreases slots.len(),
{
    if slots.len() == 0 {
        Seq::empty()
    } else {
        match slots.last() {
            Some(reply) => unsent(slots.drop_last()).push(reply),
            None => unsent(slots.drop_last()),
        }
    }
}

/// The error that the reply number `k` of those that are left gets: the first one
/// the original error, the others that the component is unavailable.
pub open spec fn error_for(k: int, error: wasmtime::Error) -> CompositionError {
    if k == 0 {
        CompositionError::Runtime(error)
    } else {
        CompositionError::Unavailable
    }
}

impl<R> ReplySlots<R> {
    /// A slot for each of `replies`.
    pub fn new(replies: Vec<Option<R>>) -> (slots: Self)
        ensures
            slots@ == replies@,
    {
        ReplySlots { slots: replies }
    }

    /// Takes the reply at `idx` out of its slot, to send a result through it. It
    /// is there once.
    pub fn take(&mut self, idx: usize) -> (reply: Option<R>)
        requires
            idx < old(self)@.len(),
        ensures
            reply == old(self)@[idx as int],
            final(self)@ == old(self)@.update(idx as int, None),
    {
        let mut reply = None;
        std::mem::swap(&mut reply, &mut self.slots[idx]);
        reply
    }

    /// The number of slots.
    pub fn len(&self) -> (n: usize)
        ensures
            n == self@.len(),
    {
        self.slots.len()
    }

    /// Propagates an error to all replies that haven't been sent yet: takes them
    /// out of their slots, each with what it is to get.
    ///
    /// The first unsent slot receives the original error; the rest get
    /// `Unavailable`.
    pub fn propagate_error(&mut self, error: wasmtime::Error) -> (sent: Vec<(R, CompositionError)>)
        ensures
            sent@.len() == unsent(old(self)@).len(),
            forall|k: int|
                0 <= k < sent@.len() ==> (#[trigger] sent@[k]).0 == unsent(old(self)@)[k]
                    && sent@[k].1 == error_for(k, error),
            final(self)@.len() == old(self)@.len(),
            forall|i: int| 0 <= i < final(self)@.len() ==> (#[trigger] final(self)@[i]) is None,
    {
        let ghost all = self.slots@;
        let ghost original = error;
        let mut error = Some(error);
        let mut slots: Vec<Option<R>> = Vec::new();
        std::mem::swap(&mut slots, &mut self.slots);
        let mut sent: Vec<(R, CompositionError)> = Vec::new();
        assert(all.take(0) =~= Seq::empty());
        for slot in iter: slots
            invariant
                iter.seq() == all,
                sent@.len() == unsent(all.take(iter.index() as int)).len(),
                forall|k: int|
                    0 <= k < sent@.len() ==> (#[trigger] sent@[k]).0 == unsent(
                        all.take(iter.index() as int),
                    )[k] && sent@[k].1 == error_for(k, original),
                error == if sent@.len() == 0 {
                    Some(original)
                } else {
                    None
                },
                self.slots@.len() == iter.index(),
                forall|i: int| 0 <= i < self.slots@.len() ==> (#[trigger] self.slots@[i]) is None,
        {
            let ghost i = iter.index() as int;
            assert(all.take(i + 1).drop_last() =~= all.take(i));
            assert(all.take(i + 1).last() == slot);
            if let Some(reply) = slot {
                let e = match error.take() {
                    Some(e) => CompositionError::Runtime(e),
                    None => CompositionError::Unavailable,
                };
                sent.push((reply, e));
            }
            self.slots.push(None);
        }
        assert(all.take(all.len() as int) =~= all);
        sent
    }
}

/// An error that ends a concurrent dispatch is handed on once, to the first call that
/// is left; the others learn that the component is unavailable.
pub proof fn an_error_is_handed_on_once(k: int, error: wasmtime::Error)
    ensures
        k == 0 ==> error_for(k, error) == CompositionError::Runtime(error),
        k != 0 ==> error_for(k, error) == CompositionError::Unavailable,
{
}

/// The slots once the replies at `done` have been taken, in order.
pub open spec fn taken<R>(slots: Seq<Option<R>>, done: Seq<int>) -> Seq<Option<R>>
    decreases done.len(),
{
    if done.len() == 0 {
        slots
    } else {
        taken(slots, done.drop_last()).update(done.last(), None)
    }
}

/// Every call of a concurrent dispatch is replied to, once: the replies that are left
/// when some of the calls, each at its own time, are replied to are those of all the
/// others; and none is left when all of them are.
pub proof fn every_call_is_replied_to<R>(slots: Seq<Option<R>>, done: Seq<int>)
    requires
        forall|i: int| 0 <= i < slots.len() ==> (#[trigger] slots[i]) is Some,
        forall|k: int| 0 <= k < done.len() ==> 0 <= (#[trigger] done[k]) < slots.len(),
        done.no_duplicates(),
    ensures
        taken(slots, done).len() == slots.len(),
        forall|i: int|
            0 <= i < slots.len() ==> (#[trigger] taken(slots, done)[i]) == if done.contains(i) {
                None
            } else {
                slots[i]
            },
        unsent(taken(slots, done)).len() == slots.len() - done.len(),
    decreases done.len(),
{
    if done.len() == 0 {
        lemma_unsent_all(slots);
    } else {
        let init = done.drop_last();
        let before = taken(slots, init);
        let last = done.last();
        assert forall|k: int| 0 <= k < init.len() implies 0 <= (#[trigger] init[k]) < slots.len() by {
            assert(init[k] == done[k]);
        }
        assert(done[done.len() - 1] == last);
        every_call_is_replied_to(slots, init);
        assert(!init.contains(last));
        assert(before[last] is Some);
        a_reply_is_sent_once(before, last);
        assert forall|i: int| 0 <= i < slots.len() implies (#[trigger] taken(slots, done)[i])
            == if done.contains(i) {
            None
        } else {
            slots[i]
        } by {
            if i != last {
                assert(done.contains(i) <==> init.contains(i)) by {
                    if done.contains(i) {
                        let k = choose|k: int| 0 <= k < done.len() && done[k] == i;
                        assert(init[k] == i);
                    }
                    if init.contains(i) {
                        let k = choose|k: int| 0 <= k < init.len() && init[k] == i;
                        assert(done[k] == i);
                    }
                }
                assert(taken(slots, done)[i] == before[i]);
            }
        }
    }
}

/// Where nothing has been sent, everything is left.
proof fn lemma_unsent_all<R>(slots: Seq<Option<R>>)
    requires
        forall|i: int| 0 <= i < slots.len() ==> (#[trigger] slots[i]) is Some,
    ensures
        unsent(slots).len() == slots.len(),
    decreases slots.len(),
{
    if slots.len() > 0 {
        assert(slots[slots.len() - 1] is Some);
        lemma_unsent_all(slots.drop_last());
    }
}

/// A reply is sent at most once: once it is taken out of its slot it is not among
/// those that are left, and those are the others, in their order.
pub proof fn a_reply_is_sent_once<R>(slots: Seq<Option<R>>, idx: int)
    requires
        0 <= idx < slots.len(),
        slots[idx] is Some,
    ensures
        slots.update(idx, None)[idx] is None,
        unsent(slots) == unsent(slots.take(idx)) + seq![slots[idx]->0] + unsent(
            slots.skip(idx + 1),
        ),
        unsent(slots.update(idx, None)) == unsent(slots.take(idx)) + unsent(slots.skip(idx + 1)),
{
    let after = slots.update(idx, None);
    lemma_unsent_split(slots, idx + 1);
    lemma_unsent_split(after, idx + 1);
    assert(slots.take(idx + 1).drop_last() =~= slots.take(idx));
    assert(after.take(idx + 1).drop_last() =~= slots.take(idx));
    assert(after.skip(idx + 1) =~= slots.skip(idx + 1));
    assert(unsent(slots.take(idx + 1)) =~= unsent(slots.take(idx)) + seq![slots[idx]->0]);
}

proof fn lemma_unsent_split<R>(slots: Seq<Option<R>>, n: int)
    requires
        0 <= n <= slots.len(),
    ensures
        unsent(slots) == unsent(slots.take(n)) + unsent(slots.skip(n)),
    decreases slots.len(),
{
    if n == slots.len() {
        assert(slots.take(n) =~= slots);
        assert(slots.skip(n) =~= Seq::empty());
        assert(unsent(slots) =~= unsent(slots) + Seq::empty());
    } else {
        lemma_unsent_split(slots.drop_last(), n);
        assert(slots.drop_last().take(n) =~= slots.take(n));
        assert(slots.skip(n).drop_last() =~= slots.drop_last().skip(n));
        assert(slots.skip(n).last() == slots.last());
        assert(unsent(slots) =~= unsent(slots.take(n)) + unsent(slots.skip(n)));
    }
}

} // verus!
