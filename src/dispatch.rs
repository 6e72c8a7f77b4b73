//! Dispatching one remote check per segment with a bounded number in flight,
//! and merging their outcomes in segment order whatever order they finish in.
use vstd::prelude::*;
use crate::grammar::CheckResult;
use crate::splitter::segments_of;

verus! {

/// Why the check of one segment produced no findings.
#[derive(Clone, Copy, Debug, PartialEq, Eq, Structural)]
pub enum CheckError {
    /// No response came back (connection failure, timeout).
    Transport,
    /// A response came back but did not have the expected shape.
    ResponseParse,
}

/// What the check of one segment gave.
pub type Outcome = Result<Vec<CheckResult>, CheckError>;

/// A segment whose check failed: its index in document order and the error.
#[derive(Clone, Copy, Debug, PartialEq, Eq, Structural)]
pub struct SegmentFailure {
    pub index: usize,
    pub error: CheckError,
}

/// Where the check of one segment stands.
pub enum SlotState {
    Waiting,
    Running,
    Done(Outcome),
}

/// The findings of all segments of one document, in document order, with the
/// segments whose check failed and whether the run was cancelled.
pub struct AggregatedResult {
    pub matches: Vec<CheckResult>,
    pub failures: Vec<SegmentFailure>,
    pub cancelled: bool,
}

/// Number of checks under way.
pub open spec fn running_count(slots: Seq<SlotState>) -> nat
    decreases slots.len(),
{
    if slots.len() == 0 {
        0
    } else {
        running_count(slots.drop_last()) + if slots.last() is Running {
            1nat
        } else {
            0nat
        }
    }
}

/// The findings of the segments whose check succeeded, in segment order.
pub open spec fn matches_of(slots: Seq<SlotState>) -> Seq<CheckResult>
    decreases slots.len(),
{
    if slots.len() == 0 {
        Seq::empty()
    } else {
        matches_of(slots.drop_last()) + match slots.last() {
            SlotState::Done(Ok(found)) => found@,
            _ => Seq::empty(),
        }
    }
}

/// The segments whose check failed, in segment order.
pub open spec fn failures_of(slots: Seq<SlotState>) -> Seq<SegmentFailure>
    decreases slots.len(),
{
    if slots.len() == 0 {
        Seq::empty()
    } else {
        failures_of(slots.drop_last()) + match slots.last() {
            SlotState::Done(Err(e)) => seq![SegmentFailure { index: (slots.len() - 1) as usize, error: e }],
            _ => Seq::empty(),
        }
    }
}

/// The state of a dispatcher.
pub struct DispatchState {
    /// Most checks under way at once.
    pub limit: nat,
    /// Segments `[0, next)` have been handed out.
    pub next: nat,
    pub cancelled: bool,
    pub slots: Seq<SlotState>,
}

/// Hands out segment indices to check, at most `limit` under way at a time,
/// and keeps each outcome in the slot of its segment.
pub struct Dispatcher {
    limit: usize,
    next: usize,
    running: usize,
    cancelled: bool,
    slots: Vec<SlotState>,
}

impl View for Dispatcher {
    type V = DispatchState;

    closed spec fn view(&self) -> DispatchState {
        DispatchState {
            limit: self.limit as nat,
            next: self.next as nat,
            cancelled: self.cancelled,
            slots: self.slots@,
        }
    }
}

proof fn lemma_running_count_update(slots: Seq<SlotState>, i: int, s: SlotState)
    requires
        0 <= i < slots.len(),
    ensures
        running_count(slots.update(i, s)) + (if slots[i] is Running {
            1int
        } else {
            0int
        }) == running_count(slots) + (if s is Running {
            1int
        } else {
            0int
        }),
    decreases slots.len(),
{
    let u = slots.update(i, s);
    if i == slots.len() - 1 {
        assert(u.drop_last() =~= slots.drop_last());
    } else {
        lemma_running_count_update(slots.drop_last(), i, s);
        assert(u.drop_last() =~= slots.drop_last().update(i, s));
    }
}

impl Dispatcher {
    /// The dispatcher's own invariant.
    pub closed spec fn wf(&self) -> bool {
        &&& self.limit >= 1
        &&& self.next <= self.slots@.len()
        &&& self.running == running_count(self.slots@)
        &&& self.running <= self.limit
        &&& forall|i: int| self.next <= i < self.slots@.len() ==> #[trigger] self.slots@[i] is Waiting
        &&& forall|i: int| 0 <= i < self.next ==> !(#[trigger] self.slots@[i] is Waiting)
    }

    /// A dispatcher for `segment_count` segments, with at most
    /// `concurrency_limit` checks under way at a time.
    pub fn new(segment_count: usize, concurrency_limit: usize) -> (r: Dispatcher)
        requires
            concurrency_limit >= 1,
        ensures
            r.wf(),
            r@.limit == concurrency_limit,
            r@.next == 0,
            !r@.cancelled,
            r@.slots.len() == segment_count,
            forall|i: int| 0 <= i < segment_count ==> #[trigger] r@.slots[i] is Waiting,
    {
        let mut slots: Vec<SlotState> = Vec::new();
        let mut i: usize = 0;
        while i < segment_count
            invariant
                i <= segment_count,
                slots@.len() == i,
                forall|j: int| 0 <= j < i ==> #[trigger] slots@[j] is Waiting,
                running_count(slots@) == 0,
            decreases segment_count - i,
        {
            let ghost before = slots@;
            slots.push(SlotState::Waiting);
            proof {
                assert(slots@.drop_last() =~= before);
            }
            i = i + 1;
        }
        Dispatcher { limit: concurrency_limit, next: 0, running: 0, cancelled: false, slots }
    }

    /// Number of checks under way.
    pub fn in_flight(&self) -> (r: usize)
        requires
            self.wf(),
        ensures
            r == running_count(self@.slots),
            r <= self@.limit,
    {
        self.running
    }

    /// The next segment to check, if the run is not cancelled, a segment is
    /// left and fewer than `limit` checks are under way; that segment is then
    /// under way.
    pub fn next_segment(&mut self) -> (r: Option<usize>)
        requires
            old(self).wf(),
        ensures
            final(self).wf(),
            final(self)@.limit == old(self)@.limit,
            final(self)@.cancelled == old(self)@.cancelled,
            (!old(self)@.cancelled && running_count(old(self)@.slots) < old(self)@.limit
                && old(self)@.next < old(self)@.slots.len()) <==> r is Some,
            r matches Some(i) ==> {
                &&& i == old(self)@.next
                &&& final(self)@.next == i + 1
                &&& final(self)@.slots == old(self)@.slots.update(i as int, SlotState::Running)
            },
            r is None ==> final(self)@ == old(self)@,
    {
        if self.cancelled || self.running >= self.limit || self.next >= self.slots.len() {
            return None;
        }
        let i = self.next;
        let ghost before = self.slots@;
        self.slots.set(i, SlotState::Running);
        proof {
            lemma_running_count_update(before, i as int, SlotState::Running);
        }
        self.next = i + 1;
        self.running = self.running + 1;
        Some(i)
    }

    /// Records the outcome of the check of segment `index`. Accepted only for
    /// a segment whose check is under way; otherwise nothing changes.
    pub fn complete(&mut self, index: usize, outcome: Outcome) -> (accepted: bool)
        requires
            old(self).wf(),
        ensures
            final(self).wf(),
            accepted == (index < old(self)@.slots.len() && old(self)@.slots[index as int] is Running),
            accepted ==> final(self)@ == (DispatchState {
                slots: old(self)@.slots.update(index as int, SlotState::Done(outcome)),
                ..old(self)@
            }),
            !accepted ==> final(self)@ == old(self)@,
    {
        if index >= self.slots.len() {
            return false;
        }
        let running = match &self.slots[index] {
            SlotState::Running => true,
            _ => false,
        };
        if !running {
            return false;
        }
        let ghost before = self.slots@;
        proof {
            lemma_running_count_update(before, index as int, SlotState::Done(outcome));
        }
        self.slots.set(index, SlotState::Done(outcome));
        self.running = self.running - 1;
        true
    }

    /// Stops handing out segments; checks under way may still complete.
    pub fn cancel(&mut self)
        requires
            old(self).wf(),
        ensures
            final(self).wf(),
            final(self)@ == (DispatchState { cancelled: true, ..old(self)@ }),
    {
        self.cancelled = true;
    }

    /// Nothing is under way and nothing more will be handed out.
    pub fn is_finished(&self) -> (r: bool)
        requires
            self.wf(),
        ensures
            r == (running_count(self@.slots) == 0 && (self@.cancelled || self@.next
                == self@.slots.len())),
    {
        self.running == 0 && (self.cancelled || self.next == self.slots.len())
    }

    /// Merges the outcomes in segment order: the findings of each segment
    /// checked successfully, a failure record for each segment whose check
    /// failed, nothing for a segment never checked or still under way.
    pub fn into_result(self) -> (r: AggregatedResult)
        requires
            self.wf(),
        ensures
            r.matches@ == matches_of(self@.slots),
            r.failures@ == failures_of(self@.slots),
            r.cancelled == self@.cancelled,
    {
        let ghost all = self.slots@;
        let cancelled = self.cancelled;
        let mut slots = self.slots;
        let mut matches: Vec<CheckResult> = Vec::new();
        let mut failures: Vec<SegmentFailure> = Vec::new();
        let n = slots.len();
        let mut i: usize = 0;
        while i < n
            invariant
                i <= n,
                n == all.len(),
                slots@ == all.skip(i as int),
                matches@ == matches_of(all.take(i as int)),
                failures@ == failures_of(all.take(i as int)),
            decreases n - i,
        {
            let state = slots.remove(0);
            proof {
                assert(state == all[i as int]);
                assert(all.take(i + 1).drop_last() =~= all.take(i as int));
                assert(slots@ =~= all.skip(i + 1));
            }
            match state {
                SlotState::Done(Ok(mut found)) => {
                    matches.append(&mut found);
                },
                SlotState::Done(Err(e)) => {
                    failures.push(SegmentFailure { index: i, error: e });
                },
                _ => {},
            }
            proof {
                assert(matches@ =~= matches_of(all.take(i + 1)));
                assert(failures@ =~= failures_of(all.take(i + 1)));
            }
            i = i + 1;
        }
        proof {
            assert(all.take(n as int) =~= all);
        }
        AggregatedResult { matches, failures, cancelled }
    }
}

/// The slots after the completions `events` (segment index, outcome) have been
/// recorded one after another, in the order given.
pub open spec fn replay(slots: Seq<SlotState>, events: Seq<(int, Outcome)>) -> Seq<SlotState>
    decreases events.len(),
{
    if events.len() == 0 {
        slots
    } else {
        replay(slots, events.drop_last()).update(events.last().0, SlotState::Done(events.last().1))
    }
}

/// Some event completes segment `i`.
pub open spec fn completed_in(events: Seq<(int, Outcome)>, i: int) -> bool {
    exists|k: int| 0 <= k < events.len() && (#[trigger] events[k]).0 == i
}

/// Each event completes a segment with that segment's own outcome in `outs`,
/// and each segment is completed at least once.
pub open spec fn completes_all(events: Seq<(int, Outcome)>, outs: Seq<Outcome>) -> bool {
    &&& forall|k: int|
        0 <= k < events.len() ==> 0 <= (#[trigger] events[k]).0 < outs.len() && events[k].1
            == outs[events[k].0]
    &&& forall|i: int| 0 <= i < outs.len() ==> #[trigger] completed_in(events, i)
}

/// Every segment done, with its outcome in `outs`.
pub open spec fn all_done(outs: Seq<Outcome>) -> Seq<SlotState> {
    outs.map_values(|o: Outcome| SlotState::Done(o))
}

proof fn lemma_replay_slot(slots: Seq<SlotState>, events: Seq<(int, Outcome)>, outs: Seq<Outcome>)
    requires
        slots.len() == outs.len(),
        forall|k: int|
            0 <= k < events.len() ==> 0 <= (#[trigger] events[k]).0 < outs.len() && events[k].1
                == outs[events[k].0],
    ensures
        replay(slots, events).len() == slots.len(),
        forall|i: int|
            0 <= i < slots.len() ==> #[trigger] replay(slots, events)[i] == if completed_in(
                events,
                i,
            ) {
                SlotState::Done(outs[i])
            } else {
                slots[i]
            },
    decreases events.len(),
{
    if events.len() > 0 {
        let front = events.drop_last();
        lemma_replay_slot(slots, front, outs);
        let last = events.last();
        assert forall|i: int| 0 <= i < slots.len() implies #[trigger] replay(slots, events)[i]
            == if completed_in(events, i) {
            SlotState::Done(outs[i])
        } else {
            slots[i]
        } by {
            if i == last.0 {
                assert(events[events.len() - 1].0 == i);
            } else {
                if completed_in(events, i) {
                    let k = choose|k: int| 0 <= k < events.len() && (#[trigger] events[k]).0 == i;
                    assert(front[k].0 == i);
                }
                if completed_in(front, i) {
                    let k = choose|k: int| 0 <= k < front.len() && (#[trigger] front[k]).0 == i;
                    assert(events[k].0 == i);
                }
            }
        }
    }
}

/// Findings are merged in segment order whatever order the checks complete
/// in: once every segment has been completed with its own outcome, in any
/// order, the slots hold each segment's outcome at its own index, so the merged
/// findings and failures are those of segment 0, then segment 1, and so on.
pub proof fn lemma_completion_order_irrelevant(
    slots: Seq<SlotState>,
    events: Seq<(int, Outcome)>,
    outs: Seq<Outcome>,
)
    requires
        slots.len() == outs.len(),
        completes_all(events, outs),
    ensures
        replay(slots, events) == all_done(outs),
        matches_of(replay(slots, events)) == matches_of(all_done(outs)),
        failures_of(replay(slots, events)) == failures_of(all_done(outs)),
{
    lemma_replay_slot(slots, events, outs);
    assert(replay(slots, events) =~= all_done(outs));
}

/// Checking the same text twice, against a service that answers each segment
/// text the same way every time, gives the same findings in the same order and
/// the same failures, whatever order the checks of either run complete in.
pub proof fn lemma_check_document_idempotent(
    text: Seq<char>,
    max: int,
    answer: spec_fn(Seq<char>) -> Outcome,
    first_start: Seq<SlotState>,
    first: Seq<(int, Outcome)>,
    second_start: Seq<SlotState>,
    second: Seq<(int, Outcome)>,
)
    requires
        max >= 1,
        first_start.len() == segments_of(text, max).len(),
        second_start.len() == segments_of(text, max).len(),
        completes_all(first, segments_of(text, max).map_values(answer)),
        completes_all(second, segments_of(text, max).map_values(answer)),
    ensures
        matches_of(replay(first_start, first)) == matches_of(replay(second_start, second)),
        failures_of(replay(first_start, first)) == failures_of(replay(second_start, second)),
{
    let outs = segments_of(text, max).map_values(answer);
    lemma_completion_order_irrelevant(first_start, first, outs);
    lemma_completion_order_irrelevant(second_start, second, outs);
}

} // verus!
