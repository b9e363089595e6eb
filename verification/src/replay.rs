//! Replays call sequences of invariant tests and keeps what they bring to light.
use crate::hit_maps::HitMaps;
use crate::tags::{added, can_add, count_of, InstrumentedHitMaps};
use crate::sums::{total, total_empty, total_push};
use vstd::prelude::*;

verus! {

/// What a call of the sequence brought: logs of type `L`, a trace of type `T`, and coverage.
pub struct CallResult<L, T> {
    pub logs: Vec<L>,
    pub trace: T,
    pub line_coverage: Option<HitMaps>,
    pub instrumented_coverage: Option<InstrumentedHitMaps>,
}

/// What a call of the invariant brought.
pub struct InvariantResult<L, T> {
    pub success: bool,
    pub fork_block_number: Option<u64>,
    pub logs: Vec<L>,
    pub trace: T,
}

/// What happened last.
pub enum ReplayEvent<L, T, C> {
    /// The replay begins.
    Started,
    /// A call of the sequence was made; it makes a part of a counterexample.
    Called(CallResult<L, T>, C),
    /// The invariant was called.
    InvariantCalled(InvariantResult<L, T>),
    /// The function that follows the invariant was called.
    AfterInvariantCalled(InvariantResult<L, T>),
}

/// What is to be done next.
#[derive(Clone, Copy, Debug, PartialEq, Eq, Structural)]
pub enum ReplayAction {
    /// Make the call at this position of the sequence.
    Call(usize),
    /// Call the invariant.
    CallInvariant,
    /// Call the function that follows the invariant.
    CallAfterInvariant,
    /// Nothing is left.
    Finish,
}

/// A replay: what was asked for, what is to be done next, and what was kept.
pub struct Replay<L, T, C> {
    /// The number of calls of the sequence.
    pub calls: usize,
    /// The invariant is followed by another function, if it holds.
    pub call_after_invariant: bool,
    pub next: ReplayAction,
    pub logs: Vec<L>,
    pub traces: Vec<T>,
    pub line_coverage: Option<HitMaps>,
    pub instrumented_coverage: Option<InstrumentedHitMaps>,
    pub counterexample_sequence: Vec<C>,
    pub fork_block_number: Option<u64>,
}

/// The result of a replay, with what shrinking the sequence gave.
pub struct ReplayErrorResult<C, R> {
    pub counterexample_sequence: Vec<C>,
    pub check_result: Option<R>,
    pub fork_block_number: Option<u64>,
}

/// The hits with those of a call.
pub open spec fn with_call_hits(hits: Option<Map<Seq<u8>, u64>>, call: Option<Map<Seq<u8>, u64>>) -> Option<
    Map<Seq<u8>, u64>,
> {
    match (hits, call) {
        (Some(a), Some(b)) => Some(added(a, b)),
        (None, b) => b,
        (a, None) => a,
    }
}

/// What an optional hit map holds.
pub open spec fn opt_hits(hits: Option<InstrumentedHitMaps>) -> Option<Map<Seq<u8>, u64>> {
    match hits {
        Some(hits) => Some(hits@),
        None => None,
    }
}

/// The hits with those of all calls in turn.
pub open spec fn with_all_calls(start: Option<Map<Seq<u8>, u64>>, calls: Seq<Option<Map<Seq<u8>, u64>>>) -> Option<
    Map<Seq<u8>, u64>,
>
    decreases calls.len(),
{
    if calls.len() == 0 {
        start
    } else {
        with_call_hits(with_all_calls(start, calls.drop_last()), calls.last())
    }
}

/// The hits of a tag; nothing was hit where there is no map.
pub open spec fn opt_count(hits: Option<Map<Seq<u8>, u64>>, tag: Seq<u8>) -> nat {
    match hits {
        Some(hits) => count_of(hits, tag),
        None => 0,
    }
}

/// The hits of a tag in all calls together.
pub open spec fn calls_count(calls: Seq<Option<Map<Seq<u8>, u64>>>, tag: Seq<u8>) -> nat
    decreases calls.len(),
{
    if calls.len() == 0 {
        0
    } else {
        calls_count(calls.drop_last(), tag) + opt_count(calls.last(), tag)
    }
}

/// A replayed sequence keeps all hits: those of a tag after the sequence are those before it and those
/// of every call together.
pub proof fn replay_keeps_hits(
    start: Option<Map<Seq<u8>, u64>>,
    calls: Seq<Option<Map<Seq<u8>, u64>>>,
    tag: Seq<u8>,
)
    requires
        opt_count(start, tag) + calls_count(calls, tag) <= u64::MAX,
    ensures
        opt_count(with_all_calls(start, calls), tag) == opt_count(start, tag) + calls_count(calls, tag),
    decreases calls.len(),
{
    if calls.len() > 0 {
        replay_keeps_hits(start, calls.drop_last(), tag);
    }
}

/// The calls are made in turn, and the invariant is called once none is left.
pub proof fn calls_are_made_in_turn(k: int, calls: int)
    requires
        0 <= k <= calls <= usize::MAX,
    ensures
        k < calls <==> action_at(k, calls) is Call,
        k < calls ==> action_at(k, calls)->Call_0 == k,
        k == calls <==> action_at(k, calls) is CallInvariant,
{
}

/// The hits of a tag in all calls together are the sum of those in each.
pub proof fn hits_of_calls_add_up(calls: Seq<Option<Map<Seq<u8>, u64>>>, tag: Seq<u8>)
    ensures
        calls_count(calls, tag) == total(
            calls.map_values(
                |call: Option<Map<Seq<u8>, u64>>|
                    if call is Some && call->0.contains_key(tag) { call->0[tag] as nat } else { 0 },
            ),
        ),
    decreases calls.len(),
{
    let f = |call: Option<Map<Seq<u8>, u64>>|
        if call is Some && call->0.contains_key(tag) { call->0[tag] as nat } else { 0 };
    if calls.len() == 0 {
        assert(calls.map_values(f) =~= Seq::empty());
        total_empty();
    } else {
        hits_of_calls_add_up(calls.drop_last(), tag);
        assert(calls.map_values(f) =~= calls.drop_last().map_values(f).push(f(calls.last())));
        total_push(calls.drop_last().map_values(f), f(calls.last()));
    }
}

/// The line coverage with that of a call.
pub open spec fn line_coverage_follows(new: Option<HitMaps>, was: Option<HitMaps>, call: Option<HitMaps>) -> bool {
    match (was, call) {
        (Some(a), Some(b)) => new is Some && new->0.is_merge(&a, &b),
        (None, b) => new == b,
        (a, None) => new == a,
    }
}

/// The maps are well formed, if there are any.
pub open spec fn opt_wf(maps: Option<HitMaps>) -> bool {
    maps is Some ==> maps->0.wf()
}

/// What is to be done once the calls before `k` were made.
pub open spec fn action_at(k: int, calls: int) -> ReplayAction {
    if k < calls { ReplayAction::Call(k as usize) } else { ReplayAction::CallInvariant }
}

impl<L, T, C> Replay<L, T, C> {
    /// The event is the outcome of what was to be done, and its coverage can be added.
    pub open spec fn expects(&self, event: ReplayEvent<L, T, C>) -> bool {
        match event {
            ReplayEvent::Started => self.next == action_at(0, self.calls as int),
            ReplayEvent::Called(result, _) => {
                &&& self.next is Call
                &&& self.next->Call_0 < self.calls
                &&& opt_wf(result.line_coverage)
                &&& (self.instrumented_coverage is Some && result.instrumented_coverage is Some) ==> can_add(
                    self.instrumented_coverage->0@,
                    result.instrumented_coverage->0@,
                )
            },
            ReplayEvent::InvariantCalled(_) => self.next == ReplayAction::CallInvariant,
            ReplayEvent::AfterInvariantCalled(_) => self.next == ReplayAction::CallAfterInvariant,
        }
    }

    /// What was asked for stays as it is.
    pub open spec fn same_request(&self, before: &Self) -> bool {
        self.calls == before.calls && self.call_after_invariant == before.call_after_invariant
    }

    /// A replay of a sequence, which adds to what was kept before.
    pub fn new(
        calls: usize,
        call_after_invariant: bool,
        logs: Vec<L>,
        traces: Vec<T>,
        line_coverage: Option<HitMaps>,
        instrumented_coverage: Option<InstrumentedHitMaps>,
    ) -> (replay: Self)
        ensures
            replay.calls == calls,
            replay.call_after_invariant == call_after_invariant,
            replay.next == action_at(0, calls as int),
            replay.logs == logs,
            replay.traces == traces,
            replay.line_coverage == line_coverage,
            replay.instrumented_coverage == instrumented_coverage,
            replay.counterexample_sequence@ == Seq::<C>::empty(),
            replay.fork_block_number is None,
    {
        Replay {
            calls,
            call_after_invariant,
            next: if calls > 0 {
                ReplayAction::Call(0)
            } else {
                ReplayAction::CallInvariant
            },
            logs,
            traces,
            line_coverage,
            instrumented_coverage,
            counterexample_sequence: Vec::new(),
            fork_block_number: None,
        }
    }

    /// The counterexample, once nothing is left to be done.
    pub fn finish<R>(self) -> (result: ReplayErrorResult<C, R>)
        requires
            self.next == ReplayAction::Finish,
        ensures
            result.counterexample_sequence == self.counterexample_sequence,
            result.check_result is None,
            result.fork_block_number == self.fork_block_number,
    {
        ReplayErrorResult {
            counterexample_sequence: self.counterexample_sequence,
            check_result: None,
            fork_block_number: self.fork_block_number,
        }
    }
}

/// One step of a replay: keeps what the last event brought, and says what is to be done next. Every
/// call of the sequence is made in turn, then the invariant is called once, and the function that
/// follows it only where there is one and the invariant holds.
pub fn replay_run<L, T, C>(replay: &mut Replay<L, T, C>, event: ReplayEvent<L, T, C>) -> (action: ReplayAction)
    requires
        old(replay).expects(event),
        opt_wf(old(replay).line_coverage),
    ensures
        action == final(replay).next,
        final(replay).same_request(old(replay)),
        opt_wf(final(replay).line_coverage),
        match event {
            ReplayEvent::Started => *final(replay) == *old(replay),
            ReplayEvent::Called(result, part) => {
                &&& action == action_at(old(replay).next->Call_0 + 1, old(replay).calls as int)
                &&& final(replay).logs@ == old(replay).logs@ + result.logs@
                &&& final(replay).traces@ == old(replay).traces@.push(result.trace)
                &&& final(replay).counterexample_sequence@ == old(replay).counterexample_sequence@.push(part)
                &&& line_coverage_follows(final(replay).line_coverage, old(replay).line_coverage, result.line_coverage)
                &&& opt_hits(final(replay).instrumented_coverage) == with_call_hits(
                    opt_hits(old(replay).instrumented_coverage),
                    opt_hits(result.instrumented_coverage),
                )
                &&& final(replay).fork_block_number == old(replay).fork_block_number
            },
            ReplayEvent::InvariantCalled(result) => {
                &&& action == (if old(replay).call_after_invariant && result.success {
                    ReplayAction::CallAfterInvariant
                } else {
                    ReplayAction::Finish
                })
                &&& final(replay).fork_block_number == result.fork_block_number
                &&& final(replay).logs@ == old(replay).logs@ + result.logs@
                &&& final(replay).traces@ == old(replay).traces@.push(result.trace)
                &&& final(replay).counterexample_sequence == old(replay).counterexample_sequence
                &&& final(replay).line_coverage == old(replay).line_coverage
                &&& final(replay).instrumented_coverage == old(replay).instrumented_coverage
            },
            ReplayEvent::AfterInvariantCalled(result) => {
                &&& action == ReplayAction::Finish
                &&& final(replay).fork_block_number == old(replay).fork_block_number
                &&& final(replay).logs@ == old(replay).logs@ + result.logs@
                &&& final(replay).traces@ == old(replay).traces@.push(result.trace)
                &&& final(replay).counterexample_sequence == old(replay).counterexample_sequence
                &&& final(replay).line_coverage == old(replay).line_coverage
                &&& final(replay).instrumented_coverage == old(replay).instrumented_coverage
            },
        },
{
    match event {
        ReplayEvent::Started => {},
        ReplayEvent::Called(result, part) => {
            let mut logs = result.logs;
            replay.logs.append(&mut logs);
            replay.traces.push(result.trace);
            HitMaps::merge_opt(&mut replay.line_coverage, result.line_coverage);
            InstrumentedHitMaps::merge_opt(&mut replay.instrumented_coverage, result.instrumented_coverage);
            replay.counterexample_sequence.push(part);
            if let ReplayAction::Call(k) = replay.next {
                if k + 1 < replay.calls {
                    replay.next = ReplayAction::Call(k + 1);
                } else {
                    replay.next = ReplayAction::CallInvariant;
                }
            }
        },
        ReplayEvent::InvariantCalled(result) => {
            let mut logs = result.logs;
            replay.logs.append(&mut logs);
            replay.traces.push(result.trace);
            replay.fork_block_number = result.fork_block_number;
            replay.next = if replay.call_after_invariant && result.success {
                ReplayAction::CallAfterInvariant
            } else {
                ReplayAction::Finish
            };
        },
        ReplayEvent::AfterInvariantCalled(result) => {
            let mut logs = result.logs;
            replay.logs.append(&mut logs);
            replay.traces.push(result.trace);
            replay.next = ReplayAction::Finish;
        },
    }
    replay.next
}

/// How a failing sequence is made shorter.
#[derive(Clone, Copy, Debug, PartialEq, Eq, Structural)]
pub enum ShrinkMode {
    /// As long as it fails.
    Failure,
    /// As long as it produces the value that was found.
    Value,
}

/// How a sequence is to be made shorter: one that was found by its value, by its value.
pub fn shrink_mode<V>(target_value: &Option<V>) -> (mode: ShrinkMode)
    ensures
        mode == (if *target_value is Some { ShrinkMode::Value } else { ShrinkMode::Failure }),
{
    match target_value {
        Some(_) => ShrinkMode::Value,
        None => ShrinkMode::Failure,
    }
}

/// Calls that a fuzzer makes up.
pub struct CallGenerator<X> {
    pub last_sequence: Vec<Option<X>>,
    /// The last sequence is made again instead of a new one.
    pub replay: bool,
}

/// A fuzzer, which may make up calls.
pub struct Fuzzer<X> {
    pub call_generator: Option<CallGenerator<X>>,
}

/// Sets up the calls that a fuzzer made inside a sequence, where there is one that makes up calls.
pub fn set_up_inner_replay<X>(fuzzer: &mut Option<Fuzzer<X>>, inner_sequence: Vec<Option<X>>)
    ensures
        match *old(fuzzer) {
            Some(f) => *final(fuzzer) is Some && match f.call_generator {
                Some(_) => final(fuzzer)->0.call_generator == Some(
                    (CallGenerator { last_sequence: inner_sequence, replay: true }),
                ),
                None => final(fuzzer)->0.call_generator is None,
            },
            None => *final(fuzzer) is None,
        },
{
    let made = match fuzzer {
        Some(f) => match &f.call_generator {
            Some(_) => true,
            None => false,
        },
        None => false,
    };
    if made {
        *fuzzer = Some(
            Fuzzer { call_generator: Some(CallGenerator { last_sequence: inner_sequence, replay: true }) },
        );
    }
}

/// What a shrunk and replayed sequence gives: the result of shrinking counts only where the sequence
/// was shrunk as long as it fails.
pub fn replay_error<L, T, C, R>(
    replay: Replay<L, T, C>,
    mode: ShrinkMode,
    shrunk_result: Option<R>,
) -> (result: ReplayErrorResult<C, R>)
    requires
        replay.next == ReplayAction::Finish,
    ensures
        result.counterexample_sequence == replay.counterexample_sequence,
        result.fork_block_number == replay.fork_block_number,
        result.check_result == (match mode {
            ShrinkMode::Failure => shrunk_result,
            ShrinkMode::Value => None,
        }),
{
    let mut result = replay.finish();
    result.check_result = match mode {
        ShrinkMode::Failure => shrunk_result,
        ShrinkMode::Value => None,
    };
    result
}

}
