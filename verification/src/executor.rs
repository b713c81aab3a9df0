//! Pattern executor for the sequence-matching mini language.
//!
//! A compiled pattern is run against a timestamp-sorted event stream.  Two
//! common shapes take O(n) fast paths: patterns made only of conditions, and
//! patterns mixing conditions with `.*`.  Everything else runs on a
//! backtracking automaton with an explicit last-in-first-out frontier, whose
//! exploration is capped at a fixed iteration budget so pathological
//! patterns cannot run away; a capped-out start position counts as no match.
//!
//! Matches are non-overlapping: after a success the search resumes past the
//! last consumed event.  `.*` is lazy — the automaton prefers advancing the
//! pattern over consuming another event — which maximizes the number of
//! non-overlapping matches.  The whole execution is restated as spec
//! functions, and the executable functions are proved to return exactly
//! what they describe.

use vstd::prelude::*;
use crate::event::{Event, cond_bit};
use crate::parser::{CompiledPattern, PatternStep, spec_time_op_eval};

verus! {

/// Iteration budget of the automaton per starting position.
pub const MAX_NFA_STATES: usize = 10_000;

/// Result of running a pattern against an event stream.
#[derive(Debug, Clone, Copy, PartialEq, Eq, Structural)]
pub struct MatchResult {
    /// Whether any full match was found.
    pub matched: bool,
    /// Number of non-overlapping full matches (1 when the caller asked only
    /// whether a match exists and one was found).
    pub count: usize,
}

/// The condition indices a step contributes (one for a condition step,
/// none otherwise).
pub open spec fn step_condition_index(s: PatternStep) -> Seq<usize> {
    match s {
        PatternStep::Condition(i) => seq![i],
        _ => Seq::empty(),
    }
}

/// All condition indices of a pattern, in order.
pub open spec fn pattern_conditions(p: Seq<PatternStep>) -> Seq<usize>
    decreases p.len(),
{
    if p.len() == 0 {
        Seq::empty()
    } else {
        pattern_conditions(p.drop_last()) + step_condition_index(p.last())
    }
}

/// Every step is a condition.
pub open spec fn all_conditions(p: Seq<PatternStep>) -> bool {
    forall|i: int| 0 <= i < p.len() ==> p[i] is Condition
}

/// Every step is a condition or `.*`.
pub open spec fn only_conditions_and_wildcards(p: Seq<PatternStep>) -> bool {
    forall|i: int| 0 <= i < p.len() ==> (p[i] is Condition || p[i] is AnyEvents)
}

/// Shape taking the adjacent fast path: one or more conditions and nothing
/// else.
pub open spec fn is_adjacent_shape(p: Seq<PatternStep>) -> bool {
    p.len() > 0 && all_conditions(p)
}

/// Shape taking the wildcard fast path: conditions and `.*` mixed, at least
/// one of each.
pub open spec fn is_wildcard_shape(p: Seq<PatternStep>) -> bool {
    &&& only_conditions_and_wildcards(p)
    &&& pattern_conditions(p).len() > 0
    &&& exists|i: int| 0 <= i < p.len() && p[i] is AnyEvents
}

/// Shape classification of a pattern, for fast-path dispatch.
pub enum PatternShape {
    /// Only conditions: a sliding window of adjacent events must match.
    AdjacentConditions(Vec<usize>),
    /// Conditions separated by `.*`: a single forward scan suffices.
    WildcardSeparated(Vec<usize>),
    /// Anything else runs on the automaton.
    Complex,
}

/// Classifies a pattern into its fast-path shape, collecting the condition
/// indices for the fast paths.
pub fn classify_pattern(pattern: &CompiledPattern) -> (r: PatternShape)
    ensures
        match r {
            PatternShape::AdjacentConditions(c) => is_adjacent_shape(pattern.steps@) && c@
                == pattern_conditions(pattern.steps@),
            PatternShape::WildcardSeparated(c) => is_wildcard_shape(pattern.steps@) && c@
                == pattern_conditions(pattern.steps@),
            PatternShape::Complex => !is_adjacent_shape(pattern.steps@) && !is_wildcard_shape(
                pattern.steps@,
            ),
        },
{
    let ghost p = pattern.steps@;
    let n = pattern.steps.len();
    let mut conditions: Vec<usize> = Vec::new();
    let mut has_any_events = false;
    let mut i: usize = 0;
    while i < n
        invariant
            i <= n,
            n == p.len(),
            p == pattern.steps@,
            conditions@ == pattern_conditions(p.take(i as int)),
            has_any_events == exists|k: int| 0 <= k < i && p[k] is AnyEvents,
            only_conditions_and_wildcards(p.take(i as int)),
        decreases n - i,
    {
        let ghost prefix = p.take(i as int);
        proof {
            assert(p.take(i as int + 1).drop_last() =~= prefix);
            assert(p.take(i as int + 1).last() == p[i as int]);
        }
        match pattern.steps[i] {
            PatternStep::Condition(idx) => {
                conditions.push(idx);
            },
            PatternStep::AnyEvents => {
                has_any_events = true;
            },
            PatternStep::OneEvent => {
                return PatternShape::Complex;
            },
            PatternStep::TimeConstraint(_, _) => {
                return PatternShape::Complex;
            },
        }
        proof {
            assert(conditions@ == pattern_conditions(p.take(i as int + 1)));
        }
        i += 1;
    }
    proof {
        assert(p.take(n as int) =~= p);
    }
    if conditions.is_empty() {
        return PatternShape::Complex;
    }
    if !has_any_events {
        proof {
            assert(all_conditions(p)) by {
                assert forall|k: int| 0 <= k < p.len() implies p[k] is Condition by {
                    assert(!(p[k] is AnyEvents));
                }
            }
        }
        return PatternShape::AdjacentConditions(conditions);
    }
    PatternShape::WildcardSeparated(conditions)
}

/// The window of `conds.len()` events starting at `i` matches the conditions
/// one-to-one.
pub open spec fn adjacent_match_at(events: Seq<Event>, conds: Seq<usize>, i: int) -> bool {
    forall|j: int| 0 <= j < conds.len() ==> cond_bit(events[i + j].conditions, conds[j] as int)
}

/// Number of non-overlapping adjacent matches from position `i` on: a
/// matching window advances past itself, anything else advances one event.
pub open spec fn spec_adjacent_count(events: Seq<Event>, conds: Seq<usize>, i: int) -> nat
    decreases events.len() - i,
    when 0 <= i && conds.len() > 0
{
    if i + conds.len() > events.len() {
        0
    } else if adjacent_match_at(events, conds, i) {
        1 + spec_adjacent_count(events, conds, i + conds.len())
    } else {
        spec_adjacent_count(events, conds, i + 1)
    }
}

/// Fast path for condition-only patterns: a sliding window over the events.
fn fast_adjacent(events: &[Event], conditions: &Vec<usize>, count_all: bool) -> (r: MatchResult)
    requires
        conditions@.len() > 0,
    ensures
        r.matched == (spec_adjacent_count(events@, conditions@, 0) > 0),
        count_all ==> r.count == spec_adjacent_count(events@, conditions@, 0),
        !count_all ==> r.count == if r.matched {
            1int
        } else {
            0int
        },
{
    let k = conditions.len();
    let mut total: usize = 0;
    let mut i: usize = 0;
    while k <= events.len() && i <= events.len() - k
        invariant
            conditions@.len() == k,
            k > 0,
            total <= i,
            spec_adjacent_count(events@, conditions@, 0) == total + spec_adjacent_count(
                events@,
                conditions@,
                i as int,
            ),
            count_all || total == 0,
        decreases events.len() - i,
    {
        let mut matched = true;
        let mut j: usize = 0;
        while j < k
            invariant
                j <= k,
                k == conditions@.len(),
                i + k <= events.len(),
                matched ==> forall|m: int|
                    0 <= m < j ==> cond_bit(
                        events@[i + m].conditions,
                        conditions@[m] as int,
                    ),
                !matched ==> !adjacent_match_at(events@, conditions@, i as int),
            decreases k - j,
        {
            if !events[i + j].condition(conditions[j]) {
                matched = false;
                proof {
                    assert(!adjacent_match_at(events@, conditions@, i as int)) by {
                        assert(!cond_bit(
                            events@[i as int + j as int].conditions,
                            conditions@[j as int] as int,
                        ));
                    }
                }
                j = k;
            } else {
                j += 1;
            }
        }
        if matched {
            proof {
                assert(adjacent_match_at(events@, conditions@, i as int));
                assert(spec_adjacent_count(events@, conditions@, i as int) == 1
                    + spec_adjacent_count(events@, conditions@, i as int + k as int));
            }
            total += 1;
            if !count_all {
                return MatchResult { matched: true, count: 1 };
            }
            i += k;
        } else {
            proof {
                assert(spec_adjacent_count(events@, conditions@, i as int)
                    == spec_adjacent_count(events@, conditions@, i as int + 1));
            }
            i += 1;
        }
    }
    proof {
        assert(spec_adjacent_count(events@, conditions@, i as int) == 0);
    }
    MatchResult { matched: total > 0, count: total }
}

/// Number of non-overlapping wildcard-separated matches from position `i`
/// with `step` conditions already matched: each event matching the next
/// condition advances the step counter, and a completed set restarts it.
pub open spec fn spec_wildcard_count(events: Seq<Event>, conds: Seq<usize>, i: int, step: int) -> nat
    decreases events.len() - i,
    when 0 <= i && 0 <= step < conds.len()
{
    if i >= events.len() {
        0
    } else if cond_bit(events[i].conditions, conds[step] as int) {
        if step + 1 >= conds.len() {
            1 + spec_wildcard_count(events, conds, i + 1, 0)
        } else {
            spec_wildcard_count(events, conds, i + 1, step + 1)
        }
    } else {
        spec_wildcard_count(events, conds, i + 1, step)
    }
}

/// Fast path for wildcard-separated patterns: one forward scan with a step
/// counter.
fn fast_wildcard(events: &[Event], conditions: &Vec<usize>, count_all: bool) -> (r: MatchResult)
    requires
        conditions@.len() > 0,
    ensures
        r.matched == (spec_wildcard_count(events@, conditions@, 0, 0) > 0),
        count_all ==> r.count == spec_wildcard_count(events@, conditions@, 0, 0),
        !count_all ==> r.count == if r.matched {
            1int
        } else {
            0int
        },
{
    let k = conditions.len();
    let mut total: usize = 0;
    let mut step: usize = 0;
    let mut i: usize = 0;
    while i < events.len()
        invariant
            conditions@.len() == k,
            k > 0,
            step < k,
            total <= i,
            i <= events.len(),
            spec_wildcard_count(events@, conditions@, 0, 0) == total + spec_wildcard_count(
                events@,
                conditions@,
                i as int,
                step as int,
            ),
            count_all || total == 0,
        decreases events.len() - i,
    {
        let ghost oi = i as int;
        let ghost ostep = step as int;
        if events[i].condition(conditions[step]) {
            step += 1;
            if step >= k {
                proof {
                    assert(spec_wildcard_count(events@, conditions@, oi, ostep) == 1
                        + spec_wildcard_count(events@, conditions@, oi + 1, 0));
                }
                total += 1;
                if !count_all {
                    return MatchResult { matched: true, count: 1 };
                }
                step = 0;
            } else {
                proof {
                    assert(spec_wildcard_count(events@, conditions@, oi, ostep)
                        == spec_wildcard_count(events@, conditions@, oi + 1, ostep + 1));
                }
            }
        } else {
            proof {
                assert(spec_wildcard_count(events@, conditions@, oi, ostep)
                    == spec_wildcard_count(events@, conditions@, oi + 1, ostep));
            }
        }
        i += 1;
    }
    proof {
        assert(spec_wildcard_count(events@, conditions@, i as int, step as int) == 0);
    }
    MatchResult { matched: total > 0, count: total }
}

/// One thread of the automaton: a position in the events, a position in the
/// pattern, and the timestamp of the last consumed event.
#[derive(Debug, Clone, Copy, PartialEq, Eq, Structural)]
pub struct NfaState {
    /// Next event to look at.
    pub event_idx: usize,
    /// Next pattern step to satisfy.
    pub step_idx: usize,
    /// Timestamp of the last consumed event, for time constraints.
    pub last_match_ts: Option<i64>,
}

/// Truncating division: rounds toward zero, as machine division does.
pub open spec fn div_trunc(a: int, b: int) -> int {
    if a >= 0 {
        a / b
    } else {
        -((-a) / b)
    }
}

/// Whole seconds elapsed from `prev` to `now` (microsecond inputs),
/// truncated toward zero.
fn elapsed_seconds(now: i64, prev: i64) -> (r: i64)
    ensures
        r as int == div_trunc(now - prev, 1_000_000),
{
    let diff: i128 = (now as i128) - (prev as i128);
    if diff >= 0 {
        let q = (diff as u128) / 1_000_000;
        proof {
            vstd::arithmetic::div_mod::lemma_fundamental_div_mod(diff as int, 1_000_000);
        }
        q as i64
    } else {
        let mag = ((-diff) as u128) / 1_000_000;
        proof {
            vstd::arithmetic::div_mod::lemma_fundamental_div_mod(-diff as int, 1_000_000);
        }
        -(mag as i64)
    }
}

/// One run of the automaton: states are popped from the top of the stack;
/// a state past the last pattern step reports the index of the last
/// consumed event; the budget counts every pop and cuts the run off at
/// `MAX_NFA_STATES` with no match.
pub open spec fn spec_nfa_run(
    p: Seq<PatternStep>,
    events: Seq<Event>,
    stack: Seq<NfaState>,
    iterations: int,
) -> Option<int>
    decreases MAX_NFA_STATES + 1 - iterations,
{
    if stack.len() == 0 {
        None
    } else {
        let st = stack.last();
        let rest = stack.drop_last();
        if iterations + 1 > MAX_NFA_STATES {
            None
        } else if st.step_idx >= p.len() {
            Some(
                if st.event_idx > 0 {
                    st.event_idx - 1
                } else {
                    0
                },
            )
        } else if st.event_idx >= events.len() {
            match p[st.step_idx as int] {
                PatternStep::AnyEvents => spec_nfa_run(
                    p,
                    events,
                    rest.push(NfaState { step_idx: (st.step_idx + 1) as usize, ..st }),
                    iterations + 1,
                ),
                _ => spec_nfa_run(p, events, rest, iterations + 1),
            }
        } else {
            let e = events[st.event_idx as int];
            match p[st.step_idx as int] {
                PatternStep::Condition(ci) => if cond_bit(e.conditions, ci as int) {
                    spec_nfa_run(
                        p,
                        events,
                        rest.push(
                            NfaState {
                                event_idx: (st.event_idx + 1) as usize,
                                step_idx: (st.step_idx + 1) as usize,
                                last_match_ts: Some(e.timestamp_us),
                            },
                        ),
                        iterations + 1,
                    )
                } else {
                    spec_nfa_run(p, events, rest, iterations + 1)
                },
                PatternStep::AnyEvents => spec_nfa_run(
                    p,
                    events,
                    rest.push(NfaState { event_idx: (st.event_idx + 1) as usize, ..st }).push(
                        NfaState { step_idx: (st.step_idx + 1) as usize, ..st },
                    ),
                    iterations + 1,
                ),
                PatternStep::OneEvent => spec_nfa_run(
                    p,
                    events,
                    rest.push(
                        NfaState {
                            event_idx: (st.event_idx + 1) as usize,
                            step_idx: (st.step_idx + 1) as usize,
                            last_match_ts: Some(e.timestamp_us),
                        },
                    ),
                    iterations + 1,
                ),
                PatternStep::TimeConstraint(op, threshold) => match st.last_match_ts {
                    Some(prev) => if spec_time_op_eval(
                        op,
                        div_trunc(e.timestamp_us - prev, 1_000_000),
                        threshold as int,
                    ) {
                        spec_nfa_run(
                            p,
                            events,
                            rest.push(NfaState { step_idx: (st.step_idx + 1) as usize, ..st }),
                            iterations + 1,
                        )
                    } else {
                        spec_nfa_run(p, events, rest, iterations + 1)
                    },
                    None => spec_nfa_run(
                        p,
                        events,
                        rest.push(NfaState { step_idx: (st.step_idx + 1) as usize, ..st }),
                        iterations + 1,
                    ),
                },
            }
        }
    }
}

/// Outcome of trying a full match from one starting event: the index of the
/// last consumed event, if the automaton finds a match within its budget.
pub open spec fn spec_try_match(p: Seq<PatternStep>, events: Seq<Event>, start: int) -> Option<
    int,
> {
    spec_nfa_run(
        p,
        events,
        seq![NfaState { event_idx: start as usize, step_idx: 0, last_match_ts: None }],
        0,
    )
}

/// Number of non-overlapping automaton matches from `start` on: a match
/// resumes past its last consumed event (at least one position further),
/// a failure resumes at the next position.
pub open spec fn spec_nfa_count(p: Seq<PatternStep>, events: Seq<Event>, start: int) -> nat
    decreases events.len() - start,
    when 0 <= start <= events.len()
{
    if start >= events.len() {
        0
    } else {
        match spec_try_match(p, events, start) {
            Some(end) => {
                let next0 = if end + 1 > start + 1 {
                    end + 1
                } else {
                    start + 1
                };
                let next = if next0 > events.len() {
                    events.len() as int
                } else {
                    next0
                };
                1 + spec_nfa_count(p, events, next)
            },
            None => spec_nfa_count(p, events, start + 1),
        }
    }
}

/// Tries a full match from `start`, reusing the caller's frontier buffer.
///
/// Returns the index of the last consumed event of the first match found,
/// or nothing once the frontier is exhausted or the budget is spent.
#[verifier::rlimit(60)]
fn try_match_from(
    pattern: &CompiledPattern,
    events: &[Event],
    start: usize,
    states: &mut Vec<NfaState>,
) -> (r: Option<usize>)
    requires
        start < events@.len(),
    ensures
        match r {
            Some(end) => spec_try_match(pattern.steps@, events@, start as int) == Some(
                end as int,
            ) && end < events@.len(),
            None => spec_try_match(pattern.steps@, events@, start as int) is None,
        },
{
    let ghost p = pattern.steps@;
    states.clear();
    states.push(NfaState { event_idx: start, step_idx: 0, last_match_ts: None });
    let mut iterations: usize = 0;
    while states.len() > 0
        invariant
            p == pattern.steps@,
            iterations <= MAX_NFA_STATES,
            events@.len() > 0,
            spec_try_match(p, events@, start as int) == spec_nfa_run(
                p,
                events@,
                states@,
                iterations as int,
            ),
            forall|m: int|
                0 <= m < states@.len() ==> #[trigger] states@[m].event_idx <= events@.len(),
        decreases MAX_NFA_STATES - iterations,
    {
        let ghost prior = states@;
        let ghost it0 = iterations as int;
        let state = match states.pop() {
            Some(s) => s,
            None => {
                return None;
            },
        };
        proof {
            assert(prior.last() == state);
            assert(states@ == prior.drop_last());
            assert(prior[prior.len() - 1].event_idx <= events@.len());
            assert(state.event_idx <= events@.len());
        }
        iterations += 1;
        if iterations > MAX_NFA_STATES {
            proof {
                assert(spec_nfa_run(p, events@, prior, it0) is None);
            }
            return None;
        }
        if state.step_idx >= pattern.steps.len() {
            proof {
                assert(spec_nfa_run(p, events@, prior, it0) == Some::<int>(
                    if state.event_idx > 0 {
                        state.event_idx - 1
                    } else {
                        0
                    },
                ));
            }
            if state.event_idx > 0 {
                return Some(state.event_idx - 1);
            } else {
                return Some(0);
            }
        }
        if state.event_idx >= events.len() {
            match pattern.steps[state.step_idx] {
                PatternStep::AnyEvents => {
                    states.push(NfaState { step_idx: state.step_idx + 1, ..state });
                    proof {
                        assert forall|m: int|
                            0 <= m < states@.len() implies #[trigger] states@[m].event_idx
                            <= events@.len() by {
                            if m < prior.len() - 1 {
                                assert(states@[m] == prior[m]);
                            }
                        }
                        assert(spec_nfa_run(p, events@, prior, it0) == spec_nfa_run(
                            p,
                            events@,
                            states@,
                            it0 + 1,
                        ));
                    }
                },
                _ => {
                    proof {
                        assert forall|m: int|
                            0 <= m < states@.len() implies #[trigger] states@[m].event_idx
                            <= events@.len() by {
                            if m < prior.len() - 1 {
                                assert(states@[m] == prior[m]);
                            }
                        }
                        assert(spec_nfa_run(p, events@, prior, it0) == spec_nfa_run(
                            p,
                            events@,
                            states@,
                            it0 + 1,
                        ));
                    }
                },
            }
            continue ;
        }
        let event = events[state.event_idx];
        match pattern.steps[state.step_idx] {
            PatternStep::Condition(cond_idx) => {
                if event.condition(cond_idx) {
                    states.push(
                        NfaState {
                            event_idx: state.event_idx + 1,
                            step_idx: state.step_idx + 1,
                            last_match_ts: Some(event.timestamp_us),
                        },
                    );
                }
                proof {
                    assert forall|m: int|
                            0 <= m < states@.len() implies #[trigger] states@[m].event_idx
                            <= events@.len() by {
                            if m < prior.len() - 1 {
                                assert(states@[m] == prior[m]);
                            }
                        }
                        assert(spec_nfa_run(p, events@, prior, it0) == spec_nfa_run(
                        p,
                        events@,
                        states@,
                        it0 + 1,
                    ));
                }
            },
            PatternStep::AnyEvents => {
                states.push(NfaState { event_idx: state.event_idx + 1, ..state });
                states.push(NfaState { step_idx: state.step_idx + 1, ..state });
                proof {
                    assert forall|m: int|
                            0 <= m < states@.len() implies #[trigger] states@[m].event_idx
                            <= events@.len() by {
                            if m < prior.len() - 1 {
                                assert(states@[m] == prior[m]);
                            }
                        }
                        assert(spec_nfa_run(p, events@, prior, it0) == spec_nfa_run(
                        p,
                        events@,
                        states@,
                        it0 + 1,
                    ));
                }
            },
            PatternStep::OneEvent => {
                states.push(
                    NfaState {
                        event_idx: state.event_idx + 1,
                        step_idx: state.step_idx + 1,
                        last_match_ts: Some(event.timestamp_us),
                    },
                );
                proof {
                    assert forall|m: int|
                            0 <= m < states@.len() implies #[trigger] states@[m].event_idx
                            <= events@.len() by {
                            if m < prior.len() - 1 {
                                assert(states@[m] == prior[m]);
                            }
                        }
                        assert(spec_nfa_run(p, events@, prior, it0) == spec_nfa_run(
                        p,
                        events@,
                        states@,
                        it0 + 1,
                    ));
                }
            },
            PatternStep::TimeConstraint(op, threshold_seconds) => {
                match state.last_match_ts {
                    Some(prev_ts) => {
                        let elapsed = elapsed_seconds(event.timestamp_us, prev_ts);
                        if op.evaluate(elapsed, threshold_seconds) {
                            states.push(NfaState { step_idx: state.step_idx + 1, ..state });
                        }
                    },
                    None => {
                        states.push(NfaState { step_idx: state.step_idx + 1, ..state });
                    },
                }
                proof {
                    assert forall|m: int|
                            0 <= m < states@.len() implies #[trigger] states@[m].event_idx
                            <= events@.len() by {
                            if m < prior.len() - 1 {
                                assert(states@[m] == prior[m]);
                            }
                        }
                        assert(spec_nfa_run(p, events@, prior, it0) == spec_nfa_run(
                        p,
                        events@,
                        states@,
                        it0 + 1,
                    ));
                }
            },
        }
    }
    None
}

/// Runs the automaton over every starting position, counting
/// non-overlapping matches.
fn execute_pattern_nfa(pattern: &CompiledPattern, events: &[Event], count_all: bool) -> (r:
    MatchResult)
    ensures
        r.matched == (spec_nfa_count(pattern.steps@, events@, 0) > 0),
        count_all ==> r.count == spec_nfa_count(pattern.steps@, events@, 0),
        !count_all ==> r.count == if r.matched {
            1int
        } else {
            0int
        },
{
    let ghost p = pattern.steps@;
    let mut total: usize = 0;
    let mut search_start: usize = 0;
    let mut states: Vec<NfaState> = Vec::new();
    while search_start < events.len()
        invariant
            p == pattern.steps@,
            total <= search_start,
            search_start <= events.len(),
            spec_nfa_count(p, events@, 0) == total + spec_nfa_count(
                p,
                events@,
                search_start as int,
            ),
            count_all || total == 0,
        decreases events.len() - search_start,
    {
        let ghost oss = search_start as int;
        match try_match_from(pattern, events, search_start, &mut states) {
            Some(match_end) => {
                proof {
                    assert(spec_nfa_count(p, events@, oss) == 1 + spec_nfa_count(
                        p,
                        events@,
                        ({
                            let next0 = if match_end + 1 > oss + 1 {
                                match_end + 1
                            } else {
                                oss + 1
                            };
                            if next0 > events@.len() {
                                events@.len() as int
                            } else {
                                next0
                            }
                        }),
                    ));
                }
                total += 1;
                if !count_all {
                    return MatchResult { matched: true, count: 1 };
                }
                let next = if match_end + 1 > search_start + 1 {
                    match_end + 1
                } else {
                    search_start + 1
                };
                search_start = if next > events.len() {
                    events.len()
                } else {
                    next
                };
            },
            None => {
                proof {
                    assert(spec_nfa_count(p, events@, oss) == spec_nfa_count(
                        p,
                        events@,
                        oss + 1,
                    ));
                }
                search_start += 1;
            },
        }
    }
    proof {
        assert(spec_nfa_count(p, events@, search_start as int) == 0);
    }
    MatchResult { matched: total > 0, count: total }
}

/// Number of non-overlapping matches of a pattern over an event stream:
/// zero for an empty stream or an empty pattern, and the fast-path or
/// automaton count as the pattern's shape decides.
pub open spec fn spec_execute_count(p: Seq<PatternStep>, events: Seq<Event>) -> nat {
    if events.len() == 0 || p.len() == 0 {
        0
    } else if is_adjacent_shape(p) {
        spec_adjacent_count(events, pattern_conditions(p), 0)
    } else if is_wildcard_shape(p) {
        spec_wildcard_count(events, pattern_conditions(p), 0, 0)
    } else {
        spec_nfa_count(p, events, 0)
    }
}

/// One thread of the collecting automaton: like [`NfaState`] but carrying
/// the timestamps of the condition steps matched so far.
struct NfaStateWithTimestamps {
    /// Next event to look at.
    event_idx: usize,
    /// Next pattern step to satisfy.
    step_idx: usize,
    /// Timestamp of the last consumed event, for time constraints.
    last_match_ts: Option<i64>,
    /// Timestamps of the condition steps matched so far, in order.
    collected: Vec<i64>,
}

/// Ghost image of a collecting-automaton thread: event position, step
/// position, last consumed timestamp, and collected timestamps.
spec fn cview(s: NfaStateWithTimestamps) -> (usize, usize, Option<i64>, Seq<i64>) {
    (s.event_idx, s.step_idx, s.last_match_ts, s.collected@)
}

/// Ghost image of a collecting-automaton frontier.
spec fn cstack_view(s: Seq<NfaStateWithTimestamps>) -> Seq<
    (usize, usize, Option<i64>, Seq<i64>),
> {
    s.map_values(|x: NfaStateWithTimestamps| cview(x))
}

/// One run of the collecting automaton; a completed thread reports its
/// collected timestamps.  Transitions mirror [`spec_nfa_run`], with
/// condition steps appending the matched event's timestamp.
pub open spec fn spec_cnfa_run(
    p: Seq<PatternStep>,
    events: Seq<Event>,
    stack: Seq<(usize, usize, Option<i64>, Seq<i64>)>,
    iterations: int,
) -> Option<Seq<i64>>
    decreases MAX_NFA_STATES + 1 - iterations,
{
    if stack.len() == 0 {
        None
    } else {
        let st = stack.last();
        let rest = stack.drop_last();
        if iterations + 1 > MAX_NFA_STATES {
            None
        } else if st.1 >= p.len() {
            Some(st.3)
        } else if st.0 >= events.len() {
            match p[st.1 as int] {
                PatternStep::AnyEvents => spec_cnfa_run(
                    p,
                    events,
                    rest.push((st.0, (st.1 + 1) as usize, st.2, st.3)),
                    iterations + 1,
                ),
                _ => spec_cnfa_run(p, events, rest, iterations + 1),
            }
        } else {
            let e = events[st.0 as int];
            match p[st.1 as int] {
                PatternStep::Condition(ci) => if cond_bit(e.conditions, ci as int) {
                    spec_cnfa_run(
                        p,
                        events,
                        rest.push(
                            (
                                (st.0 + 1) as usize,
                                (st.1 + 1) as usize,
                                Some(e.timestamp_us),
                                st.3.push(e.timestamp_us),
                            ),
                        ),
                        iterations + 1,
                    )
                } else {
                    spec_cnfa_run(p, events, rest, iterations + 1)
                },
                PatternStep::AnyEvents => spec_cnfa_run(
                    p,
                    events,
                    rest.push(((st.0 + 1) as usize, st.1, st.2, st.3)).push(
                        (st.0, (st.1 + 1) as usize, st.2, st.3),
                    ),
                    iterations + 1,
                ),
                PatternStep::OneEvent => spec_cnfa_run(
                    p,
                    events,
                    rest.push(
                        ((st.0 + 1) as usize, (st.1 + 1) as usize, Some(e.timestamp_us), st.3),
                    ),
                    iterations + 1,
                ),
                PatternStep::TimeConstraint(op, threshold) => match st.2 {
                    Some(prev) => if spec_time_op_eval(
                        op,
                        div_trunc(e.timestamp_us - prev, 1_000_000),
                        threshold as int,
                    ) {
                        spec_cnfa_run(
                            p,
                            events,
                            rest.push((st.0, (st.1 + 1) as usize, st.2, st.3)),
                            iterations + 1,
                        )
                    } else {
                        spec_cnfa_run(p, events, rest, iterations + 1)
                    },
                    None => spec_cnfa_run(
                        p,
                        events,
                        rest.push((st.0, (st.1 + 1) as usize, st.2, st.3)),
                        iterations + 1,
                    ),
                },
            }
        }
    }
}

/// Outcome of one collecting try from `start`: the condition timestamps of
/// the first match found within the budget.
pub open spec fn spec_try_events(p: Seq<PatternStep>, events: Seq<Event>, start: int) -> Option<
    Seq<i64>,
> {
    spec_cnfa_run(p, events, seq![(start as usize, 0usize, None, Seq::empty())], 0)
}

/// First successful collecting try at or after `start`.
pub open spec fn spec_events_search(p: Seq<PatternStep>, events: Seq<Event>, start: int) -> Option<
    Seq<i64>,
>
    decreases events.len() - start,
    when 0 <= start <= events.len()
{
    if start >= events.len() {
        None
    } else {
        match spec_try_events(p, events, start) {
            Some(t) => Some(t),
            None => spec_events_search(p, events, start + 1),
        }
    }
}

/// What [`execute_pattern_events`] returns: nothing for an empty stream or
/// pattern, else the first match's condition timestamps.
pub open spec fn spec_execute_events(p: Seq<PatternStep>, events: Seq<Event>) -> Option<Seq<i64>> {
    if events.len() == 0 || p.len() == 0 {
        None
    } else {
        spec_events_search(p, events, 0)
    }
}

/// Copies a vector of timestamps.
fn dup_i64_vec(v: &Vec<i64>) -> (r: Vec<i64>)
    ensures
        r@ == v@,
{
    let mut r: Vec<i64> = Vec::new();
    let mut i: usize = 0;
    while i < v.len()
        invariant
            i <= v.len(),
            r@ == v@.take(i as int),
        decreases v.len() - i,
    {
        r.push(v[i]);
        proof {
            assert(v@.take(i as int + 1) =~= v@.take(i as int).push(v@[i as int]));
        }
        i += 1;
    }
    proof {
        assert(v@.take(v@.len() as int) =~= v@);
    }
    r
}

/// Tries a collecting match from `start`.
#[verifier::rlimit(60)]
fn try_match_collecting(pattern: &CompiledPattern, events: &[Event], start: usize) -> (r: Option<
    Vec<i64>,
>)
    requires
        start < events@.len(),
    ensures
        match r {
            Some(t) => spec_try_events(pattern.steps@, events@, start as int) == Some(t@),
            None => spec_try_events(pattern.steps@, events@, start as int) is None,
        },
{
    let ghost p = pattern.steps@;
    let mut states: Vec<NfaStateWithTimestamps> = Vec::new();
    states.push(
        NfaStateWithTimestamps {
            event_idx: start,
            step_idx: 0,
            last_match_ts: None,
            collected: Vec::new(),
        },
    );
    proof {
        assert(cstack_view(states@) =~= seq![(start as usize, 0usize, None::<i64>, Seq::<
            i64,
        >::empty())]);
    }
    let mut iterations: usize = 0;
    while states.len() > 0
        invariant
            p == pattern.steps@,
            iterations <= MAX_NFA_STATES,
            spec_try_events(p, events@, start as int) == spec_cnfa_run(
                p,
                events@,
                cstack_view(states@),
                iterations as int,
            ),
            forall|m: int|
                0 <= m < states@.len() ==> #[trigger] states@[m].event_idx <= events@.len(),
        decreases MAX_NFA_STATES - iterations,
    {
        let ghost prior = states@;
        let ghost it0 = iterations as int;
        let state = match states.pop() {
            Some(s) => s,
            None => {
                return None;
            },
        };
        proof {
            assert(prior.last() == state);
            assert(states@ == prior.drop_last());
            assert(cstack_view(prior).last() == cview(prior.last()));
            assert(cstack_view(states@) =~= cstack_view(prior).drop_last());
            assert(prior[prior.len() - 1].event_idx <= events@.len());
            assert(state.event_idx <= events@.len());
        }
        iterations += 1;
        if iterations > MAX_NFA_STATES {
            proof {
                assert(spec_cnfa_run(p, events@, cstack_view(prior), it0) is None);
            }
            return None;
        }
        if state.step_idx >= pattern.steps.len() {
            proof {
                assert(spec_cnfa_run(p, events@, cstack_view(prior), it0) == Some(
                    state.collected@,
                ));
            }
            return Some(state.collected);
        }
        if state.event_idx >= events.len() {
            match pattern.steps[state.step_idx] {
                PatternStep::AnyEvents => {
                    let ghost rest_view = cstack_view(states@);
                    states.push(
                        NfaStateWithTimestamps { step_idx: state.step_idx + 1, ..state },
                    );
                    proof {
                        assert(cstack_view(states@) =~= rest_view.push(
                            (
                                state.event_idx,
                                (state.step_idx + 1) as usize,
                                state.last_match_ts,
                                state.collected@,
                            ),
                        ));
                        assert(spec_cnfa_run(p, events@, cstack_view(prior), it0)
                            == spec_cnfa_run(p, events@, cstack_view(states@), it0 + 1));
                    }
                },
                _ => {
                    proof {
                        assert(spec_cnfa_run(p, events@, cstack_view(prior), it0)
                            == spec_cnfa_run(p, events@, cstack_view(states@), it0 + 1));
                    }
                },
            }
            continue ;
        }
        let event = events[state.event_idx];
        match pattern.steps[state.step_idx] {
            PatternStep::Condition(cond_idx) => {
                let ghost rest_view = cstack_view(states@);
                if event.condition(cond_idx) {
                    let mut new_collected = dup_i64_vec(&state.collected);
                    new_collected.push(event.timestamp_us);
                    states.push(
                        NfaStateWithTimestamps {
                            event_idx: state.event_idx + 1,
                            step_idx: state.step_idx + 1,
                            last_match_ts: Some(event.timestamp_us),
                            collected: new_collected,
                        },
                    );
                    proof {
                        assert(cstack_view(states@) =~= rest_view.push(
                            (
                                (state.event_idx + 1) as usize,
                                (state.step_idx + 1) as usize,
                                Some(event.timestamp_us),
                                state.collected@.push(event.timestamp_us),
                            ),
                        ));
                    }
                }
                proof {
                    assert forall|m: int|
                            0 <= m < states@.len() implies #[trigger] states@[m].event_idx
                            <= events@.len() by {
                            if m < prior.len() - 1 {
                                assert(states@[m] == prior[m]);
                            }
                        }
                        assert(spec_cnfa_run(p, events@, cstack_view(prior), it0) == spec_cnfa_run(
                        p,
                        events@,
                        cstack_view(states@),
                        it0 + 1,
                    ));
                }
            },
            PatternStep::AnyEvents => {
                let ghost rest_view = cstack_view(states@);
                let consume = NfaStateWithTimestamps {
                    event_idx: state.event_idx + 1,
                    step_idx: state.step_idx,
                    last_match_ts: state.last_match_ts,
                    collected: dup_i64_vec(&state.collected),
                };
                states.push(consume);
                states.push(NfaStateWithTimestamps { step_idx: state.step_idx + 1, ..state });
                proof {
                    assert(cstack_view(states@) =~= rest_view.push(
                        (
                            (state.event_idx + 1) as usize,
                            state.step_idx,
                            state.last_match_ts,
                            state.collected@,
                        ),
                    ).push(
                        (
                            state.event_idx,
                            (state.step_idx + 1) as usize,
                            state.last_match_ts,
                            state.collected@,
                        ),
                    ));
                    assert forall|m: int|
                            0 <= m < states@.len() implies #[trigger] states@[m].event_idx
                            <= events@.len() by {
                            if m < prior.len() - 1 {
                                assert(states@[m] == prior[m]);
                            }
                        }
                        assert(spec_cnfa_run(p, events@, cstack_view(prior), it0) == spec_cnfa_run(
                        p,
                        events@,
                        cstack_view(states@),
                        it0 + 1,
                    ));
                }
            },
            PatternStep::OneEvent => {
                let ghost rest_view = cstack_view(states@);
                states.push(
                    NfaStateWithTimestamps {
                        event_idx: state.event_idx + 1,
                        step_idx: state.step_idx + 1,
                        last_match_ts: Some(event.timestamp_us),
                        collected: state.collected,
                    },
                );
                proof {
                    assert(cstack_view(states@) =~= rest_view.push(
                        (
                            (state.event_idx + 1) as usize,
                            (state.step_idx + 1) as usize,
                            Some(event.timestamp_us),
                            prior.last().collected@,
                        ),
                    ));
                    assert forall|m: int|
                            0 <= m < states@.len() implies #[trigger] states@[m].event_idx
                            <= events@.len() by {
                            if m < prior.len() - 1 {
                                assert(states@[m] == prior[m]);
                            }
                        }
                        assert(spec_cnfa_run(p, events@, cstack_view(prior), it0) == spec_cnfa_run(
                        p,
                        events@,
                        cstack_view(states@),
                        it0 + 1,
                    ));
                }
            },
            PatternStep::TimeConstraint(op, threshold_seconds) => {
                let ghost rest_view = cstack_view(states@);
                let advance = match state.last_match_ts {
                    Some(prev_ts) => {
                        let elapsed = elapsed_seconds(event.timestamp_us, prev_ts);
                        op.evaluate(elapsed, threshold_seconds)
                    },
                    None => true,
                };
                if advance {
                    states.push(
                        NfaStateWithTimestamps { step_idx: state.step_idx + 1, ..state },
                    );
                    proof {
                        assert(cstack_view(states@) =~= rest_view.push(
                            (
                                state.event_idx,
                                (state.step_idx + 1) as usize,
                                prior.last().last_match_ts,
                                prior.last().collected@,
                            ),
                        ));
                    }
                }
                proof {
                    assert forall|m: int|
                            0 <= m < states@.len() implies #[trigger] states@[m].event_idx
                            <= events@.len() by {
                            if m < prior.len() - 1 {
                                assert(states@[m] == prior[m]);
                            }
                        }
                        assert(spec_cnfa_run(p, events@, cstack_view(prior), it0) == spec_cnfa_run(
                        p,
                        events@,
                        cstack_view(states@),
                        it0 + 1,
                    ));
                }
            },
        }
    }
    None
}

/// Runs a compiled pattern against a timestamp-sorted event stream and
/// returns the first match's condition timestamps, one per `(?N)` step;
/// wildcard and time-constraint steps contribute none.
pub fn execute_pattern_events(pattern: &CompiledPattern, events: &[Event]) -> (r: Option<
    Vec<i64>,
>)
    ensures
        match r {
            Some(t) => spec_execute_events(pattern.steps@, events@) == Some(t@),
            None => spec_execute_events(pattern.steps@, events@) is None,
        },
{
    if events.len() == 0 || pattern.steps.len() == 0 {
        return None;
    }
    let ghost p = pattern.steps@;
    let mut start: usize = 0;
    while start < events.len()
        invariant
            p == pattern.steps@,
            start <= events.len(),
            events@.len() > 0,
            p.len() > 0,
            spec_events_search(p, events@, 0) == spec_events_search(p, events@, start as int),
        decreases events.len() - start,
    {
        let ghost os = start as int;
        match try_match_collecting(pattern, events, start) {
            Some(timestamps) => {
                proof {
                    assert(spec_events_search(p, events@, os) == Some(timestamps@));
                }
                return Some(timestamps);
            },
            None => {
                proof {
                    assert(spec_events_search(p, events@, os) == spec_events_search(
                        p,
                        events@,
                        os + 1,
                    ));
                }
                start += 1;
            },
        }
    }
    proof {
        assert(spec_events_search(p, events@, start as int) is None);
    }
    None
}

/// Runs a compiled pattern against a timestamp-sorted event stream.
///
/// With `count_all` the result carries the number of non-overlapping
/// matches; without it the search stops at the first match and the count is
/// at most one.  Either way `matched` says whether any match exists.
pub fn execute_pattern(pattern: &CompiledPattern, events: &[Event], count_all: bool) -> (r:
    MatchResult)
    ensures
        r.matched == (spec_execute_count(pattern.steps@, events@) > 0),
        count_all ==> r.count == spec_execute_count(pattern.steps@, events@),
        !count_all ==> r.count == if r.matched {
            1int
        } else {
            0int
        },
{
    if events.len() == 0 || pattern.steps.len() == 0 {
        return MatchResult { matched: false, count: 0 };
    }
    match classify_pattern(pattern) {
        PatternShape::AdjacentConditions(conds) => fast_adjacent(events, &conds, count_all),
        PatternShape::WildcardSeparated(conds) => fast_wildcard(events, &conds, count_all),
        PatternShape::Complex => execute_pattern_nfa(pattern, events, count_all),
    }
}

} // verus!
