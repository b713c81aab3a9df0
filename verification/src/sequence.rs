//! Sequence-matching aggregation core.
//!
//! One state serves three finalizers: whether the pattern matches the
//! collected events, how many non-overlapping matches it has, and the
//! timestamps of the first match's condition steps.  Events arrive in any
//! order and are sorted on finalize; the pattern string is recorded on the
//! first update and compiled lazily, with the compilation cached across
//! repeated finalize calls.

use vstd::prelude::*;
use vstd::utf8::encode_utf8;
use crate::event::{Event, sort_events, sort_events_by_ts, lemma_sort_events_by_ts_ensures,
    lemma_sort_events_by_ts_idempotent};
use crate::executor::{execute_pattern, execute_pattern_events, spec_execute_count,
    spec_execute_events};
use crate::parser::{parse_pattern, spec_parse_pattern, CompiledPattern, PatternError, PatternStep,
    err_matches};

verus! {

/// The characters a state's pattern is parsed from: the recorded string, or
/// nothing at all, which parses like an empty string.
pub open spec fn pattern_source(pv: Option<Seq<char>>) -> Seq<char> {
    match pv {
        Some(s) => s,
        None => Seq::empty(),
    }
}

/// The view of an optional pattern string.
pub open spec fn pattern_view(ps: Option<String>) -> Option<Seq<char>> {
    match ps {
        Some(s) => Some(s@),
        None => None,
    }
}

/// What `finalize_match` computes from a pattern and the collected events:
/// the pattern's parse error, or whether it matches the sorted events.
pub open spec fn spec_sequence_match(pv: Option<Seq<char>>, events: Seq<Event>) -> Result<
    bool,
    (int, Seq<char>),
> {
    match spec_parse_pattern(encode_utf8(pattern_source(pv))) {
        Err(e) => Err(e),
        Ok(steps) => Ok(spec_execute_count(steps, sort_events_by_ts(events)) > 0),
    }
}

/// What `finalize_count` computes: the parse error, or the number of
/// non-overlapping matches over the sorted events.
pub open spec fn spec_sequence_count(pv: Option<Seq<char>>, events: Seq<Event>) -> Result<
    nat,
    (int, Seq<char>),
> {
    match spec_parse_pattern(encode_utf8(pattern_source(pv))) {
        Err(e) => Err(e),
        Ok(steps) => Ok(spec_execute_count(steps, sort_events_by_ts(events))),
    }
}

/// What `finalize_events` computes: the parse error, or the first match's
/// condition timestamps over the sorted events — empty when nothing
/// matches.
pub open spec fn spec_sequence_events(pv: Option<Seq<char>>, events: Seq<Event>) -> Result<
    Seq<i64>,
    (int, Seq<char>),
> {
    match spec_parse_pattern(encode_utf8(pattern_source(pv))) {
        Err(e) => Err(e),
        Ok(steps) => Ok(
            match spec_execute_events(steps, sort_events_by_ts(events)) {
                Some(t) => t,
                None => Seq::empty(),
            },
        ),
    }
}

/// State of one group's sequence aggregation.
pub struct SequenceState {
    /// Collected events, in arrival order until a finalizer sorts them.
    pub events: Vec<Event>,
    /// The pattern string, recorded on the first `set_pattern` call.
    pub pattern_str: Option<String>,
    /// Cached compilation of `pattern_str`; filled by the finalizers and
    /// meaningful only while `wf` holds.
    pub compiled_pattern: Option<CompiledPattern>,
}

impl SequenceState {
    /// The cache, when filled, holds exactly the successful parse of the
    /// recorded pattern string.
    pub open spec fn wf(self) -> bool {
        match self.compiled_pattern {
            Some(cp) => spec_parse_pattern(encode_utf8(pattern_source(pattern_view(
                self.pattern_str,
            )))) == Ok::<Seq<PatternStep>, (int, Seq<char>)>(cp.steps@),
            None => true,
        }
    }

    /// Creates the empty state: no events, no pattern.
    pub fn new() -> (r: SequenceState)
        ensures
            r.events@ == Seq::<Event>::empty(),
            r.pattern_str is None,
            r.wf(),
    {
        SequenceState { events: Vec::new(), pattern_str: None, compiled_pattern: None }
    }

    /// Records the pattern string; calls after the first are ignored.
    pub fn set_pattern(&mut self, pattern: &str)
        ensures
            final(self).events@ == old(self).events@,
            old(self).pattern_str is Some ==> *final(self) == *old(self),
            old(self).pattern_str is None ==> pattern_view(final(self).pattern_str) == Some(
                pattern@,
            ),
            old(self).wf() ==> final(self).wf(),
    {
        if self.pattern_str.is_none() {
            proof {
                // the cache cannot be filled while no pattern is recorded,
                // because parsing the empty source fails
                if self.compiled_pattern is Some {
                    assert(encode_utf8(pattern_source(pattern_view(self.pattern_str))) =~= Seq::<
                        u8,
                    >::empty());
                    assert(spec_parse_pattern(Seq::<u8>::empty()) is Err) by {
                        assert(crate::parser::spec_skip_ws(Seq::<u8>::empty(), 0) == 0);
                        assert(crate::parser::spec_parse_steps(Seq::<u8>::empty(), 0) == Ok::<
                            Seq<PatternStep>,
                            (int, Seq<char>),
                        >(Seq::empty()));
                    }
                }
            }
            self.pattern_str = Some(pattern.to_owned());
        }
    }

    /// Adds an event; rows on which no condition held are dropped, since
    /// they can satisfy no condition step.
    pub fn update(&mut self, event: Event)
        ensures
            final(self).events@ == if event.conditions != 0 {
                old(self).events@.push(event)
            } else {
                old(self).events@
            },
            final(self).pattern_str == old(self).pattern_str,
            old(self).wf() ==> final(self).wf(),
    {
        if event.has_any_condition() {
            self.events.push(event);
        }
    }

    /// Combines two states into a new one: the events concatenate, and the
    /// pattern comes from `self` when it has one, else from `other`.
    pub fn combine(&self, other: &SequenceState) -> (r: SequenceState)
        ensures
            r.events@ == self.events@ + other.events@,
            pattern_view(r.pattern_str) == if self.pattern_str is Some {
                pattern_view(self.pattern_str)
            } else {
                pattern_view(other.pattern_str)
            },
            r.wf(),
    {
        let mut events: Vec<Event> = Vec::new();
        push_all(&mut events, &self.events);
        push_all(&mut events, &other.events);
        let pattern_str = match &self.pattern_str {
            Some(s) => Some(s.clone()),
            None => match &other.pattern_str {
                Some(o) => Some(o.clone()),
                None => None,
            },
        };
        SequenceState { events, pattern_str, compiled_pattern: None }
    }

    /// Appends another state's events into `self`; when `self` has no
    /// pattern yet it adopts the other's, and the cache is dropped since
    /// the pattern changed.
    pub fn combine_in_place(&mut self, other: &SequenceState)
        ensures
            final(self).events@ == old(self).events@ + other.events@,
            pattern_view(final(self).pattern_str) == if old(self).pattern_str is Some {
                pattern_view(old(self).pattern_str)
            } else {
                pattern_view(other.pattern_str)
            },
            old(self).wf() ==> final(self).wf(),
    {
        push_all(&mut self.events, &other.events);
        if self.pattern_str.is_none() {
            self.pattern_str = match &other.pattern_str {
                Some(o) => Some(o.clone()),
                None => None,
            };
            self.compiled_pattern = None;
        }
    }

    /// Sorts the events, compiles the pattern unless a compilation is
    /// cached, and runs the executor.
    fn execute(&mut self, count_all: bool) -> (r: Result<crate::executor::MatchResult,
        PatternError>)
        requires
            old(self).wf(),
        ensures
            final(self).events@ == sort_events_by_ts(old(self).events@),
            final(self).pattern_str == old(self).pattern_str,
            final(self).wf(),
            match (r, spec_sequence_count(
                pattern_view(old(self).pattern_str),
                old(self).events@,
            )) {
                (Ok(m), Ok(c)) => m.matched == (c > 0) && (count_all ==> m.count == c) && (
                !count_all ==> m.count == if m.matched {
                    1int
                } else {
                    0int
                }),
                (Err(e), Err(se)) => err_matches(e, se),
                _ => false,
            },
    {
        proof {
            lemma_sort_events_by_ts_ensures(self.events@);
        }
        sort_events(&mut self.events);
        if self.compiled_pattern.is_none() {
            let source: &str = match &self.pattern_str {
                Some(s) => s.as_str(),
                None => "",
            };
            proof {
                reveal_strlit("");
                assert(source@ == pattern_source(pattern_view(self.pattern_str)));
            }
            match parse_pattern(source) {
                Ok(cp) => {
                    self.compiled_pattern = Some(cp);
                },
                Err(e) => {
                    return Err(e);
                },
            }
        }
        match &self.compiled_pattern {
            Some(cp) => Ok(execute_pattern(cp, self.events.as_slice(), count_all)),
            None => {
                proof {
                    assert(false);
                }
                Err(PatternError { message: String::new(), position: 0 })
            },
        }
    }

    /// Whether the pattern matches the collected events; the pattern's
    /// parse failure is reported instead when it has one.
    pub fn finalize_match(&mut self) -> (r: Result<bool, PatternError>)
        requires
            old(self).wf(),
        ensures
            final(self).events@ == sort_events_by_ts(old(self).events@),
            final(self).pattern_str == old(self).pattern_str,
            final(self).wf(),
            match (r, spec_sequence_match(
                pattern_view(old(self).pattern_str),
                old(self).events@,
            )) {
                (Ok(m), Ok(sm)) => m == sm,
                (Err(e), Err(se)) => err_matches(e, se),
                _ => false,
            },
    {
        match self.execute(false) {
            Ok(result) => Ok(result.matched),
            Err(e) => Err(e),
        }
    }

    /// The number of non-overlapping matches of the pattern over the
    /// collected events.
    pub fn finalize_count(&mut self) -> (r: Result<i64, PatternError>)
        requires
            old(self).wf(),
        ensures
            final(self).events@ == sort_events_by_ts(old(self).events@),
            final(self).pattern_str == old(self).pattern_str,
            final(self).wf(),
            match (r, spec_sequence_count(
                pattern_view(old(self).pattern_str),
                old(self).events@,
            )) {
                (Ok(c), Ok(sc)) => c == sc as i64,
                (Err(e), Err(se)) => err_matches(e, se),
                _ => false,
            },
    {
        match self.execute(true) {
            Ok(result) => Ok(#[verifier::truncate] (result.count as i64)),
            Err(e) => Err(e),
        }
    }

    /// The timestamps of the first match's condition steps, in order;
    /// empty when nothing matches.
    pub fn finalize_events(&mut self) -> (r: Result<Vec<i64>, PatternError>)
        requires
            old(self).wf(),
        ensures
            final(self).events@ == sort_events_by_ts(old(self).events@),
            final(self).pattern_str == old(self).pattern_str,
            final(self).wf(),
            match (r, spec_sequence_events(
                pattern_view(old(self).pattern_str),
                old(self).events@,
            )) {
                (Ok(t), Ok(st)) => t@ == st,
                (Err(e), Err(se)) => err_matches(e, se),
                _ => false,
            },
    {
        proof {
            lemma_sort_events_by_ts_ensures(self.events@);
        }
        sort_events(&mut self.events);
        if self.compiled_pattern.is_none() {
            let source: &str = match &self.pattern_str {
                Some(s) => s.as_str(),
                None => "",
            };
            proof {
                reveal_strlit("");
                assert(source@ == pattern_source(pattern_view(self.pattern_str)));
            }
            match parse_pattern(source) {
                Ok(cp) => {
                    self.compiled_pattern = Some(cp);
                },
                Err(e) => {
                    return Err(e);
                },
            }
        }
        match &self.compiled_pattern {
            Some(cp) => {
                match execute_pattern_events(cp, self.events.as_slice()) {
                    Some(timestamps) => Ok(timestamps),
                    None => Ok(Vec::new()),
                }
            },
            None => {
                proof {
                    assert(false);
                }
                Err(PatternError { message: String::new(), position: 0 })
            },
        }
    }
}

impl Default for SequenceState {
    /// The default state is the empty state.
    fn default() -> (r: SequenceState)
        ensures
            r.events@ == Seq::<Event>::empty(),
            r.pattern_str is None,
            r.wf(),
    {
        SequenceState { events: Vec::new(), pattern_str: None, compiled_pattern: None }
    }
}

/// Appends every event of `src` to `dst`.
fn push_all(dst: &mut Vec<Event>, src: &Vec<Event>)
    ensures
        final(dst)@ == old(dst)@ + src@,
{
    let mut i: usize = 0;
    while i < src.len()
        invariant
            i <= src.len(),
            dst@ == old(dst)@ + src@.take(i as int),
        decreases src.len() - i,
    {
        proof {
            assert(old(dst)@ + src@.take(i as int + 1) =~= (old(dst)@ + src@.take(
                i as int,
            )).push(src@[i as int]));
        }
        dst.push(src[i]);
        i += 1;
    }
    proof {
        assert(old(dst)@ + src@.take(src@.len() as int) =~= old(dst)@ + src@);
    }
}

/// Law: a match report of true and a positive match count come together —
/// for any pattern and events, `finalize_match` reports a match exactly
/// when `finalize_count` reports at least one, and they fail alike.
pub proof fn lemma_sequence_match_iff_count(pv: Option<Seq<char>>, events: Seq<Event>)
    ensures
        match (spec_sequence_match(pv, events), spec_sequence_count(pv, events)) {
            (Ok(m), Ok(c)) => m == (c > 0),
            (Err(e), Err(se)) => e == se,
            _ => false,
        },
{
}

/// Law: finalizing is repeatable — a finalizer leaves the events sorted,
/// and every finalizer computes the same answer from the sorted events as
/// as from the unsorted ones, so a second finalize returns the same result.
pub proof fn lemma_sequence_refinalize(pv: Option<Seq<char>>, events: Seq<Event>)
    ensures
        spec_sequence_match(pv, sort_events_by_ts(events)) == spec_sequence_match(pv, events),
        spec_sequence_count(pv, sort_events_by_ts(events)) == spec_sequence_count(pv, events),
        spec_sequence_events(pv, sort_events_by_ts(events)) == spec_sequence_events(pv, events),
{
    lemma_sort_events_by_ts_idempotent(events);
}

/// Law: the empty state is an identity for `combine` up to finalize
/// equivalence — its empty event list adds nothing on either side, and by
/// `combine`'s contract a pattern-less state passes the other side's
/// pattern through.
pub proof fn lemma_sequence_combine_identity(pv: Option<Seq<char>>, events: Seq<Event>)
    ensures
        spec_sequence_match(pv, Seq::<Event>::empty() + events) == spec_sequence_match(pv, events),
        spec_sequence_match(pv, events + Seq::<Event>::empty()) == spec_sequence_match(pv, events),
        spec_sequence_count(pv, Seq::<Event>::empty() + events) == spec_sequence_count(pv, events),
        spec_sequence_count(pv, events + Seq::<Event>::empty()) == spec_sequence_count(pv, events),
        spec_sequence_events(pv, Seq::<Event>::empty() + events) == spec_sequence_events(
            pv,
            events,
        ),
        spec_sequence_events(pv, events + Seq::<Event>::empty()) == spec_sequence_events(
            pv,
            events,
        ),
{
    assert(Seq::<Event>::empty() + events =~= events);
    assert(events + Seq::<Event>::empty() =~= events);
}

} // verus!
