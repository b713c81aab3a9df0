//! Next-node aggregation core.
//!
//! Events carry a string value, a base-condition flag, and a bitmask of
//! sequential step conditions.  `finalize` sorts the events by timestamp and
//! looks for the chain step 1 → step 2 → … → step N, walking forward or
//! backward; on a complete match it reports the value of the event adjacent
//! to the chain — the one just after the last matched event going forward,
//! or just before the earliest matched event going backward.  Four base
//! policies pick the starting event among those whose base condition holds.

use vstd::prelude::*;
use crate::event::cond_bit;
use crate::text::{spec_trim, seq_eq_ignore_case, trimmed_eq_ignore_case};

verus! {

/// Direction of the sequential walk.
#[derive(Debug, Clone, Copy, PartialEq, Eq, Structural)]
pub enum Direction {
    /// Scan from earliest to latest; report the value just after the last
    /// matched event.
    Forward,
    /// Scan from latest to earliest; report the value just before the
    /// earliest matched event.
    Backward,
}

/// Which base-condition event starts the match.
#[derive(Debug, Clone, Copy, PartialEq, Eq, Structural)]
pub enum Base {
    /// The chronologically first base-condition event; no retry.
    Head,
    /// The chronologically last base-condition event; no retry.
    Tail,
    /// The first base-condition event producing a complete match.
    FirstMatch,
    /// The last base-condition event producing a complete match.
    LastMatch,
}

/// A timestamped event with an optional string value.
#[derive(Debug, Clone)]
pub struct NextNodeEvent {
    /// Timestamp in microseconds since the Unix epoch.
    pub timestamp_us: i64,
    /// The event's value — the candidate result.
    pub value: Option<String>,
    /// Whether the base condition held on this row.
    pub base_condition: bool,
    /// Bit `i` is set when step condition `i+1` held on this row.
    pub conditions: u32,
}

/// Ghost image of a next-node event.
pub struct NextNodeEventView {
    /// Timestamp in microseconds.
    pub timestamp_us: int,
    /// The value's characters, when present.
    pub value: Option<Seq<char>>,
    /// Whether the base condition held.
    pub base_condition: bool,
    /// Step-condition bitmask.
    pub conditions: u32,
}

/// The ghost image of one event.
pub open spec fn nn_view(e: NextNodeEvent) -> NextNodeEventView {
    NextNodeEventView {
        timestamp_us: e.timestamp_us as int,
        value: match e.value {
            Some(s) => Some(s@),
            None => None,
        },
        base_condition: e.base_condition,
        conditions: e.conditions,
    }
}

/// The ghost image of an event list.
pub open spec fn nn_events_view(s: Seq<NextNodeEvent>) -> Seq<NextNodeEventView> {
    s.map_values(|e: NextNodeEvent| nn_view(e))
}

/// Non-decreasing timestamp order.
pub open spec fn nn_sorted(s: Seq<NextNodeEventView>) -> bool {
    forall|i: int, j: int| 0 <= i < j < s.len() ==> s[i].timestamp_us <= s[j].timestamp_us
}

/// Stable insertion of `e` into `s` by timestamp.
pub open spec fn nn_insert(s: Seq<NextNodeEventView>, e: NextNodeEventView) -> Seq<
    NextNodeEventView,
>
    decreases s.len(),
{
    if s.len() == 0 {
        seq![e]
    } else if s.last().timestamp_us <= e.timestamp_us {
        s.push(e)
    } else {
        nn_insert(s.drop_last(), e).push(s.last())
    }
}

/// Stable sort of next-node events by timestamp.
pub open spec fn nn_sort(s: Seq<NextNodeEventView>) -> Seq<NextNodeEventView>
    decreases s.len(),
{
    if s.len() == 0 {
        Seq::empty()
    } else {
        nn_insert(nn_sort(s.drop_last()), s.last())
    }
}

/// The insertion keeps the order and the length.
pub proof fn lemma_nn_insert_ensures(s: Seq<NextNodeEventView>, e: NextNodeEventView)
    requires
        nn_sorted(s),
    ensures
        nn_sorted(nn_insert(s, e)),
        nn_insert(s, e).len() == s.len() + 1,
        forall|i: int|
            0 <= i < nn_insert(s, e).len() ==> (nn_insert(s, e)[i] == e || exists|k: int|
                0 <= k < s.len() && nn_insert(s, e)[i] == s[k]),
    decreases s.len(),
{
    if s.len() == 0 {
    } else if s.last().timestamp_us <= e.timestamp_us {
    } else {
        let front = s.drop_last();
        assert(nn_sorted(front)) by {
            assert(forall|i: int|
                0 <= i < front.len() ==> front[i] == s[i]);
        }
        lemma_nn_insert_ensures(front, e);
        let inner = nn_insert(front, e);
        let full = inner.push(s.last());
        assert forall|i: int, j: int|
            0 <= i < j < full.len() implies full[i].timestamp_us <= full[j].timestamp_us by {
            if j == inner.len() {
                let x = inner[i];
                assert(x == e || exists|k: int| 0 <= k < front.len() && x == front[k]);
                if x != e {
                    let k = choose|k: int| 0 <= k < front.len() && x == front[k];
                    assert(s[k] == x);
                    assert(s[k].timestamp_us <= s.last().timestamp_us);
                }
            }
        }
        assert forall|i: int|
            0 <= i < full.len() implies (full[i] == e || exists|k: int|
                0 <= k < s.len() && full[i] == s[k]) by {
            if i < inner.len() {
                if inner[i] != e {
                    let k = choose|k: int| 0 <= k < front.len() && inner[i] == front[k];
                    assert(s[k] == inner[i]);
                }
            } else {
                assert(full[i] == s[s.len() - 1]);
            }
        }
    }
}

/// The sort is sorted and keeps the length.
pub proof fn lemma_nn_sort_ensures(s: Seq<NextNodeEventView>)
    ensures
        nn_sorted(nn_sort(s)),
        nn_sort(s).len() == s.len(),
    decreases s.len(),
{
    if s.len() > 0 {
        lemma_nn_sort_ensures(s.drop_last());
        lemma_nn_insert_ensures(nn_sort(s.drop_last()), s.last());
    }
}

/// Sorting an already sorted sequence gives it back unchanged.
pub proof fn lemma_nn_sort_id(s: Seq<NextNodeEventView>)
    requires
        nn_sorted(s),
    ensures
        nn_sort(s) == s,
    decreases s.len(),
{
    if s.len() == 0 {
        assert(nn_sort(s) =~= s);
    } else {
        let front = s.drop_last();
        assert(nn_sorted(front)) by {
            assert(forall|i: int| 0 <= i < front.len() ==> front[i] == s[i]);
        }
        lemma_nn_sort_id(front);
        if front.len() == 0 {
            assert(nn_sort(s) =~= s);
        } else {
            assert(front.last().timestamp_us <= s.last().timestamp_us) by {
                assert(front.last() == s[s.len() - 2]);
            }
            assert(front.push(s.last()) =~= s);
        }
    }
}

/// When every element at or after `j` is strictly later than `e` and the
/// one just before `j` (if any) is not, `nn_insert` puts `e` exactly at
/// `j`.
proof fn lemma_nn_insert_at(s: Seq<NextNodeEventView>, e: NextNodeEventView, j: int)
    requires
        nn_sorted(s),
        0 <= j <= s.len(),
        forall|k: int| j <= k < s.len() ==> s[k].timestamp_us > e.timestamp_us,
        j > 0 ==> s[j - 1].timestamp_us <= e.timestamp_us,
    ensures
        nn_insert(s, e) == s.take(j).push(e) + s.skip(j),
    decreases s.len(),
{
    if s.len() == 0 {
        assert(nn_insert(s, e) =~= s.take(j).push(e) + s.skip(j));
    } else if j == s.len() {
        assert(nn_insert(s, e) =~= s.take(j).push(e) + s.skip(j));
    } else {
        assert(s.last().timestamp_us > e.timestamp_us) by {
            assert(s.len() - 1 >= j);
        }
        let front = s.drop_last();
        assert(nn_sorted(front)) by {
            assert(forall|a: int| 0 <= a < front.len() ==> front[a] == s[a]);
        }
        lemma_nn_insert_at(front, e, j);
        assert(front.take(j) =~= s.take(j));
        assert((front.take(j).push(e) + front.skip(j)).push(s.last()) =~= s.take(j).push(e)
            + s.skip(j));
    }
}

/// The forward walk from `pos`: each event whose bit for the current step
/// is set advances the step and becomes the last matched event; the walk
/// ends at the events' end or when every step is matched.  Returns the
/// final step and the last matched index.
pub open spec fn spec_forward_scan(
    events: Seq<NextNodeEventView>,
    pos: int,
    step: int,
    num_steps: int,
    last_matched: int,
) -> (int, int)
    decreases events.len() - pos,
{
    if pos >= events.len() || step >= num_steps {
        (step, last_matched)
    } else if cond_bit(events[pos].conditions, step) {
        spec_forward_scan(events, pos + 1, step + 1, num_steps, pos)
    } else {
        spec_forward_scan(events, pos + 1, step, num_steps, last_matched)
    }
}

/// One forward try from `start`: the start must satisfy step 1, the walk
/// must reach every step, and the result is the value of the event just
/// after the last matched one — nothing when any of that fails.
pub open spec fn spec_try_forward(
    events: Seq<NextNodeEventView>,
    start: int,
    num_steps: int,
) -> Option<Seq<char>> {
    if !cond_bit(events[start].conditions, 0) {
        None
    } else {
        let r = spec_forward_scan(events, start + 1, 1, num_steps, start);
        if r.0 == num_steps {
            if r.1 + 1 < events.len() {
                events[r.1 + 1].value
            } else {
                None
            }
        } else {
            None
        }
    }
}

/// The backward walk from `pos` down to 0, advancing the step on each
/// event whose bit is set; returns the final step and the earliest matched
/// index.
pub open spec fn spec_backward_scan(
    events: Seq<NextNodeEventView>,
    pos: int,
    step: int,
    num_steps: int,
    earliest_matched: int,
) -> (int, int)
    decreases pos + 1,
{
    if pos < 0 || step >= num_steps {
        (step, earliest_matched)
    } else if cond_bit(events[pos].conditions, step) {
        spec_backward_scan(events, pos - 1, step + 1, num_steps, pos)
    } else {
        spec_backward_scan(events, pos - 1, step, num_steps, earliest_matched)
    }
}

/// One backward try from `start`: the start must satisfy step 1, the walk
/// toward earlier events must reach every step, and the result is the
/// value of the event just before the earliest matched one.
pub open spec fn spec_try_backward(
    events: Seq<NextNodeEventView>,
    start: int,
    num_steps: int,
) -> Option<Seq<char>> {
    if !cond_bit(events[start].conditions, 0) {
        None
    } else {
        let r = spec_backward_scan(events, start - 1, 1, num_steps, start);
        if r.0 == num_steps {
            if r.1 > 0 {
                events[r.1 - 1].value
            } else {
                None
            }
        } else {
            None
        }
    }
}

/// First index at or after `from` whose base condition holds, or the
/// length.
pub open spec fn spec_first_base(events: Seq<NextNodeEventView>, from: int) -> int
    decreases events.len() - from,
    when 0 <= from <= events.len()
{
    if from >= events.len() {
        from
    } else if events[from].base_condition {
        from
    } else {
        spec_first_base(events, from + 1)
    }
}

/// Last index at or before `from` whose base condition holds, or -1.
pub open spec fn spec_last_base(events: Seq<NextNodeEventView>, from: int) -> int
    decreases from + 1,
{
    if from < 0 {
        -1
    } else if events[from].base_condition {
        from
    } else {
        spec_last_base(events, from - 1)
    }
}

/// The first base-condition start at or after `s` whose forward try
/// succeeds.
pub open spec fn spec_first_match_forward(
    events: Seq<NextNodeEventView>,
    s: int,
    num_steps: int,
) -> Option<Seq<char>>
    decreases events.len() - s,
    when 0 <= s <= events.len()
{
    if s >= events.len() {
        None
    } else if events[s].base_condition && spec_try_forward(events, s, num_steps) is Some {
        spec_try_forward(events, s, num_steps)
    } else {
        spec_first_match_forward(events, s + 1, num_steps)
    }
}

/// The last base-condition start at or before the end, at or after `s`...
/// the latest start whose forward try succeeds, looking at `s` and
/// everything after it.
pub open spec fn spec_last_match_forward(
    events: Seq<NextNodeEventView>,
    s: int,
    num_steps: int,
) -> Option<Seq<char>>
    decreases events.len() - s,
    when 0 <= s <= events.len()
{
    if s >= events.len() {
        None
    } else {
        let rest = spec_last_match_forward(events, s + 1, num_steps);
        if rest is Some {
            rest
        } else if events[s].base_condition && spec_try_forward(events, s, num_steps) is Some {
            spec_try_forward(events, s, num_steps)
        } else {
            None
        }
    }
}

/// The latest base-condition start at or before `s` whose backward try
/// succeeds.
pub open spec fn spec_first_match_backward(
    events: Seq<NextNodeEventView>,
    s: int,
    num_steps: int,
) -> Option<Seq<char>>
    decreases s + 1,
{
    if s < 0 {
        None
    } else if events[s].base_condition && spec_try_backward(events, s, num_steps) is Some {
        spec_try_backward(events, s, num_steps)
    } else {
        spec_first_match_backward(events, s - 1, num_steps)
    }
}

/// The earliest base-condition start at or before `s` whose backward try
/// succeeds.
pub open spec fn spec_last_match_backward(
    events: Seq<NextNodeEventView>,
    s: int,
    num_steps: int,
) -> Option<Seq<char>>
    decreases s + 1,
{
    if s < 0 {
        None
    } else {
        let below = spec_last_match_backward(events, s - 1, num_steps);
        if below is Some {
            below
        } else if events[s].base_condition && spec_try_backward(events, s, num_steps) is Some {
            spec_try_backward(events, s, num_steps)
        } else {
            None
        }
    }
}

/// The forward result under a base policy.
pub open spec fn spec_match_forward(
    events: Seq<NextNodeEventView>,
    base: Base,
    num_steps: int,
) -> Option<Seq<char>> {
    match base {
        Base::Head => {
            let s = spec_first_base(events, 0);
            if s >= events.len() {
                None
            } else {
                spec_try_forward(events, s, num_steps)
            }
        },
        Base::Tail => {
            let s = spec_last_base(events, events.len() - 1);
            if s < 0 {
                None
            } else {
                spec_try_forward(events, s, num_steps)
            }
        },
        Base::FirstMatch => spec_first_match_forward(events, 0, num_steps),
        Base::LastMatch => spec_last_match_forward(events, 0, num_steps),
    }
}

/// The backward result under a base policy.
pub open spec fn spec_match_backward(
    events: Seq<NextNodeEventView>,
    base: Base,
    num_steps: int,
) -> Option<Seq<char>> {
    match base {
        Base::Head => {
            let s = spec_first_base(events, 0);
            if s >= events.len() {
                None
            } else {
                spec_try_backward(events, s, num_steps)
            }
        },
        Base::Tail => {
            let s = spec_last_base(events, events.len() - 1);
            if s < 0 {
                None
            } else {
                spec_try_backward(events, s, num_steps)
            }
        },
        Base::FirstMatch => spec_first_match_backward(events, events.len() - 1, num_steps),
        Base::LastMatch => spec_last_match_backward(events, events.len() - 1, num_steps),
    }
}

/// What `finalize` computes: nothing without events or steps; otherwise
/// the configured walk over the sorted events, with forward and
/// first-match as the defaults.
pub open spec fn spec_nn_finalize(
    events: Seq<NextNodeEventView>,
    direction: Option<Direction>,
    base: Option<Base>,
    num_steps: int,
) -> Option<Seq<char>> {
    if events.len() == 0 || num_steps == 0 {
        None
    } else {
        let d = match direction {
            Some(d) => d,
            None => Direction::Forward,
        };
        let b = match base {
            Some(b) => b,
            None => Base::FirstMatch,
        };
        let sorted = nn_sort(events);
        match d {
            Direction::Forward => spec_match_forward(sorted, b, num_steps),
            Direction::Backward => spec_match_backward(sorted, b, num_steps),
        }
    }
}

/// What `parse_direction` accepts.
pub open spec fn spec_parse_direction(s: Seq<char>) -> Option<Direction> {
    if seq_eq_ignore_case(spec_trim(s), "forward"@) {
        Some(Direction::Forward)
    } else if seq_eq_ignore_case(spec_trim(s), "backward"@) {
        Some(Direction::Backward)
    } else {
        None
    }
}

/// What `parse_base` accepts.
pub open spec fn spec_parse_base(s: Seq<char>) -> Option<Base> {
    if seq_eq_ignore_case(spec_trim(s), "head"@) {
        Some(Base::Head)
    } else if seq_eq_ignore_case(spec_trim(s), "tail"@) {
        Some(Base::Tail)
    } else if seq_eq_ignore_case(spec_trim(s), "first_match"@) {
        Some(Base::FirstMatch)
    } else if seq_eq_ignore_case(spec_trim(s), "last_match"@) {
        Some(Base::LastMatch)
    } else {
        None
    }
}

/// State of one group's next-node aggregation.
#[derive(Debug, Clone)]
pub struct SequenceNextNodeState {
    /// Collected events, in arrival order until `finalize` sorts them.
    pub events: Vec<NextNodeEvent>,
    /// Direction of the walk, recorded on first set.
    pub direction: Option<Direction>,
    /// Base policy, recorded on first set.
    pub base: Option<Base>,
    /// Number of step conditions in the chain.
    pub num_steps: usize,
}

impl SequenceNextNodeState {
    /// Creates the empty state.
    pub fn new() -> (r: SequenceNextNodeState)
        ensures
            r.events@ =~= Seq::<NextNodeEvent>::empty(),
            r.direction is None,
            r.base is None,
            r.num_steps == 0,
    {
        SequenceNextNodeState { events: Vec::new(), direction: None, base: None, num_steps: 0 }
    }

    /// Records the direction; calls after the first are ignored.
    pub fn set_direction(&mut self, direction: Direction)
        ensures
            final(self).direction == if old(self).direction is Some {
                old(self).direction
            } else {
                Some(direction)
            },
            final(self).events == old(self).events,
            final(self).base == old(self).base,
            final(self).num_steps == old(self).num_steps,
    {
        if self.direction.is_none() {
            self.direction = Some(direction);
        }
    }

    /// Records the base policy; calls after the first are ignored.
    pub fn set_base(&mut self, base: Base)
        ensures
            final(self).base == if old(self).base is Some {
                old(self).base
            } else {
                Some(base)
            },
            final(self).events == old(self).events,
            final(self).direction == old(self).direction,
            final(self).num_steps == old(self).num_steps,
    {
        if self.base.is_none() {
            self.base = Some(base);
        }
    }

    /// Adds an event.  Every event is kept: any one of them could be the
    /// reported next node, conditions or not.
    pub fn update(&mut self, event: NextNodeEvent)
        ensures
            final(self).events@ == old(self).events@.push(event),
            final(self).direction == old(self).direction,
            final(self).base == old(self).base,
            final(self).num_steps == old(self).num_steps,
    {
        self.events.push(event);
    }

    /// Combines two states into a new one: events concatenate, and the
    /// configuration comes from `self` where set, else from `other`.
    pub fn combine(&self, other: &SequenceNextNodeState) -> (r: SequenceNextNodeState)
        ensures
            nn_events_view(r.events@) == nn_events_view(self.events@) + nn_events_view(
                other.events@,
            ),
            r.direction == if self.direction is Some {
                self.direction
            } else {
                other.direction
            },
            r.base == if self.base is Some {
                self.base
            } else {
                other.base
            },
            r.num_steps == if self.num_steps > 0 {
                self.num_steps
            } else {
                other.num_steps
            },
    {
        let mut events: Vec<NextNodeEvent> = Vec::new();
        push_all_nn(&mut events, &self.events);
        push_all_nn(&mut events, &other.events);
        SequenceNextNodeState {
            events,
            direction: if self.direction.is_some() {
                self.direction
            } else {
                other.direction
            },
            base: if self.base.is_some() {
                self.base
            } else {
                other.base
            },
            num_steps: if self.num_steps > 0 {
                self.num_steps
            } else {
                other.num_steps
            },
        }
    }

    /// Appends another state's events into `self`, absorbing any
    /// configuration `self` lacks.
    pub fn combine_in_place(&mut self, other: &SequenceNextNodeState)
        ensures
            nn_events_view(final(self).events@) == nn_events_view(old(self).events@)
                + nn_events_view(other.events@),
            final(self).direction == if old(self).direction is Some {
                old(self).direction
            } else {
                other.direction
            },
            final(self).base == if old(self).base is Some {
                old(self).base
            } else {
                other.base
            },
            final(self).num_steps == if old(self).num_steps > 0 {
                old(self).num_steps
            } else {
                other.num_steps
            },
    {
        push_all_nn(&mut self.events, &other.events);
        if self.direction.is_none() {
            self.direction = other.direction;
        }
        if self.base.is_none() {
            self.base = other.base;
        }
        if self.num_steps == 0 {
            self.num_steps = other.num_steps;
        }
    }

    /// Runs the configured walk and reports the next node's value.
    pub fn finalize(&mut self) -> (r: Option<String>)
        requires
            old(self).num_steps < 0x7fff_ffff_ffff_ffff,
        ensures
            match (r, spec_nn_finalize(
                nn_events_view(old(self).events@),
                old(self).direction,
                old(self).base,
                old(self).num_steps as int,
            )) {
                (Some(v), Some(sv)) => v@ == sv,
                (None, None) => true,
                _ => false,
            },
            nn_events_view(final(self).events@) == if old(self).events@.len() == 0 || old(
                self,
            ).num_steps == 0 {
                nn_events_view(old(self).events@)
            } else {
                nn_sort(nn_events_view(old(self).events@))
            },
            final(self).direction == old(self).direction,
            final(self).base == old(self).base,
            final(self).num_steps == old(self).num_steps,
    {
        if self.events.len() == 0 || self.num_steps == 0 {
            return None;
        }
        proof {
            lemma_nn_sort_ensures(nn_events_view(self.events@));
        }
        self.sort_events();
        proof {
            assert(nn_events_view(self.events@).len() == self.events@.len());
        }
        let direction = match self.direction {
            Some(d) => d,
            None => Direction::Forward,
        };
        let base = match self.base {
            Some(b) => b,
            None => Base::FirstMatch,
        };
        match direction {
            Direction::Forward => self.match_forward(base),
            Direction::Backward => self.match_backward(base),
        }
    }

    /// Sorts the events by timestamp, ascending, leaving already sorted
    /// input untouched.
    fn sort_events(&mut self)
        ensures
            nn_events_view(final(self).events@) == nn_sort(nn_events_view(old(self).events@)),
            final(self).direction == old(self).direction,
            final(self).base == old(self).base,
            final(self).num_steps == old(self).num_steps,
    {
        proof {
            lemma_nn_sort_ensures(nn_events_view(self.events@));
        }
        let n = self.events.len();
        let mut presorted = true;
        let mut c: usize = 1;
        while c < n
            invariant
                1 <= c,
                c <= n || n == 0,
                n == self.events@.len(),
                self.events == old(self).events,
                self.direction == old(self).direction,
                self.base == old(self).base,
                self.num_steps == old(self).num_steps,
                presorted <==> (forall|i: int, j: int|
                    0 <= i < j < c ==> nn_events_view(self.events@)[i].timestamp_us
                        <= nn_events_view(self.events@)[j].timestamp_us),
            decreases n - c,
        {
            proof {
                let v = nn_events_view(self.events@);
                assert(v[c as int - 1] == nn_view(self.events@[c as int - 1]));
                assert(v[c as int] == nn_view(self.events@[c as int]));
            }
            if self.events[c - 1].timestamp_us > self.events[c].timestamp_us {
                presorted = false;
                proof {
                    let v = nn_events_view(self.events@);
                    assert(v[c as int - 1].timestamp_us > v[c as int].timestamp_us);
                }
            }
            proof {
                let v = nn_events_view(self.events@);
                if presorted {
                    assert forall|i: int, j: int|
                        0 <= i < j < c + 1 implies v[i].timestamp_us <= v[j].timestamp_us by {
                        if j == c {
                            assert(v[i].timestamp_us <= v[c - 1].timestamp_us || i == c - 1);
                            assert(v[c as int - 1].timestamp_us <= v[c as int].timestamp_us);
                        }
                    }
                }
            }
            c += 1;
        }
        if presorted {
            proof {
                assert(nn_sorted(nn_events_view(self.events@)));
                lemma_nn_sort_id(nn_events_view(self.events@));
            }
            return ;
        }
        let ghost full = nn_events_view(self.events@);
        let total = self.events.len();
        let mut result: Vec<NextNodeEvent> = Vec::new();
        let mut i: usize = 0;
        proof {
            assert(nn_events_view(self.events@) =~= full.skip(0));
            assert(nn_events_view(result@) =~= nn_sort(full.take(0)));
        }
        while i < total
            invariant
                i <= total,
                total == old(self).events@.len(),
                i + self.events@.len() == total,
                full == nn_events_view(old(self).events@),
                full.len() == total,
                nn_events_view(self.events@) == full.skip(i as int),
                nn_events_view(result@) == nn_sort(full.take(i as int)),
                nn_sorted(nn_events_view(result@)),
                self.direction == old(self).direction,
                self.base == old(self).base,
                self.num_steps == old(self).num_steps,
            decreases total - i,
        {
            let ghost prior_events = self.events@;
            let e = self.events.remove(0);
            proof {
                assert(nn_view(e) == nn_events_view(prior_events)[0]);
                assert(nn_view(e) == full[i as int]);
                assert(nn_events_view(self.events@) =~= full.skip(i as int + 1)) by {
                    assert(self.events@ == prior_events.remove(0));
                    assert forall|k: int|
                        0 <= k < self.events@.len() implies nn_events_view(self.events@)[k]
                        == full.skip(i as int + 1)[k] by {
                        assert(self.events@[k] == prior_events[k + 1]);
                        assert(nn_events_view(prior_events)[k + 1] == full.skip(i as int)[k
                            + 1]);
                    }
                }
            }
            let mut j = result.len();
            while j > 0 && result[j - 1].timestamp_us > e.timestamp_us
                invariant
                    j <= result@.len(),
                    nn_sorted(nn_events_view(result@)),
                    forall|k: int|
                        j <= k < result@.len() ==> nn_events_view(result@)[k].timestamp_us
                            > e.timestamp_us as int,
                decreases j,
            {
                proof {
                    assert(nn_events_view(result@)[j - 1].timestamp_us
                        > e.timestamp_us as int);
                }
                j -= 1;
            }
            let ghost before = nn_events_view(result@);
            result.insert(j, e);
            proof {
                lemma_nn_insert_at(before, nn_view(e), j as int);
                lemma_nn_insert_ensures(before, nn_view(e));
                assert(nn_events_view(result@) =~= before.take(j as int).push(nn_view(e))
                    + before.skip(j as int));
                assert(nn_events_view(result@) == nn_insert(before, nn_view(e)));
                let t = full.take(i as int + 1);
                assert(t.drop_last() =~= full.take(i as int));
                assert(t.last() == full[i as int]);
                assert(nn_sort(t) == nn_insert(before, nn_view(e)));
            }
            i += 1;
        }
        proof {
            assert(full.take(total as int) =~= full);
        }
        self.events = result;
    }

    /// The forward walk under the given base policy.
    fn match_forward(&self, base: Base) -> (r: Option<String>)
        requires
            nn_sorted(nn_events_view(self.events@)),
            self.events@.len() > 0,
            1 <= self.num_steps < 0x7fff_ffff_ffff_ffff,
        ensures
            match (r, spec_match_forward(
                nn_events_view(self.events@),
                base,
                self.num_steps as int,
            )) {
                (Some(v), Some(sv)) => v@ == sv,
                (None, None) => true,
                _ => false,
            },
    {
        let ghost ev = nn_events_view(self.events@);
        let ghost ns = self.num_steps as int;
        let n = self.events.len();
        match base {
            Base::Head => {
                match self.position_of_base() {
                    Some(start) => self.try_match_forward_from(start, n),
                    None => None,
                }
            },
            Base::Tail => {
                match self.rposition_of_base() {
                    Some(start) => self.try_match_forward_from(start, n),
                    None => None,
                }
            },
            Base::FirstMatch => {
                let mut start: usize = 0;
                while start < n
                    invariant
                        start <= n,
                        n == self.events@.len(),
                        ev == nn_events_view(self.events@),
                        ns == self.num_steps as int,
                        1 <= self.num_steps < 0x7fff_ffff_ffff_ffff,
                        nn_sorted(ev),
                        base is FirstMatch,
                        spec_first_match_forward(ev, 0, ns) == spec_first_match_forward(
                            ev,
                            start as int,
                            ns,
                        ),
                    decreases n - start,
                {
                    let ghost os = start as int;
                    proof {
                        assert(ev[os] == nn_view(self.events@[os]));
                    }
                    if self.events[start].base_condition {
                        let attempt = self.try_match_forward_from(start, n);
                        if attempt.is_some() {
                            proof {
                                assert(spec_try_forward(ev, os, ns) is Some);
                                assert(spec_first_match_forward(ev, os, ns)
                                    == spec_try_forward(ev, os, ns));
                                assert(spec_first_match_forward(ev, 0, ns)
                                    == spec_try_forward(ev, os, ns));
                                assert(base is FirstMatch);
                                assert(spec_match_forward(ev, base, ns)
                                    == spec_first_match_forward(ev, 0, ns));
                                assert(spec_match_forward(ev, base, ns) == spec_try_forward(
                                    ev,
                                    os,
                                    ns,
                                ));
                                assert(spec_match_forward(
                                    nn_events_view(self.events@),
                                    base,
                                    self.num_steps as int,
                                ) == spec_try_forward(ev, os, ns));
                            }
                            return attempt;
                        }
                    }
                    proof {
                        assert(spec_first_match_forward(ev, os, ns)
                            == spec_first_match_forward(ev, os + 1, ns));
                    }
                    start += 1;
                }
                None
            },
            Base::LastMatch => {
                let mut result: Option<String> = None;
                let mut start: usize = 0;
                while start < n
                    invariant
                        start <= n,
                        n == self.events@.len(),
                        ev == nn_events_view(self.events@),
                        ns == self.num_steps as int,
                        1 <= self.num_steps < 0x7fff_ffff_ffff_ffff,
                        nn_sorted(ev),
                        base is LastMatch,
                        match spec_last_match_forward(ev, start as int, ns) {
                            Some(_) => spec_last_match_forward(ev, 0, ns)
                                == spec_last_match_forward(ev, start as int, ns),
                            None => match result {
                                Some(v) => spec_last_match_forward(ev, 0, ns) == Some(v@),
                                None => spec_last_match_forward(ev, 0, ns) is None,
                            },
                        },
                    decreases n - start,
                {
                    let ghost os = start as int;
                    proof {
                        assert(ev[os] == nn_view(self.events@[os]));
                    }
                    if self.events[start].base_condition {
                        let attempt = self.try_match_forward_from(start, n);
                        if attempt.is_some() {
                            result = attempt;
                        }
                    }
                    proof {
                        // one unfolding of the search at this position
                        assert(spec_last_match_forward(ev, os, ns) == (
                        if spec_last_match_forward(ev, os + 1, ns) is Some {
                            spec_last_match_forward(ev, os + 1, ns)
                        } else if ev[os].base_condition && spec_try_forward(ev, os, ns)
                            is Some {
                            spec_try_forward(ev, os, ns)
                        } else {
                            None
                        }));
                    }
                    start += 1;
                }
                result
            },
        }
    }

    /// The backward walk under the given base policy.
    fn match_backward(&self, base: Base) -> (r: Option<String>)
        requires
            nn_sorted(nn_events_view(self.events@)),
            self.events@.len() > 0,
            1 <= self.num_steps < 0x7fff_ffff_ffff_ffff,
        ensures
            match (r, spec_match_backward(
                nn_events_view(self.events@),
                base,
                self.num_steps as int,
            )) {
                (Some(v), Some(sv)) => v@ == sv,
                (None, None) => true,
                _ => false,
            },
    {
        let ghost ev = nn_events_view(self.events@);
        let ghost ns = self.num_steps as int;
        let n = self.events.len();
        match base {
            Base::Tail => {
                match self.rposition_of_base() {
                    Some(start) => self.try_match_backward_from(start),
                    None => None,
                }
            },
            Base::Head => {
                match self.position_of_base() {
                    Some(start) => self.try_match_backward_from(start),
                    None => None,
                }
            },
            Base::FirstMatch => {
                let mut start: usize = n;
                while start > 0
                    invariant
                        start <= n,
                        n == self.events@.len(),
                        ev == nn_events_view(self.events@),
                        ns == self.num_steps as int,
                        1 <= self.num_steps < 0x7fff_ffff_ffff_ffff,
                        nn_sorted(ev),
                        base is FirstMatch,
                        spec_first_match_backward(ev, n - 1, ns) == spec_first_match_backward(
                            ev,
                            start as int - 1,
                            ns,
                        ),
                    decreases start,
                {
                    let s = start - 1;
                    let ghost os = s as int;
                    proof {
                        assert(ev[os] == nn_view(self.events@[os]));
                    }
                    if self.events[s].base_condition {
                        let attempt = self.try_match_backward_from(s);
                        if attempt.is_some() {
                            proof {
                                assert(spec_try_backward(ev, os, ns) is Some);
                                assert(spec_first_match_backward(ev, os, ns)
                                    == spec_try_backward(ev, os, ns));
                            }
                            return attempt;
                        }
                    }
                    proof {
                        assert(spec_first_match_backward(ev, os, ns)
                            == spec_first_match_backward(ev, os - 1, ns));
                    }
                    start = s;
                }
                None
            },
            Base::LastMatch => {
                let mut result: Option<String> = None;
                let mut start: usize = n;
                while start > 0
                    invariant
                        start <= n,
                        n == self.events@.len(),
                        ev == nn_events_view(self.events@),
                        ns == self.num_steps as int,
                        1 <= self.num_steps < 0x7fff_ffff_ffff_ffff,
                        nn_sorted(ev),
                        base is LastMatch,
                        match spec_last_match_backward(ev, start as int - 1, ns) {
                            Some(_) => spec_last_match_backward(ev, n - 1, ns)
                                == spec_last_match_backward(ev, start as int - 1, ns),
                            None => match result {
                                Some(v) => spec_last_match_backward(ev, n - 1, ns) == Some(
                                    v@,
                                ),
                                None => spec_last_match_backward(ev, n - 1, ns) is None,
                            },
                        },
                    decreases start,
                {
                    let s = start - 1;
                    let ghost os = s as int;
                    proof {
                        assert(ev[os] == nn_view(self.events@[os]));
                    }
                    if self.events[s].base_condition {
                        let attempt = self.try_match_backward_from(s);
                        if attempt.is_some() {
                            result = attempt;
                        }
                    }
                    proof {
                        // one unfolding of the search at this position
                        assert(spec_last_match_backward(ev, os, ns) == (
                        if spec_last_match_backward(ev, os - 1, ns) is Some {
                            spec_last_match_backward(ev, os - 1, ns)
                        } else if ev[os].base_condition && spec_try_backward(ev, os, ns)
                            is Some {
                            spec_try_backward(ev, os, ns)
                        } else {
                            None
                        }));
                    }
                    start = s;
                }
                result
            },
        }
    }

    /// First event whose base condition holds.
    fn position_of_base(&self) -> (r: Option<usize>)
        ensures
            ({
                let ev = nn_events_view(self.events@);
                let s = spec_first_base(ev, 0);
                match r {
                    Some(p) => p as int == s && s < ev.len(),
                    None => s >= ev.len(),
                }
            }),
    {
        let ghost ev = nn_events_view(self.events@);
        let n = self.events.len();
        let mut i: usize = 0;
        while i < n
            invariant
                i <= n,
                n == self.events@.len(),
                ev == nn_events_view(self.events@),
                spec_first_base(ev, 0) == spec_first_base(ev, i as int),
            decreases n - i,
        {
            if self.events[i].base_condition {
                return Some(i);
            }
            i += 1;
        }
        None
    }

    /// Last event whose base condition holds.
    fn rposition_of_base(&self) -> (r: Option<usize>)
        ensures
            ({
                let ev = nn_events_view(self.events@);
                let s = spec_last_base(ev, ev.len() - 1);
                match r {
                    Some(p) => p as int == s && 0 <= s < ev.len(),
                    None => s < 0,
                }
            }),
    {
        let ghost ev = nn_events_view(self.events@);
        let n = self.events.len();
        let mut i: usize = n;
        while i > 0
            invariant
                i <= n,
                n == self.events@.len(),
                ev == nn_events_view(self.events@),
                spec_last_base(ev, n - 1) == spec_last_base(ev, i as int - 1),
            decreases i,
        {
            if self.events[i - 1].base_condition {
                return Some(i - 1);
            }
            i -= 1;
        }
        None
    }

    /// One forward try from `start` (see [`spec_try_forward`]).
    fn try_match_forward_from(&self, start: usize, n: usize) -> (r: Option<String>)
        requires
            start < self.events@.len(),
            n == self.events@.len(),
            1 <= self.num_steps < 0x7fff_ffff_ffff_ffff,
        ensures
            match (r, spec_try_forward(
                nn_events_view(self.events@),
                start as int,
                self.num_steps as int,
            )) {
                (Some(v), Some(sv)) => v@ == sv,
                (None, None) => true,
                _ => false,
            },
    {
        let ghost ev = nn_events_view(self.events@);
        let ghost ns = self.num_steps as int;
        if !crate::event::mask_bit(self.events[start].conditions, 0) {
            proof {
                assert(ev[start as int].conditions == self.events@[start as int].conditions);
            }
            return None;
        }
        let mut last_matched = start;
        let mut step: usize = 1;
        let mut pos = start + 1;
        while pos < n && step < self.num_steps
            invariant
                start < pos <= n,
                n == self.events@.len(),
                ev == nn_events_view(self.events@),
                ns == self.num_steps as int,
                self.num_steps < 0x7fff_ffff_ffff_ffff,
                1 <= step <= self.num_steps,
                last_matched < pos,
                spec_forward_scan(ev, start + 1, 1, ns, start as int) == spec_forward_scan(
                    ev,
                    pos as int,
                    step as int,
                    ns,
                    last_matched as int,
                ),
            decreases n - pos,
        {
            let ghost op = pos as int;
            let ghost ostep = step as int;
            let ghost olast = last_matched as int;
            if crate::event::mask_bit(self.events[pos].conditions, step) {
                proof {
                    assert(ev[op].conditions == self.events@[op].conditions);
                    assert(spec_forward_scan(ev, op, ostep, ns, olast) == spec_forward_scan(
                        ev,
                        op + 1,
                        ostep + 1,
                        ns,
                        op,
                    ));
                }
                last_matched = pos;
                step += 1;
            } else {
                proof {
                    assert(ev[op].conditions == self.events@[op].conditions);
                    assert(spec_forward_scan(ev, op, ostep, ns, olast) == spec_forward_scan(
                        ev,
                        op + 1,
                        ostep,
                        ns,
                        olast,
                    ));
                }
            }
            pos += 1;
        }
        proof {
            assert(spec_forward_scan(ev, pos as int, step as int, ns, last_matched as int) == (
            step as int,
            last_matched as int,
            ));
        }
        if step == self.num_steps {
            let next_idx = last_matched + 1;
            if next_idx < n {
                proof {
                    assert(ev[next_idx as int].value == (match self.events@[
                        next_idx as int
                    ].value {
                        Some(s) => Some(s@),
                        None => None,
                    }));
                }
                match &self.events[next_idx].value {
                    Some(s) => Some(s.clone()),
                    None => None,
                }
            } else {
                None
            }
        } else {
            None
        }
    }

    /// One backward try from `start` (see [`spec_try_backward`]).
    fn try_match_backward_from(&self, start: usize) -> (r: Option<String>)
        requires
            start < self.events@.len(),
            1 <= self.num_steps < 0x7fff_ffff_ffff_ffff,
        ensures
            match (r, spec_try_backward(
                nn_events_view(self.events@),
                start as int,
                self.num_steps as int,
            )) {
                (Some(v), Some(sv)) => v@ == sv,
                (None, None) => true,
                _ => false,
            },
    {
        let ghost ev = nn_events_view(self.events@);
        let ghost ns = self.num_steps as int;
        if !crate::event::mask_bit(self.events[start].conditions, 0) {
            proof {
                assert(ev[start as int].conditions == self.events@[start as int].conditions);
            }
            return None;
        }
        let mut earliest_matched = start;
        let mut step: usize = 1;
        let mut pos = start;
        while pos > 0 && step < self.num_steps
            invariant
                pos <= start,
                start < self.events@.len(),
                ev == nn_events_view(self.events@),
                ns == self.num_steps as int,
                self.num_steps < 0x7fff_ffff_ffff_ffff,
                1 <= step <= self.num_steps,
                earliest_matched >= pos,
                earliest_matched <= start,
                spec_backward_scan(ev, start - 1, 1, ns, start as int) == spec_backward_scan(
                    ev,
                    pos as int - 1,
                    step as int,
                    ns,
                    earliest_matched as int,
                ),
            decreases pos,
        {
            let ghost op = pos as int - 1;
            let ghost ostep = step as int;
            let ghost oearliest = earliest_matched as int;
            if crate::event::mask_bit(self.events[pos - 1].conditions, step) {
                proof {
                    assert(ev[op].conditions == self.events@[op].conditions);
                    assert(spec_backward_scan(ev, op, ostep, ns, oearliest)
                        == spec_backward_scan(ev, op - 1, ostep + 1, ns, op));
                }
                earliest_matched = pos - 1;
                step += 1;
            } else {
                proof {
                    assert(ev[op].conditions == self.events@[op].conditions);
                    assert(spec_backward_scan(ev, op, ostep, ns, oearliest)
                        == spec_backward_scan(ev, op - 1, ostep, ns, oearliest));
                }
            }
            pos -= 1;
        }
        proof {
            assert(spec_backward_scan(
                ev,
                pos as int - 1,
                step as int,
                ns,
                earliest_matched as int,
            ) == (step as int, earliest_matched as int));
        }
        if step == self.num_steps {
            if earliest_matched > 0 {
                proof {
                    assert(ev[earliest_matched - 1].value == (match self.events@[
                        earliest_matched - 1
                    ].value {
                        Some(s) => Some(s@),
                        None => None,
                    }));
                }
                match &self.events[earliest_matched - 1].value {
                    Some(s) => Some(s.clone()),
                    None => None,
                }
            } else {
                None
            }
        } else {
            None
        }
    }

    /// Parses a direction name, case-insensitively, around whitespace.
    pub fn parse_direction(s: &str) -> (r: Option<Direction>)
        ensures
            r == spec_parse_direction(s@),
    {
        if trimmed_eq_ignore_case(s, "forward") {
            Some(Direction::Forward)
        } else if trimmed_eq_ignore_case(s, "backward") {
            Some(Direction::Backward)
        } else {
            None
        }
    }

    /// Parses a base-policy name, case-insensitively, around whitespace.
    pub fn parse_base(s: &str) -> (r: Option<Base>)
        ensures
            r == spec_parse_base(s@),
    {
        if trimmed_eq_ignore_case(s, "head") {
            Some(Base::Head)
        } else if trimmed_eq_ignore_case(s, "tail") {
            Some(Base::Tail)
        } else if trimmed_eq_ignore_case(s, "first_match") {
            Some(Base::FirstMatch)
        } else if trimmed_eq_ignore_case(s, "last_match") {
            Some(Base::LastMatch)
        } else {
            None
        }
    }
}

impl Default for SequenceNextNodeState {
    /// The default state is the empty state.
    fn default() -> (r: SequenceNextNodeState)
        ensures
            r.events@ =~= Seq::<NextNodeEvent>::empty(),
            r.direction is None,
            r.base is None,
            r.num_steps == 0,
    {
        SequenceNextNodeState { events: Vec::new(), direction: None, base: None, num_steps: 0 }
    }
}

/// Appends a copy of every event of `src` to `dst`; the copies carry the
/// same timestamps, values, flags and bitmasks.
fn push_all_nn(dst: &mut Vec<NextNodeEvent>, src: &Vec<NextNodeEvent>)
    ensures
        nn_events_view(final(dst)@) == nn_events_view(old(dst)@) + nn_events_view(src@),
{
    let ghost base_len = old(dst)@.len();
    let mut i: usize = 0;
    while i < src.len()
        invariant
            i <= src.len(),
            dst@.len() == base_len + i,
            base_len == old(dst)@.len(),
            forall|k: int| 0 <= k < base_len ==> nn_view(#[trigger] dst@[k]) == nn_view(
                old(dst)@[k],
            ),
            forall|k: int| 0 <= k < i ==> nn_view(#[trigger] dst@[base_len + k]) == nn_view(
                src@[k],
            ),
        decreases src.len() - i,
    {
        let e = &src[i];
        let copy = NextNodeEvent {
            timestamp_us: e.timestamp_us,
            value: match &e.value {
                Some(s) => Some(s.clone()),
                None => None,
            },
            base_condition: e.base_condition,
            conditions: e.conditions,
        };
        proof {
            assert(nn_view(copy) == nn_view(src@[i as int]));
        }
        dst.push(copy);
        i += 1;
    }
    proof {
        let lhs = nn_events_view(dst@);
        let rhs = nn_events_view(old(dst)@) + nn_events_view(src@);
        assert forall|k: int| 0 <= k < lhs.len() implies lhs[k] == rhs[k] by {
            if k < base_len {
                assert(nn_view(dst@[k]) == nn_view(old(dst)@[k]));
            } else {
                assert(nn_view(dst@[base_len + (k - base_len)]) == nn_view(
                    src@[k - base_len],
                ));
            }
        }
        assert(lhs =~= rhs);
    }
}


/// Law: the empty state is an identity for the next-node combine up to
/// finalize equivalence — its empty event list adds nothing on either side,
/// and by `combine`'s contract an unconfigured state passes the other
/// side's direction, base and step count through.
pub proof fn lemma_nn_combine_identity(
    events: Seq<NextNodeEventView>,
    direction: Option<Direction>,
    base: Option<Base>,
    num_steps: int,
)
    ensures
        spec_nn_finalize(Seq::<NextNodeEventView>::empty() + events, direction, base, num_steps)
            == spec_nn_finalize(events, direction, base, num_steps),
        spec_nn_finalize(events + Seq::<NextNodeEventView>::empty(), direction, base, num_steps)
            == spec_nn_finalize(events, direction, base, num_steps),
{
    assert(Seq::<NextNodeEventView>::empty() + events =~= events);
    assert(events + Seq::<NextNodeEventView>::empty() =~= events);
}

} // verus!
