//! Sessionize aggregation cores.
//!
//! A session is a maximal run of timestamps whose consecutive gaps are at
//! most a threshold; a gap strictly greater than the threshold starts a new
//! session.  The state keeps only four scalars (earliest timestamp, latest
//! timestamp, a counter, the threshold), so two adjacent segments combine in
//! O(1): only the gap across the seam must be examined.  That makes the core
//! fit a segment-tree window evaluator, which needs an associative combine.
//!
//! [`SessionizeState`] counts sessions per segment; [`SessionizeBoundaryState`]
//! counts boundaries (gaps over the threshold) instead, which is the form
//! whose combine is associative for any tree shape, and carries a flag for
//! rows whose timestamp the host found missing.

use vstd::prelude::*;

verus! {

/// State counting whole sessions per segment.
#[derive(Debug, Clone, Copy, PartialEq, Eq, Structural)]
pub struct SessionizeState {
    /// Earliest timestamp seen, microseconds since the epoch.
    pub first_ts: Option<i64>,
    /// Latest timestamp seen, microseconds since the epoch.
    pub last_ts: Option<i64>,
    /// Number of sessions in this segment; 1 as soon as one row is seen.
    pub session_count: i64,
    /// Gap threshold in microseconds.
    pub threshold_us: i64,
}

/// What `SessionizeState::update` computes.
pub open spec fn spec_sessionize_update(s: SessionizeState, ts: i64) -> SessionizeState {
    match s.last_ts {
        None => SessionizeState {
            first_ts: Some(ts),
            last_ts: Some(ts),
            session_count: 1,
            threshold_us: s.threshold_us,
        },
        Some(prev) => SessionizeState {
            first_ts: match s.first_ts {
                Some(f) => Some(if ts < f {
                    ts
                } else {
                    f
                }),
                None => None,
            },
            last_ts: Some(
                if ts > prev {
                    ts
                } else {
                    prev
                },
            ),
            session_count: (s.session_count + if ts - prev > s.threshold_us {
                1int
            } else {
                0int
            }) as i64,
            threshold_us: s.threshold_us,
        },
    }
}

/// What `SessionizeState::combine` computes.
pub open spec fn spec_sessionize_combine(a: SessionizeState, b: SessionizeState) -> SessionizeState {
    match (a.first_ts, b.first_ts) {
        (None, _) => b,
        (_, None) => a,
        (Some(_), Some(b_first)) => SessionizeState {
            first_ts: a.first_ts,
            last_ts: match b.last_ts {
                Some(l) => Some(l),
                None => a.last_ts,
            },
            session_count: (a.session_count + b.session_count + match a.last_ts {
                Some(a_last) => if b_first - a_last > a.threshold_us {
                    1int
                } else {
                    0int
                },
                None => 0int,
            }) as i64,
            threshold_us: a.threshold_us,
        },
    }
}

impl SessionizeState {
    /// Creates the empty state: no timestamps, no sessions, threshold zero.
    pub fn new() -> (r: SessionizeState)
        ensures
            r == (SessionizeState {
                first_ts: None,
                last_ts: None,
                session_count: 0i64,
                threshold_us: 0i64,
            }),
    {
        SessionizeState { first_ts: None, last_ts: None, session_count: 0, threshold_us: 0 }
    }

    /// Feeds one timestamp: the first row opens the first session, and a gap
    /// strictly greater than the threshold opens another.
    pub fn update(&mut self, timestamp_us: i64)
        requires
            old(self).session_count < i64::MAX,
        ensures
            *final(self) == spec_sessionize_update(*old(self), timestamp_us),
    {
        match self.last_ts {
            None => {
                self.first_ts = Some(timestamp_us);
                self.last_ts = Some(timestamp_us);
                self.session_count = 1;
            },
            Some(prev) => {
                if (timestamp_us as i128) - (prev as i128) > (self.threshold_us as i128) {
                    self.session_count = self.session_count + 1;
                }
                if timestamp_us > prev {
                    self.last_ts = Some(timestamp_us);
                }
                if let Some(first) = self.first_ts {
                    if timestamp_us < first {
                        self.first_ts = Some(timestamp_us);
                    }
                }
            },
        }
    }

    /// Combines two adjacent ordered segments in O(1): the counts add, plus
    /// one if the gap across the seam exceeds the threshold.
    pub fn combine(&self, other: &SessionizeState) -> (r: SessionizeState)
        requires
            i64::MIN <= self.session_count + other.session_count,
            self.session_count + other.session_count + 1 <= i64::MAX,
        ensures
            r == spec_sessionize_combine(*self, *other),
    {
        match (self.first_ts, other.first_ts) {
            (None, _) => *other,
            (_, None) => *self,
            (Some(_), Some(other_first)) => {
                let boundary: i64 = match self.last_ts {
                    Some(self_last) => {
                        if (other_first as i128) - (self_last as i128) > (
                        self.threshold_us as i128) {
                            1
                        } else {
                            0
                        }
                    },
                    None => 0,
                };
                SessionizeState {
                    first_ts: self.first_ts,
                    last_ts: match other.last_ts {
                        Some(l) => Some(l),
                        None => self.last_ts,
                    },
                    session_count: self.session_count + other.session_count + boundary,
                    threshold_us: self.threshold_us,
                }
            },
        }
    }

    /// The session count is the result: the session id of the last row when
    /// evaluated over a frame ending at the current row.
    pub fn finalize(&self) -> (r: i64)
        ensures
            r == self.session_count,
    {
        self.session_count
    }
}

impl Default for SessionizeState {
    /// The default state is the empty state.
    fn default() -> (r: SessionizeState)
        ensures
            r == (SessionizeState {
                first_ts: None,
                last_ts: None,
                session_count: 0i64,
                threshold_us: 0i64,
            }),
    {
        SessionizeState { first_ts: None, last_ts: None, session_count: 0, threshold_us: 0 }
    }
}

/// State counting session boundaries per segment, with a flag for rows whose
/// timestamp the host found missing.
#[derive(Debug, Clone, Copy, PartialEq, Eq, Structural)]
pub struct SessionizeBoundaryState {
    /// Earliest timestamp seen, microseconds since the epoch.
    pub first_ts: Option<i64>,
    /// Latest timestamp seen, microseconds since the epoch.
    pub last_ts: Option<i64>,
    /// Number of gaps strictly greater than the threshold in this segment.
    pub boundaries: i64,
    /// Gap threshold in microseconds.
    pub threshold_us: i64,
    /// Whether the rightmost row of this segment had no timestamp.
    pub current_row_null: bool,
}

/// A boundary state is well formed when its two timestamps are present
/// together, ordered, and its boundary count is not negative.
pub open spec fn boundary_wf(s: SessionizeBoundaryState) -> bool {
    &&& s.first_ts is Some <==> s.last_ts is Some
    &&& match (s.first_ts, s.last_ts) {
        (Some(f), Some(l)) => f <= l,
        _ => true,
    }
    &&& s.boundaries >= 0
}

/// What `SessionizeBoundaryState::update` computes.
pub open spec fn spec_boundary_update(s: SessionizeBoundaryState, ts: i64) -> SessionizeBoundaryState {
    match s.last_ts {
        None => SessionizeBoundaryState {
            first_ts: Some(ts),
            last_ts: Some(ts),
            boundaries: s.boundaries,
            threshold_us: s.threshold_us,
            current_row_null: false,
        },
        Some(prev) => SessionizeBoundaryState {
            first_ts: match s.first_ts {
                Some(f) => Some(if ts < f {
                    ts
                } else {
                    f
                }),
                None => None,
            },
            last_ts: Some(
                if ts > prev {
                    ts
                } else {
                    prev
                },
            ),
            boundaries: (s.boundaries + if ts - prev > s.threshold_us {
                1int
            } else {
                0int
            }) as i64,
            threshold_us: s.threshold_us,
            current_row_null: false,
        },
    }
}

/// What `SessionizeBoundaryState::combine` computes.
pub open spec fn spec_boundary_combine(
    a: SessionizeBoundaryState,
    b: SessionizeBoundaryState,
) -> SessionizeBoundaryState {
    match (a.first_ts, b.first_ts) {
        (None, _) => b,
        (_, None) => SessionizeBoundaryState { current_row_null: b.current_row_null, ..a },
        (Some(_), Some(b_first)) => SessionizeBoundaryState {
            first_ts: a.first_ts,
            last_ts: match b.last_ts {
                Some(l) => Some(l),
                None => a.last_ts,
            },
            boundaries: (a.boundaries + b.boundaries + match a.last_ts {
                Some(a_last) => if b_first - a_last > a.threshold_us {
                    1int
                } else {
                    0int
                },
                None => 0int,
            }) as i64,
            threshold_us: a.threshold_us,
            current_row_null: b.current_row_null,
        },
    }
}

/// What `SessionizeBoundaryState::finalize` computes: boundaries plus one
/// when any row was seen, zero otherwise.
pub open spec fn spec_boundary_finalize(s: SessionizeBoundaryState) -> i64 {
    if s.first_ts is Some {
        (s.boundaries + 1) as i64
    } else {
        0
    }
}

impl SessionizeBoundaryState {
    /// Creates the empty state.
    pub fn new() -> (r: SessionizeBoundaryState)
        ensures
            r == (SessionizeBoundaryState {
                first_ts: None,
                last_ts: None,
                boundaries: 0i64,
                threshold_us: 0i64,
                current_row_null: false,
            }),
    {
        SessionizeBoundaryState {
            first_ts: None,
            last_ts: None,
            boundaries: 0,
            threshold_us: 0,
            current_row_null: false,
        }
    }

    /// Marks the current row as having no timestamp; `finalize`'s caller
    /// then emits a missing value for it.
    pub fn mark_null_row(&mut self)
        ensures
            *final(self) == (SessionizeBoundaryState { current_row_null: true, ..*old(self) }),
    {
        self.current_row_null = true;
    }

    /// Feeds one timestamp; a gap strictly greater than the threshold adds a
    /// boundary.
    pub fn update(&mut self, timestamp_us: i64)
        requires
            old(self).boundaries < i64::MAX,
        ensures
            *final(self) == spec_boundary_update(*old(self), timestamp_us),
    {
        self.current_row_null = false;
        match self.last_ts {
            None => {
                self.first_ts = Some(timestamp_us);
                self.last_ts = Some(timestamp_us);
            },
            Some(prev) => {
                if (timestamp_us as i128) - (prev as i128) > (self.threshold_us as i128) {
                    self.boundaries = self.boundaries + 1;
                }
                if timestamp_us > prev {
                    self.last_ts = Some(timestamp_us);
                }
                if let Some(first) = self.first_ts {
                    if timestamp_us < first {
                        self.first_ts = Some(timestamp_us);
                    }
                }
            },
        }
    }

    /// Combines two adjacent ordered segments in O(1).  An empty left side
    /// yields the right side unchanged, so a zero-initialized combine target
    /// absorbs the threshold from its first non-empty source; the missing-row
    /// flag always comes from the right (later) side.
    pub fn combine(&self, other: &SessionizeBoundaryState) -> (r: SessionizeBoundaryState)
        requires
            i64::MIN <= self.boundaries + other.boundaries,
            self.boundaries + other.boundaries + 1 <= i64::MAX,
        ensures
            r == spec_boundary_combine(*self, *other),
    {
        match (self.first_ts, other.first_ts) {
            (None, _) => *other,
            (_, None) => SessionizeBoundaryState {
                current_row_null: other.current_row_null,
                ..*self
            },
            (Some(_), Some(other_first)) => {
                let cross_boundary: i64 = match self.last_ts {
                    Some(self_last) => {
                        if (other_first as i128) - (self_last as i128) > (
                        self.threshold_us as i128) {
                            1
                        } else {
                            0
                        }
                    },
                    None => 0,
                };
                SessionizeBoundaryState {
                    first_ts: self.first_ts,
                    last_ts: match other.last_ts {
                        Some(l) => Some(l),
                        None => self.last_ts,
                    },
                    boundaries: self.boundaries + other.boundaries + cross_boundary,
                    threshold_us: self.threshold_us,
                    current_row_null: other.current_row_null,
                }
            },
        }
    }

    /// The session id: boundaries plus one for a segment with rows, zero for
    /// an empty one.
    pub fn finalize(&self) -> (r: i64)
        requires
            self.boundaries < i64::MAX,
        ensures
            r == spec_boundary_finalize(*self),
    {
        if self.first_ts.is_some() {
            self.boundaries + 1
        } else {
            0
        }
    }
}

impl Default for SessionizeBoundaryState {
    /// The default state is the empty state.
    fn default() -> (r: SessionizeBoundaryState)
        ensures
            r == (SessionizeBoundaryState {
                first_ts: None,
                last_ts: None,
                boundaries: 0i64,
                threshold_us: 0i64,
                current_row_null: false,
            }),
    {
        SessionizeBoundaryState {
            first_ts: None,
            last_ts: None,
            boundaries: 0,
            threshold_us: 0,
            current_row_null: false,
        }
    }
}

/// Law: the boundary-state combine is associative for any tree shape, for
/// well-formed states that agree on the threshold wherever they are
/// non-empty, and whose boundary counts fit when added.
pub proof fn lemma_boundary_combine_associative(
    a: SessionizeBoundaryState,
    b: SessionizeBoundaryState,
    c: SessionizeBoundaryState,
)
    requires
        boundary_wf(a),
        boundary_wf(b),
        boundary_wf(c),
        a.first_ts is Some && b.first_ts is Some ==> a.threshold_us == b.threshold_us,
        b.first_ts is Some && c.first_ts is Some ==> b.threshold_us == c.threshold_us,
        a.boundaries + b.boundaries + c.boundaries + 2 <= i64::MAX,
    ensures
        spec_boundary_combine(spec_boundary_combine(a, b), c) == spec_boundary_combine(
            a,
            spec_boundary_combine(b, c),
        ),
{
}

/// Law: the empty state is an identity for the boundary-state combine — on
/// the left exactly, and on the right up to finalize equivalence (the
/// missing-row flag, which finalize ignores, is adopted from the right).
pub proof fn lemma_boundary_combine_identity(x: SessionizeBoundaryState)
    ensures
        spec_boundary_combine(
            SessionizeBoundaryState {
                first_ts: None,
                last_ts: None,
                boundaries: 0i64,
                threshold_us: 0i64,
                current_row_null: false,
            },
            x,
        ) == x,
        spec_boundary_finalize(
            spec_boundary_combine(
                x,
                SessionizeBoundaryState {
                    first_ts: None,
                    last_ts: None,
                    boundaries: 0i64,
                    threshold_us: 0i64,
                    current_row_null: false,
                },
            ),
        ) == spec_boundary_finalize(x),
{
}

/// Law: the empty state is an identity for the session-count combine — on
/// the left exactly, and on the right up to finalize equivalence, for any
/// state whose counter is zero while it has no timestamps.
pub proof fn lemma_sessionize_combine_identity(x: SessionizeState)
    requires
        x.first_ts is None ==> x.session_count == 0,
    ensures
        spec_sessionize_combine(
            SessionizeState {
                first_ts: None,
                last_ts: None,
                session_count: 0i64,
                threshold_us: 0i64,
            },
            x,
        ) == x,
        spec_sessionize_combine(
            x,
            SessionizeState {
                first_ts: None,
                last_ts: None,
                session_count: 0i64,
                threshold_us: 0i64,
            },
        ).session_count == x.session_count,
{
}


/// Law: an empty segment finalizes to 0, and a segment holding a single
/// timestamp finalizes to 1, whatever the threshold.
pub proof fn lemma_boundary_single_event(threshold: i64, ts: i64)
    ensures
        spec_boundary_finalize(
            SessionizeBoundaryState {
                first_ts: None,
                last_ts: None,
                boundaries: 0i64,
                threshold_us: threshold,
                current_row_null: false,
            },
        ) == 0,
        spec_boundary_finalize(
            spec_boundary_update(
                SessionizeBoundaryState {
                    first_ts: None,
                    last_ts: None,
                    boundaries: 0i64,
                    threshold_us: threshold,
                    current_row_null: false,
                },
                ts,
            ),
        ) == 1,
{
}

/// Number of gaps strictly greater than `threshold` between consecutive
/// entries of `ts`.
pub open spec fn gap_count(ts: Seq<i64>, threshold: i64) -> int
    decreases ts.len(),
{
    if ts.len() <= 1 {
        0
    } else {
        gap_count(ts.drop_last(), threshold) + if ts[ts.len() - 1] - ts[ts.len() - 2] > threshold {
            1int
        } else {
            0int
        }
    }
}

/// The boundary state after feeding every entry of `ts`, in order, to
/// `update` starting from `start`.
pub open spec fn boundary_state_after(
    start: SessionizeBoundaryState,
    ts: Seq<i64>,
) -> SessionizeBoundaryState
    decreases ts.len(),
{
    if ts.len() == 0 {
        start
    } else {
        spec_boundary_update(boundary_state_after(start, ts.drop_last()), ts.last())
    }
}

/// Law: feeding a non-decreasing chain of timestamps into a fresh state with
/// threshold `threshold` yields a finalize value of 1 plus the number of
/// consecutive gaps strictly greater than the threshold; an empty chain
/// yields 0.
pub proof fn lemma_boundary_chain(ts: Seq<i64>, threshold: i64)
    requires
        forall|i: int, j: int| 0 <= i < j < ts.len() ==> ts[i] <= ts[j],
        ts.len() < 0x7fff_ffff_ffff_ffff,
    ensures
        spec_boundary_finalize(
            boundary_state_after(
                SessionizeBoundaryState {
                    first_ts: None,
                    last_ts: None,
                    boundaries: 0i64,
                    threshold_us: threshold,
                    current_row_null: false,
                },
                ts,
            ),
        ) == if ts.len() == 0 {
            0int
        } else {
            1 + gap_count(ts, threshold)
        },
{
    lemma_boundary_chain_state(ts, threshold);
}

/// Induction behind [`lemma_boundary_chain`]: the state after a sorted chain
/// has its endpoints at the chain's ends and its boundary count equal to the
/// number of over-threshold gaps.
proof fn lemma_boundary_chain_state(ts: Seq<i64>, threshold: i64)
    requires
        forall|i: int, j: int| 0 <= i < j < ts.len() ==> ts[i] <= ts[j],
        ts.len() < 0x7fff_ffff_ffff_ffff,
    ensures
        ts.len() == 0 ==> boundary_state_after(
            SessionizeBoundaryState {
                first_ts: None,
                last_ts: None,
                boundaries: 0i64,
                threshold_us: threshold,
                current_row_null: false,
            },
            ts,
        ) == (SessionizeBoundaryState {
            first_ts: None,
            last_ts: None,
            boundaries: 0i64,
            threshold_us: threshold,
            current_row_null: false,
        }),
        ts.len() > 0 ==> boundary_state_after(
            SessionizeBoundaryState {
                first_ts: None,
                last_ts: None,
                boundaries: 0i64,
                threshold_us: threshold,
                current_row_null: false,
            },
            ts,
        ) == (SessionizeBoundaryState {
            first_ts: Some(ts[0]),
            last_ts: Some(ts[ts.len() - 1]),
            boundaries: gap_count(ts, threshold) as i64,
            threshold_us: threshold,
            current_row_null: false,
        }),
        0 <= gap_count(ts, threshold) <= ts.len(),
    decreases ts.len(),
{
    if ts.len() > 0 {
        let front = ts.drop_last();
        lemma_boundary_chain_state(front, threshold);
        if front.len() > 0 {
            assert(front[0] == ts[0]);
            assert(front[front.len() - 1] == ts[ts.len() - 2]);
            // the last element is the largest, so it neither lowers the
            // minimum nor fails to be the new maximum
            assert(ts[ts.len() - 2] <= ts[ts.len() - 1]);
            assert(ts[0] <= ts[ts.len() - 1]);
        }
    }
}

} // verus!
