//! Conversion-funnel aggregation core.
//!
//! The funnel looks for the longest chain of events satisfying condition 0,
//! then 1, then 2, …, all within a time window of the chain's first event.
//! Six mode flags, freely combinable, each add an independent constraint to
//! the forward scan.  `finalize` sorts the collected events, scans forward
//! from every event satisfying condition 0, and reports the best step count
//! reached, a value between 0 and the number of conditions.

use vstd::prelude::*;
use crate::event::{Event, cond_bit, sort_events, sort_events_by_ts, lemma_sort_events_by_ts_ensures,
    lemma_sort_events_by_ts_id, lemma_cond_bit_set};
use crate::text::{spec_trim, is_ws_char, str_eq, substr_eq, is_ws_exec, spec_trim_start,
    spec_trim_end};

verus! {

/// Funnel mode: a bitmask of independent constraints on the forward scan.
#[derive(Debug, Clone, Copy, PartialEq, Eq, Structural, Default)]
pub struct FunnelMode(pub u8);

/// Bit of the strict constraint.
pub const MODE_STRICT: u8 = 0x01;

/// Bit of the strict-order constraint.
pub const MODE_STRICT_ORDER: u8 = 0x02;

/// Bit of the strict-deduplication constraint.
pub const MODE_STRICT_DEDUPLICATION: u8 = 0x04;

/// Bit of the strict-increase constraint.
pub const MODE_STRICT_INCREASE: u8 = 0x08;

/// Bit of the strict-once constraint.
pub const MODE_STRICT_ONCE: u8 = 0x10;

/// Bit of the allow-reentry behavior.
pub const MODE_ALLOW_REENTRY: u8 = 0x20;

/// Flag `f` is set in mode `m`.
pub open spec fn mode_has(m: u8, f: u8) -> bool {
    m & f == f
}

impl FunnelMode {
    /// No constraint: the plain greedy scan.
    pub fn default_mode() -> (r: FunnelMode)
        ensures
            r.0 == 0,
    {
        FunnelMode(0)
    }

    /// When condition `i` fires again before condition `i+1`, the chain
    /// breaks.
    pub fn strict() -> (r: FunnelMode)
        ensures
            r.0 == MODE_STRICT,
    {
        FunnelMode(MODE_STRICT)
    }

    /// Conditions must fire in exact sequential order, with no earlier
    /// condition reappearing in between.
    pub fn strict_order() -> (r: FunnelMode)
        ensures
            r.0 == MODE_STRICT_ORDER,
    {
        FunnelMode(MODE_STRICT_ORDER)
    }

    /// Events sharing a timestamp count only once per condition.
    pub fn strict_deduplication() -> (r: FunnelMode)
        ensures
            r.0 == MODE_STRICT_DEDUPLICATION,
    {
        FunnelMode(MODE_STRICT_DEDUPLICATION)
    }

    /// Matched steps need strictly increasing timestamps.
    pub fn strict_increase() -> (r: FunnelMode)
        ensures
            r.0 == MODE_STRICT_INCREASE,
    {
        FunnelMode(MODE_STRICT_INCREASE)
    }

    /// Each event advances the funnel by at most one step.
    pub fn strict_once() -> (r: FunnelMode)
        ensures
            r.0 == MODE_STRICT_ONCE,
    {
        FunnelMode(MODE_STRICT_ONCE)
    }

    /// A fresh firing of the entry condition restarts the chain there.
    pub fn allow_reentry() -> (r: FunnelMode)
        ensures
            r.0 == MODE_ALLOW_REENTRY,
    {
        FunnelMode(MODE_ALLOW_REENTRY)
    }

    /// Builds a mode from a raw bitmask.
    pub fn from_bits(bits: u8) -> (r: FunnelMode)
        ensures
            r.0 == bits,
    {
        FunnelMode(bits)
    }

    /// The raw bitmask.
    pub fn bits(self) -> (r: u8)
        ensures
            r == self.0,
    {
        self.0
    }

    /// True when every bit of `flag` is set in this mode.
    pub fn has(self, flag: FunnelMode) -> (r: bool)
        ensures
            r == mode_has(self.0, flag.0),
    {
        self.0 & flag.0 == flag.0
    }

    /// This mode with `flag`'s bits added.
    pub fn with(self, flag: FunnelMode) -> (r: FunnelMode)
        ensures
            r.0 == (self.0 | flag.0),
    {
        FunnelMode(self.0 | flag.0)
    }

    /// True when no flag is set.
    pub fn is_default(self) -> (r: bool)
        ensures
            r == (self.0 == 0),
    {
        self.0 == 0
    }
}

/// State of one group's funnel aggregation.
#[derive(Debug, Clone)]
pub struct WindowFunnelState {
    /// Collected events, in arrival order until `finalize` sorts them.
    pub events: Vec<Event>,
    /// Window size in microseconds, measured from the chain's first event.
    pub window_size_us: i64,
    /// Number of funnel steps.
    pub num_conditions: usize,
    /// The active mode flags.
    pub mode: FunnelMode,
}

/// How far one event can advance the funnel: while the bit of the current
/// step is set, the step advances, stopping at the last step, or after one
/// advance under strict-once.
pub open spec fn spec_advance(conds: u32, step: int, n: int, once: bool) -> int
    decreases n - step,
    when step <= n
{
    if step < n && cond_bit(conds, step) {
        if step + 1 >= n {
            n
        } else if once {
            step + 1
        } else {
            spec_advance(conds, step + 1, n, once)
        }
    } else {
        step
    }
}

/// An earlier condition than `step` fires on this event.
pub open spec fn earlier_condition_fires(conds: u32, step: int) -> bool {
    exists|k: int| 0 <= k < step && cond_bit(conds, k)
}

/// The forward scan from position `j`, having reached `step` with the last
/// matched step at `prev_ts`, within `window` of `entry_ts`: the step count
/// reached before the window closes, a mode constraint ends the chain, or
/// the events run out.
pub open spec fn spec_scan(
    events: Seq<Event>,
    j: int,
    entry_ts: int,
    step: int,
    prev_ts: int,
    window: int,
    n: int,
    mode: u8,
) -> int
    decreases events.len() - j,
    when step <= n
{
    if j >= events.len() {
        step
    } else {
        let e = events[j];
        if e.timestamp_us - entry_ts > window {
            step
        } else if mode_has(mode, MODE_ALLOW_REENTRY) && step > 1 && cond_bit(e.conditions, 0) {
            spec_scan(events, j + 1, entry_ts, 1, e.timestamp_us as int, window, n, mode)
        } else if mode_has(mode, MODE_STRICT) && step > 0 && cond_bit(e.conditions, step - 1)
            && !cond_bit(e.conditions, step) {
            step
        } else if mode_has(mode, MODE_STRICT_ORDER) && earlier_condition_fires(e.conditions, step) {
            step
        } else if mode_has(mode, MODE_STRICT_DEDUPLICATION) && e.timestamp_us == prev_ts
            && cond_bit(e.conditions, step) {
            spec_scan(events, j + 1, entry_ts, step, prev_ts, window, n, mode)
        } else if mode_has(mode, MODE_STRICT_INCREASE) && cond_bit(e.conditions, step)
            && e.timestamp_us <= prev_ts {
            spec_scan(events, j + 1, entry_ts, step, prev_ts, window, n, mode)
        } else {
            let s2 = spec_advance(e.conditions, step, n, mode_has(mode, MODE_STRICT_ONCE));
            if s2 >= n {
                n
            } else if s2 > step {
                spec_scan(events, j + 1, entry_ts, s2, e.timestamp_us as int, window, n, mode)
            } else {
                spec_scan(events, j + 1, entry_ts, step, prev_ts, window, n, mode)
            }
        }
    }
}

/// The advance never moves backwards and never passes the last step.
pub proof fn lemma_spec_advance_bounds(conds: u32, step: int, n: int, once: bool)
    requires
        step <= n,
    ensures
        step <= spec_advance(conds, step, n, once) <= n,
    decreases n - step,
{
    if step < n && cond_bit(conds, step) && step + 1 < n && !once {
        lemma_spec_advance_bounds(conds, step + 1, n, once);
    }
}

/// The scan's result lies between 1 and the step count, whenever it starts
/// in that range.
pub proof fn lemma_spec_scan_bounds(
    events: Seq<Event>,
    j: int,
    entry_ts: int,
    step: int,
    prev_ts: int,
    window: int,
    n: int,
    mode: u8,
)
    requires
        1 <= step <= n,
    ensures
        1 <= spec_scan(events, j, entry_ts, step, prev_ts, window, n, mode) <= n,
    decreases events.len() - j,
{
    if j < events.len() {
        let e = events[j];
        if e.timestamp_us - entry_ts > window {
        } else if mode_has(mode, MODE_ALLOW_REENTRY) && step > 1 && cond_bit(e.conditions, 0) {
            lemma_spec_scan_bounds(events, j + 1, entry_ts, 1, e.timestamp_us as int, window, n, mode);
        } else if mode_has(mode, MODE_STRICT) && step > 0 && cond_bit(e.conditions, step - 1)
            && !cond_bit(e.conditions, step) {
        } else if mode_has(mode, MODE_STRICT_ORDER) && earlier_condition_fires(
            e.conditions,
            step,
        ) {
        } else if mode_has(mode, MODE_STRICT_DEDUPLICATION) && e.timestamp_us == prev_ts
            && cond_bit(e.conditions, step) {
            lemma_spec_scan_bounds(events, j + 1, entry_ts, step, prev_ts, window, n, mode);
        } else if mode_has(mode, MODE_STRICT_INCREASE) && cond_bit(e.conditions, step)
            && e.timestamp_us <= prev_ts {
            lemma_spec_scan_bounds(events, j + 1, entry_ts, step, prev_ts, window, n, mode);
        } else {
            let s2 = spec_advance(e.conditions, step, n, mode_has(mode, MODE_STRICT_ONCE));
            lemma_spec_advance_bounds(e.conditions, step, n, mode_has(mode, MODE_STRICT_ONCE));
            if s2 >= n {
            } else if s2 > step {
                lemma_spec_scan_bounds(events, j + 1, entry_ts, s2, e.timestamp_us as int, window, n, mode);
            } else {
                lemma_spec_scan_bounds(events, j + 1, entry_ts, step, prev_ts, window, n, mode);
            }
        }
    }
}

/// The best step count over every funnel entry at or after position `i`:
/// an event with condition 0 starts a scan, and the maximum wins.
pub open spec fn spec_funnel_best(events: Seq<Event>, i: int, window: int, n: int, mode: u8) -> int
    decreases events.len() - i,
    when n >= 1
{
    if i >= events.len() {
        0
    } else {
        let rest = spec_funnel_best(events, i + 1, window, n, mode);
        if cond_bit(events[i].conditions, 0) {
            let s = spec_scan(
                events,
                i + 1,
                events[i].timestamp_us as int,
                1,
                events[i].timestamp_us as int,
                window,
                n,
                mode,
            );
            if s >= rest {
                s
            } else {
                rest
            }
        } else {
            rest
        }
    }
}

/// The best step count never exceeds the number of steps.
pub proof fn lemma_spec_funnel_best_bounds(
    events: Seq<Event>,
    i: int,
    window: int,
    n: int,
    mode: u8,
)
    requires
        n >= 1,
    ensures
        0 <= spec_funnel_best(events, i, window, n, mode) <= n,
    decreases events.len() - i,
{
    if i < events.len() {
        lemma_spec_funnel_best_bounds(events, i + 1, window, n, mode);
        if cond_bit(events[i].conditions, 0) {
            lemma_spec_scan_bounds(
                events,
                i + 1,
                events[i].timestamp_us as int,
                1,
                events[i].timestamp_us as int,
                window,
                n,
                mode,
            );
        }
    }
}

/// What `finalize` computes: zero without events or steps, else the best
/// scan over the sorted events.
pub open spec fn spec_funnel_finalize(
    events: Seq<Event>,
    window: int,
    n: int,
    mode: u8,
) -> int {
    if events.len() == 0 || n == 0 {
        0
    } else {
        spec_funnel_best(sort_events_by_ts(events), 0, window, n, mode)
    }
}

impl WindowFunnelState {
    /// Creates the empty state.
    pub fn new() -> (r: WindowFunnelState)
        ensures
            r.events@ == Seq::<Event>::empty(),
            r.window_size_us == 0,
            r.num_conditions == 0,
            r.mode.0 == 0,
    {
        WindowFunnelState {
            events: Vec::new(),
            window_size_us: 0,
            num_conditions: 0,
            mode: FunnelMode(0),
        }
    }

    /// Adds an event and records the step count; rows on which no condition
    /// held are dropped, since they can match no step.
    pub fn update(&mut self, event: Event, num_conditions: usize)
        ensures
            final(self).events@ == if event.conditions != 0 {
                old(self).events@.push(event)
            } else {
                old(self).events@
            },
            final(self).num_conditions == num_conditions,
            final(self).window_size_us == old(self).window_size_us,
            final(self).mode == old(self).mode,
    {
        self.num_conditions = num_conditions;
        if event.has_any_condition() {
            self.events.push(event);
        }
    }

    /// Combines two states into a new one: events concatenate, the larger
    /// step count wins, and window and mode come from whichever side has
    /// them set — so a zero-initialized target absorbs them from its first
    /// configured source.
    pub fn combine(&self, other: &WindowFunnelState) -> (r: WindowFunnelState)
        ensures
            r.events@ == self.events@ + other.events@,
            r.window_size_us == if self.window_size_us != 0 {
                self.window_size_us
            } else {
                other.window_size_us
            },
            r.mode == if self.mode.0 != 0 {
                self.mode
            } else {
                other.mode
            },
            r.num_conditions == if self.num_conditions >= other.num_conditions {
                self.num_conditions
            } else {
                other.num_conditions
            },
    {
        let mut events: Vec<Event> = Vec::new();
        push_all_events(&mut events, &self.events);
        push_all_events(&mut events, &other.events);
        WindowFunnelState {
            events,
            window_size_us: if self.window_size_us != 0 {
                self.window_size_us
            } else {
                other.window_size_us
            },
            num_conditions: if self.num_conditions >= other.num_conditions {
                self.num_conditions
            } else {
                other.num_conditions
            },
            mode: if self.mode.0 != 0 {
                self.mode
            } else {
                other.mode
            },
        }
    }

    /// Appends another state's events into `self`, with the same window,
    /// mode and step-count propagation as `combine`.
    pub fn combine_in_place(&mut self, other: &WindowFunnelState)
        ensures
            final(self).events@ == old(self).events@ + other.events@,
            final(self).window_size_us == if old(self).window_size_us != 0 {
                old(self).window_size_us
            } else {
                other.window_size_us
            },
            final(self).mode == if old(self).mode.0 != 0 {
                old(self).mode
            } else {
                other.mode
            },
            final(self).num_conditions == if old(self).num_conditions >= other.num_conditions {
                old(self).num_conditions
            } else {
                other.num_conditions
            },
    {
        push_all_events(&mut self.events, &other.events);
        if self.num_conditions < other.num_conditions {
            self.num_conditions = other.num_conditions;
        }
        if self.window_size_us == 0 && other.window_size_us != 0 {
            self.window_size_us = other.window_size_us;
        }
        if self.mode.0 == 0 && other.mode.0 != 0 {
            self.mode = other.mode;
        }
    }

    /// The maximum funnel step reached: the events are sorted, every entry
    /// event is scanned, and the best step count wins — always between 0
    /// and the number of steps.
    pub fn finalize(&mut self) -> (r: i64)
        requires
            old(self).num_conditions <= 0x7fff_ffff_ffff_ffff,
        ensures
            r as int == spec_funnel_finalize(
                old(self).events@,
                old(self).window_size_us as int,
                old(self).num_conditions as int,
                old(self).mode.0,
            ),
            0 <= r <= old(self).num_conditions,
            final(self).events@ == if old(self).events@.len() == 0 || old(self).num_conditions
                == 0 {
                old(self).events@
            } else {
                sort_events_by_ts(old(self).events@)
            },
            final(self).window_size_us == old(self).window_size_us,
            final(self).num_conditions == old(self).num_conditions,
            final(self).mode == old(self).mode,
    {
        if self.events.len() == 0 || self.num_conditions == 0 {
            return 0;
        }
        proof {
            lemma_sort_events_by_ts_ensures(self.events@);
        }
        sort_events(&mut self.events);
        let ghost sorted = self.events@;
        let n = self.events.len();
        let mut max_step: usize = 0;
        let mut i: usize = 0;
        proof {
            lemma_spec_funnel_best_bounds(
                sorted,
                0,
                self.window_size_us as int,
                self.num_conditions as int,
                self.mode.0,
            );
        }
        while i < n
            invariant
                i <= n,
                n == self.events@.len(),
                self.events@ == sorted,
                sorted == sort_events_by_ts(old(self).events@),
                self.window_size_us == old(self).window_size_us,
                self.num_conditions == old(self).num_conditions,
                self.mode == old(self).mode,
                self.num_conditions >= 1,
                self.num_conditions <= 0x7fff_ffff_ffff_ffff,
                max_step <= self.num_conditions,
                spec_funnel_best(
                    sorted,
                    0,
                    self.window_size_us as int,
                    self.num_conditions as int,
                    self.mode.0,
                ) == ({
                    let rest = spec_funnel_best(
                        sorted,
                        i as int,
                        self.window_size_us as int,
                        self.num_conditions as int,
                        self.mode.0,
                    );
                    if max_step >= rest {
                        max_step as int
                    } else {
                        rest
                    }
                }),
            decreases n - i,
        {
            let ghost oi = i as int;
            let ghost window = self.window_size_us as int;
            let ghost nn = self.num_conditions as int;
            let ghost mode = self.mode.0;
            proof {
                lemma_spec_funnel_best_bounds(sorted, oi + 1, window, nn, mode);
            }
            if self.events[i].condition(0) {
                let entry_ts = self.events[i].timestamp_us;
                let step = self.scan_funnel(i, entry_ts);
                proof {
                    lemma_spec_scan_bounds(
                        sorted,
                        oi + 1,
                        entry_ts as int,
                        1,
                        entry_ts as int,
                        window,
                        nn,
                        mode,
                    );
                    assert(spec_funnel_best(sorted, oi, window, nn, mode) == ({
                        let rest = spec_funnel_best(sorted, oi + 1, window, nn, mode);
                        if step as int >= rest {
                            step as int
                        } else {
                            rest
                        }
                    }));
                }
                if step > max_step {
                    max_step = step;
                }
                if max_step == self.num_conditions {
                    return max_step as i64;
                }
            } else {
                proof {
                    assert(spec_funnel_best(sorted, oi, window, nn, mode) == spec_funnel_best(
                        sorted,
                        oi + 1,
                        window,
                        nn,
                        mode,
                    ));
                }
            }
            i += 1;
        }
        max_step as i64
    }

    /// Scans forward from the entry at `start_idx`, applying the mode
    /// constraints, and reports the step count reached.
    fn scan_funnel(&self, start_idx: usize, entry_ts: i64) -> (r: usize)
        requires
            start_idx < self.events@.len(),
            1 <= self.num_conditions,
            entry_ts == self.events@[start_idx as int].timestamp_us,
        ensures
            r as int == spec_scan(
                self.events@,
                start_idx + 1,
                entry_ts as int,
                1,
                entry_ts as int,
                self.window_size_us as int,
                self.num_conditions as int,
                self.mode.0,
            ),
            r <= self.num_conditions,
    {
        let ghost events = self.events@;
        let ghost window = self.window_size_us as int;
        let ghost nn = self.num_conditions as int;
        let ghost mode = self.mode.0;
        let num_events = self.events.len();
        proof {
            lemma_spec_scan_bounds(
                events,
                start_idx + 1,
                entry_ts as int,
                1,
                entry_ts as int,
                window,
                nn,
                mode,
            );
        }
        if self.num_conditions == 1 {
            // with a single step the entry event already completes the
            // funnel, and the scan can end nowhere else
            return 1;
        }
        let mut current_step: usize = 1;
        let mut prev_matched_ts = entry_ts;
        let mut j = start_idx + 1;
        while j < self.events.len()
            invariant
                start_idx < j <= self.events@.len(),
                events == self.events@,
                window == self.window_size_us as int,
                nn == self.num_conditions as int,
                mode == self.mode.0,
                nn >= 2,
                1 <= current_step < nn,
                spec_scan(
                    events,
                    start_idx + 1,
                    entry_ts as int,
                    1,
                    entry_ts as int,
                    window,
                    nn,
                    mode,
                ) == spec_scan(
                    events,
                    j as int,
                    entry_ts as int,
                    current_step as int,
                    prev_matched_ts as int,
                    window,
                    nn,
                    mode,
                ),
            decreases self.events@.len() - j,
        {
            let ghost oj = j as int;
            let ghost ostep = current_step as int;
            let ghost oprev = prev_matched_ts as int;
            let event = self.events[j];
            if (event.timestamp_us as i128) - (entry_ts as i128) > (self.window_size_us as i128) {
                proof {
                    assert(spec_scan(events, oj, entry_ts as int, ostep, oprev, window, nn, mode)
                        == ostep);
                }
                return current_step;
            }
            if self.mode.has(FunnelMode::allow_reentry()) && current_step > 1 && event.condition(0) {
                current_step = 1;
                prev_matched_ts = event.timestamp_us;
                proof {
                    assert(spec_scan(events, oj, entry_ts as int, ostep, oprev, window, nn, mode)
                        == spec_scan(
                        events,
                        oj + 1,
                        entry_ts as int,
                        1,
                        event.timestamp_us as int,
                        window,
                        nn,
                        mode,
                    ));
                }
                j += 1;
                continue ;
            }
            if self.mode.has(FunnelMode::strict()) && current_step > 0 && event.condition(
                current_step - 1,
            ) && !event.condition(current_step) {
                proof {
                    assert(spec_scan(events, oj, entry_ts as int, ostep, oprev, window, nn, mode)
                        == ostep);
                }
                return current_step;
            }
            if self.mode.has(FunnelMode::strict_order()) && any_condition_below(
                &event,
                current_step,
            ) {
                proof {
                    assert(spec_scan(events, oj, entry_ts as int, ostep, oprev, window, nn, mode)
                        == ostep);
                }
                return current_step;
            }
            if self.mode.has(FunnelMode::strict_deduplication()) && event.timestamp_us
                == prev_matched_ts && event.condition(current_step) {
                proof {
                    assert(spec_scan(events, oj, entry_ts as int, ostep, oprev, window, nn, mode)
                        == spec_scan(
                        events,
                        oj + 1,
                        entry_ts as int,
                        ostep,
                        oprev,
                        window,
                        nn,
                        mode,
                    ));
                }
                j += 1;
                continue ;
            }
            if self.mode.has(FunnelMode::strict_increase()) && event.condition(current_step)
                && event.timestamp_us <= prev_matched_ts {
                proof {
                    assert(spec_scan(events, oj, entry_ts as int, ostep, oprev, window, nn, mode)
                        == spec_scan(
                        events,
                        oj + 1,
                        entry_ts as int,
                        ostep,
                        oprev,
                        window,
                        nn,
                        mode,
                    ));
                }
                j += 1;
                continue ;
            }
            // greedy advance: the event may satisfy several steps in a row
            let once = self.mode.has(FunnelMode::strict_once());
            if once {
                if event.condition(current_step) {
                    current_step += 1;
                    prev_matched_ts = event.timestamp_us;
                    if current_step >= self.num_conditions {
                        proof {
                            assert(spec_advance(event.conditions, ostep, nn, true) == nn);
                            assert(spec_scan(
                                events,
                                oj,
                                entry_ts as int,
                                ostep,
                                oprev,
                                window,
                                nn,
                                mode,
                            ) == nn);
                        }
                        return self.num_conditions;
                    }
                }
            } else {
                proof {
                    // record how the scan unfolds at this event before
                    // entering the advance loop, whose body cannot see the
                    // checks made above
                    let s2x = spec_advance(event.conditions, ostep, nn, false);
                    assert(spec_scan(events, oj, entry_ts as int, ostep, oprev, window, nn, mode)
                        == (if s2x >= nn {
                        nn
                    } else if s2x > ostep {
                        spec_scan(
                            events,
                            oj + 1,
                            entry_ts as int,
                            s2x,
                            event.timestamp_us as int,
                            window,
                            nn,
                            mode,
                        )
                    } else {
                        spec_scan(
                            events,
                            oj + 1,
                            entry_ts as int,
                            ostep,
                            oprev,
                            window,
                            nn,
                            mode,
                        )
                    }));
                }
                while event.condition(current_step)
                    invariant
                        ostep <= current_step < nn,
                        nn == self.num_conditions as int,
                        events == self.events@,
                        mode == self.mode.0,
                        window == self.window_size_us as int,
                        spec_scan(
                            events,
                            start_idx + 1,
                            entry_ts as int,
                            1,
                            entry_ts as int,
                            window,
                            nn,
                            mode,
                        ) == spec_scan(
                            events,
                            oj,
                            entry_ts as int,
                            ostep,
                            oprev,
                            window,
                            nn,
                            mode,
                        ),
                        spec_advance(event.conditions, ostep, nn, false) == spec_advance(
                            event.conditions,
                            current_step as int,
                            nn,
                            false,
                        ),
                        prev_matched_ts as int == if current_step > ostep {
                            event.timestamp_us as int
                        } else {
                            oprev
                        },
                        spec_scan(events, oj, entry_ts as int, ostep, oprev, window, nn, mode)
                            == (({
                            let s2x = spec_advance(event.conditions, ostep, nn, false);
                            if s2x >= nn {
                                nn
                            } else if s2x > ostep {
                                spec_scan(
                                    events,
                                    oj + 1,
                                    entry_ts as int,
                                    s2x,
                                    event.timestamp_us as int,
                                    window,
                                    nn,
                                    mode,
                                )
                            } else {
                                spec_scan(
                                    events,
                                    oj + 1,
                                    entry_ts as int,
                                    ostep,
                                    oprev,
                                    window,
                                    nn,
                                    mode,
                                )
                            }
                        })),
                    decreases nn - current_step,
                {
                    current_step += 1;
                    prev_matched_ts = event.timestamp_us;
                    if current_step >= self.num_conditions {
                        proof {
                            assert(spec_advance(
                                event.conditions,
                                current_step as int - 1,
                                nn,
                                false,
                            ) == nn);
                            assert(spec_advance(event.conditions, ostep, nn, false) == nn);
                            assert(spec_scan(
                                events,
                                oj,
                                entry_ts as int,
                                ostep,
                                oprev,
                                window,
                                nn,
                                mode,
                            ) == nn);
                        }
                        return self.num_conditions;
                    }
                }
                proof {
                    assert(spec_advance(event.conditions, current_step as int, nn, false)
                        == current_step as int);
                }
            }
            proof {
                let s2 = spec_advance(event.conditions, ostep, nn, mode_has(mode, MODE_STRICT_ONCE));
                assert(s2 == current_step as int);
                assert(s2 < nn);
                assert(spec_scan(events, oj, entry_ts as int, ostep, oprev, window, nn, mode)
                    == spec_scan(
                    events,
                    oj + 1,
                    entry_ts as int,
                    current_step as int,
                    prev_matched_ts as int,
                    window,
                    nn,
                    mode,
                ));
            }
            j += 1;
        }
        proof {
            assert(spec_scan(
                events,
                j as int,
                entry_ts as int,
                current_step as int,
                prev_matched_ts as int,
                window,
                nn,
                mode,
            ) == current_step as int);
        }
        current_step
    }
}

impl Default for WindowFunnelState {
    /// The default state is the empty state.
    fn default() -> (r: WindowFunnelState)
        ensures
            r.events@ == Seq::<Event>::empty(),
            r.window_size_us == 0,
            r.num_conditions == 0,
            r.mode.0 == 0,
    {
        WindowFunnelState {
            events: Vec::new(),
            window_size_us: 0,
            num_conditions: 0,
            mode: FunnelMode(0),
        }
    }
}

/// True when any condition with index below `limit` fires on the event.
fn any_condition_below(event: &Event, limit: usize) -> (r: bool)
    ensures
        r == earlier_condition_fires(event.conditions, limit as int),
{
    let mut k: usize = 0;
    while k < limit
        invariant
            k <= limit,
            forall|m: int| 0 <= m < k ==> !cond_bit(event.conditions, m),
        decreases limit - k,
    {
        if event.condition(k) {
            return true;
        }
        k += 1;
    }
    false
}

/// Appends every event of `src` to `dst`.
fn push_all_events(dst: &mut Vec<Event>, src: &Vec<Event>)
    ensures
        final(dst)@ == old(dst)@ + src@,
{
    let mut i: usize = 0;
    while i < src.len()
        invariant
            i <= src.len(),
            dst@ == old(dst)@ + src@.take(i as int),
        decreases src.len() - i,
    {
        proof {
            assert(old(dst)@ + src@.take(i as int + 1) =~= (old(dst)@ + src@.take(
                i as int,
            )).push(src@[i as int]));
        }
        dst.push(src[i]);
        i += 1;
    }
    proof {
        assert(old(dst)@ + src@.take(src@.len() as int) =~= old(dst)@ + src@);
    }
}


/// The flag a mode name denotes.
pub open spec fn spec_mode_flag(tok: Seq<char>) -> Option<u8> {
    if tok == "strict"@ {
        Some(MODE_STRICT)
    } else if tok == "strict_order"@ {
        Some(MODE_STRICT_ORDER)
    } else if tok == "strict_deduplication"@ {
        Some(MODE_STRICT_DEDUPLICATION)
    } else if tok == "strict_increase"@ {
        Some(MODE_STRICT_INCREASE)
    } else if tok == "strict_once"@ {
        Some(MODE_STRICT_ONCE)
    } else if tok == "allow_reentry"@ {
        Some(MODE_ALLOW_REENTRY)
    } else {
        None
    }
}

/// First position at or after `i` holding a comma, or the end.
pub open spec fn spec_comma_or_end(s: Seq<char>, i: int) -> int
    decreases s.len() - i,
    when 0 <= i <= s.len()
{
    if i >= s.len() {
        i
    } else if s[i] == ',' {
        i
    } else {
        spec_comma_or_end(s, i + 1)
    }
}

/// `spec_comma_or_end` stays within bounds.
pub proof fn lemma_comma_or_end_bounds(s: Seq<char>, i: int)
    requires
        0 <= i <= s.len(),
    ensures
        i <= spec_comma_or_end(s, i) <= s.len(),
    decreases s.len() - i,
{
    if i < s.len() && s[i] != ',' {
        lemma_comma_or_end_bounds(s, i + 1);
    }
}

/// Parse outcome of the comma-separated mode names from position `i`, with
/// the flags `acc` already gathered: each token is trimmed, an empty token
/// is skipped, a known name adds its flag, and an unknown one is the error.
pub open spec fn spec_parse_modes(s: Seq<char>, i: int, acc: u8) -> Result<u8, Seq<char>>
    decreases s.len() - i,
    when 0 <= i <= s.len()
    via spec_parse_modes_decreases
{
    let j = spec_comma_or_end(s, i);
    let tok = spec_trim(s.subrange(i, j));
    if tok.len() == 0 {
        if j >= s.len() {
            Ok(acc)
        } else {
            spec_parse_modes(s, j + 1, acc)
        }
    } else {
        match spec_mode_flag(tok) {
            Some(f) => if j >= s.len() {
                Ok(acc | f)
            } else {
                spec_parse_modes(s, j + 1, acc | f)
            },
            None => Err(tok),
        }
    }
}

#[via_fn]
proof fn spec_parse_modes_decreases(s: Seq<char>, i: int, acc: u8) {
    lemma_comma_or_end_bounds(s, i);
}

impl FunnelMode {
    /// Parses one mode name into its flag; unknown names parse to nothing.
    pub fn parse_mode_str(s: &str) -> (r: Option<FunnelMode>)
        ensures
            r == (match spec_mode_flag(s@) {
                Some(f) => Some(FunnelMode(f)),
                None => None::<FunnelMode>,
            }),
    {
        if str_eq(s, "strict") {
            Some(FunnelMode(MODE_STRICT))
        } else if str_eq(s, "strict_order") {
            Some(FunnelMode(MODE_STRICT_ORDER))
        } else if str_eq(s, "strict_deduplication") {
            Some(FunnelMode(MODE_STRICT_DEDUPLICATION))
        } else if str_eq(s, "strict_increase") {
            Some(FunnelMode(MODE_STRICT_INCREASE))
        } else if str_eq(s, "strict_once") {
            Some(FunnelMode(MODE_STRICT_ONCE))
        } else if str_eq(s, "allow_reentry") {
            Some(FunnelMode(MODE_ALLOW_REENTRY))
        } else {
            None
        }
    }

    /// Parses a comma-separated mode string, whitespace around names
    /// ignored and empty names skipped; an unknown name is returned as the
    /// error, and an empty string is the default mode.
    pub fn parse_modes(s: &str) -> (r: Result<FunnelMode, String>)
        ensures
            match (r, spec_parse_modes(s@, 0, 0)) {
                (Ok(m), Ok(sm)) => m.0 == sm,
                (Err(e), Err(st)) => e@ == st,
                _ => false,
            },
    {
        let n = s.unicode_len();
        let mut acc: u8 = 0;
        let mut i: usize = 0;
        let mut finished = false;
        while !finished
            invariant
                i <= n,
                n == s@.len(),
                !finished ==> spec_parse_modes(s@, 0, 0) == spec_parse_modes(s@, i as int, acc),
                finished ==> spec_parse_modes(s@, 0, 0) == Ok::<u8, Seq<char>>(acc),
            decreases n - i + (if finished { 0int } else { 1int }),
        {
            let ghost oi = i as int;
            let mut j = i;
            while j < n && s.get_char(j) != ','
                invariant
                    i <= j <= n,
                    n == s@.len(),
                    spec_comma_or_end(s@, i as int) == spec_comma_or_end(s@, j as int),
                decreases n - j,
            {
                j += 1;
            }
            proof {
                assert(spec_comma_or_end(s@, oi) == j as int);
            }
            let ghost sub = s@.subrange(oi, j as int);
            let mut ts = i;
            while ts < j && is_ws_exec(s.get_char(ts))
                invariant
                    i <= ts <= j <= n,
                    n == s@.len(),
                    sub == s@.subrange(oi, j as int),
                    oi == i as int,
                    spec_trim_start(sub, 0) == spec_trim_start(sub, ts - oi),
                decreases j - ts,
            {
                proof {
                    assert(sub[ts - oi] == s@[ts as int]);
                }
                ts += 1;
            }
            proof {
                if ts < j {
                    assert(sub[ts - oi] == s@[ts as int]);
                }
                assert(spec_trim_start(sub, 0) == ts - oi);
            }
            let mut te = j;
            while te > ts && is_ws_exec(s.get_char(te - 1))
                invariant
                    ts <= te <= j,
                    j <= n,
                    n == s@.len(),
                    sub == s@.subrange(oi, j as int),
                    sub.len() == j - oi,
                    oi == i as int,
                    i <= ts <= j,
                    ts as int - oi == spec_trim_start(sub, 0),
                    ts < j ==> !is_ws_char(s@[ts as int]),
                    ts < j ==> te > ts,
                    spec_trim_end(sub, sub.len() as int) == spec_trim_end(sub, te - oi),
                decreases te,
            {
                proof {
                    assert(sub[te - 1 - oi] == s@[te - 1]);
                    if te - 1 == ts {
                        assert(!is_ws_char(s@[ts as int]));
                    }
                }
                te -= 1;
            }
            let ghost tok = spec_trim(sub);
            proof {
                crate::text::lemma_trim_start_bounds(sub, 0);
                crate::text::lemma_trim_end_bounds(sub, sub.len() as int);
                if ts < j {
                    assert(te > ts);
                    assert(sub[te - 1 - oi] == s@[te - 1]);
                    assert(!is_ws_char(sub[te - oi - 1]));
                    assert(spec_trim_end(sub, te - oi) == te - oi);
                    assert(tok =~= s@.subrange(ts as int, te as int));
                } else {
                    assert(ts == j && te == j);
                    assert(forall|k: int| 0 <= k < sub.len() ==> is_ws_char(#[trigger] sub[k]));
                    let e = spec_trim_end(sub, sub.len() as int);
                    assert(e == 0) by {
                        if e > 0 {
                            assert(!is_ws_char(sub[e - 1]));
                        }
                    }
                    assert(tok =~= Seq::<char>::empty());
                }
                assert(tok.len() == te - ts);
            }
            if te > ts {
                let found: Option<u8> = if substr_eq(s, ts, te, "strict") {
                    Some(MODE_STRICT)
                } else if substr_eq(s, ts, te, "strict_order") {
                    Some(MODE_STRICT_ORDER)
                } else if substr_eq(s, ts, te, "strict_deduplication") {
                    Some(MODE_STRICT_DEDUPLICATION)
                } else if substr_eq(s, ts, te, "strict_increase") {
                    Some(MODE_STRICT_INCREASE)
                } else if substr_eq(s, ts, te, "strict_once") {
                    Some(MODE_STRICT_ONCE)
                } else if substr_eq(s, ts, te, "allow_reentry") {
                    Some(MODE_ALLOW_REENTRY)
                } else {
                    None
                };
                match found {
                    Some(f) => {
                        proof {
                            assert(spec_mode_flag(tok) == Some(f));
                        }
                        acc = acc | f;
                    },
                    None => {
                        proof {
                            assert(spec_mode_flag(tok) is None);
                            assert(spec_parse_modes(s@, oi, acc) == Err::<u8, Seq<char>>(tok));
                        }
                        return Err(s.substring_char(ts, te).to_owned());
                    },
                }
            }
            if j >= n {
                finished = true;
            } else {
                i = j + 1;
            }
        }
        Ok(FunnelMode(acc))
    }

    /// The mode's name: `default` when no flag is set, else the set flags'
    /// names joined with `+`.
    pub fn mode_string(&self) -> (r: String)
        ensures
            r@ == spec_mode_string(self.0),
    {
        if self.0 == 0 {
            return "default".to_owned();
        }
        let mut out = String::new();
        let mut first = true;
        let mut idx: usize = 0;
        while idx < 6
            invariant
                idx <= 6,
                out@ == join_plus(mode_names(self.0, idx as int)),
                first == (mode_names(self.0, idx as int).len() == 0),
            decreases 6 - idx,
        {
            let ghost oidx = idx as int;
            let flag: u8 = if idx == 0 {
                MODE_STRICT
            } else if idx == 1 {
                MODE_STRICT_ORDER
            } else if idx == 2 {
                MODE_STRICT_DEDUPLICATION
            } else if idx == 3 {
                MODE_STRICT_INCREASE
            } else if idx == 4 {
                MODE_STRICT_ONCE
            } else {
                MODE_ALLOW_REENTRY
            };
            let name: &str = if idx == 0 {
                "strict"
            } else if idx == 1 {
                "strict_order"
            } else if idx == 2 {
                "strict_deduplication"
            } else if idx == 3 {
                "strict_increase"
            } else if idx == 4 {
                "strict_once"
            } else {
                "allow_reentry"
            };
            proof {
                assert(flag == flag_bit(oidx));
                assert(name@ == flag_name(oidx));
                assert(mode_names(self.0, oidx + 1) == mode_names(self.0, oidx) + (
                if mode_has(self.0, flag_bit(oidx)) {
                    seq![flag_name(oidx)]
                } else {
                    Seq::empty()
                }));
            }
            if self.0 & flag == flag {
                if !first {
                    out.append("+");
                }
                out.append(name);
                proof {
                    let names = mode_names(self.0, oidx);
                    let names2 = mode_names(self.0, oidx + 1);
                    assert(names2 =~= names.push(name@));
                    if names.len() == 0 {
                        assert(names2.len() == 1);
                        assert(join_plus(names2) == names2[0]);
                        assert(Seq::<char>::empty() + name@ =~= name@);
                    } else {
                        assert(names2.drop_last() =~= names);
                        assert(join_plus(names2) == join_plus(names) + "+"@ + name@);
                    }
                }
                first = false;
            } else {
                proof {
                    assert(mode_names(self.0, oidx + 1) =~= mode_names(self.0, oidx));
                }
            }
            idx += 1;
        }
        out
    }
}

/// The flag bit at position `idx` of the fixed flag order.
pub open spec fn flag_bit(idx: int) -> u8 {
    if idx == 0 {
        MODE_STRICT
    } else if idx == 1 {
        MODE_STRICT_ORDER
    } else if idx == 2 {
        MODE_STRICT_DEDUPLICATION
    } else if idx == 3 {
        MODE_STRICT_INCREASE
    } else if idx == 4 {
        MODE_STRICT_ONCE
    } else {
        MODE_ALLOW_REENTRY
    }
}

/// The flag name at position `idx` of the fixed flag order.
pub open spec fn flag_name(idx: int) -> Seq<char> {
    if idx == 0 {
        "strict"@
    } else if idx == 1 {
        "strict_order"@
    } else if idx == 2 {
        "strict_deduplication"@
    } else if idx == 3 {
        "strict_increase"@
    } else if idx == 4 {
        "strict_once"@
    } else {
        "allow_reentry"@
    }
}

/// The names of the flags set in `m` among the first `idx` of the fixed
/// order.
pub open spec fn mode_names(m: u8, idx: int) -> Seq<Seq<char>>
    decreases idx,
{
    if idx <= 0 {
        Seq::empty()
    } else {
        mode_names(m, idx - 1) + (if mode_has(m, flag_bit(idx - 1)) {
            seq![flag_name(idx - 1)]
        } else {
            Seq::empty()
        })
    }
}

/// Joins name parts with `+`.
pub open spec fn join_plus(l: Seq<Seq<char>>) -> Seq<char>
    decreases l.len(),
{
    if l.len() == 0 {
        Seq::empty()
    } else if l.len() == 1 {
        l[0]
    } else {
        join_plus(l.drop_last()) + "+"@ + l.last()
    }
}

/// What `mode_string` produces.
pub open spec fn spec_mode_string(m: u8) -> Seq<char> {
    if m == 0 {
        "default"@
    } else {
        join_plus(mode_names(m, 6))
    }
}

/// Law: the empty state is an identity for the funnel combine up to
/// finalize equivalence — its empty event list adds nothing on either
/// side, and by `combine`'s contract a zero window, mode and step count
/// pass the other side's through.
pub proof fn lemma_funnel_combine_identity(events: Seq<Event>, window: int, n: int, mode: u8)
    ensures
        spec_funnel_finalize(Seq::<Event>::empty() + events, window, n, mode)
            == spec_funnel_finalize(events, window, n, mode),
        spec_funnel_finalize(events + Seq::<Event>::empty(), window, n, mode)
            == spec_funnel_finalize(events, window, n, mode),
{
    assert(Seq::<Event>::empty() + events =~= events);
    assert(events + Seq::<Event>::empty() =~= events);
}

/// Law: a clean monotone chain completes the funnel — when the `i`-th of
/// `n` strictly increasing events satisfies exactly condition `i` and the
/// window covers the whole chain, the default-mode funnel reaches exactly
/// `n`.
pub proof fn lemma_funnel_clean_chain(events: Seq<Event>, window: int, n: int)
    requires
        1 <= n <= 32,
        events.len() == n,
        forall|i: int| 0 <= i < n ==> #[trigger] events[i].conditions == (1u32 << (i as u32)),
        forall|i: int, j: int| 0 <= i < j < n ==> events[i].timestamp_us < events[j].timestamp_us,
        window >= events[n - 1].timestamp_us - events[0].timestamp_us,
    ensures
        spec_funnel_finalize(events, window, n, 0) == n,
{
    assert(!mode_has(0u8, MODE_STRICT) && !mode_has(0u8, MODE_STRICT_ORDER) && !mode_has(
        0u8,
        MODE_STRICT_DEDUPLICATION,
    ) && !mode_has(0u8, MODE_STRICT_INCREASE) && !mode_has(0u8, MODE_STRICT_ONCE) && !mode_has(
        0u8,
        MODE_ALLOW_REENTRY,
    )) by (bit_vector);
    assert(crate::event::sorted_by_ts(events));
    lemma_sort_events_by_ts_id(events);
    assert forall|i: int, k: int| 0 <= i < n implies (#[trigger] cond_bit(
        events[i].conditions,
        k,
    ) <==> k == i) by {
        lemma_clean_bit(events[i].conditions, i, k);
    }
    lemma_clean_best_zero(events, 1, window, n);
    lemma_clean_scan(events, 1, window, n);
    assert(cond_bit(events[0].conditions, 0)) by {
        lemma_clean_bit(events[0].conditions, 0, 0);
    }
    assert(spec_funnel_best(events, 0, window, n, 0) == n) by {
        assert(spec_scan(
            events,
            1,
            events[0].timestamp_us as int,
            1,
            events[0].timestamp_us as int,
            window,
            n,
            0,
        ) == n);
        assert(0 <= spec_funnel_best(events, 1, window, n, 0) <= n) by {
            lemma_spec_funnel_best_bounds(events, 1, window, n, 0);
        }
    }
}

/// Only bit `i` is set in the mask `1 << i`.
proof fn lemma_clean_bit(mask: u32, i: int, k: int)
    requires
        0 <= i < 32,
        mask == (1u32 << (i as u32)),
    ensures
        cond_bit(mask, k) <==> k == i,
{
    let j = i as u32;
    assert(0u32 | (1u32 << j) == 1u32 << j) by (bit_vector);
    lemma_cond_bit_set(0u32, j, k);
    crate::event::lemma_cond_bit_zero(k);
}

/// No event after the first can start the clean chain: only the first has
/// condition 0.
proof fn lemma_clean_best_zero(events: Seq<Event>, i: int, window: int, n: int)
    requires
        1 <= n <= 32,
        events.len() == n,
        forall|i2: int| 0 <= i2 < n ==> #[trigger] events[i2].conditions == (1u32 << (i2 as u32)),
        1 <= i <= n,
    ensures
        spec_funnel_best(events, i, window, n, 0) == 0,
    decreases n - i,
{
    if i < n {
        lemma_clean_best_zero(events, i + 1, window, n);
        assert(!cond_bit(events[i].conditions, 0)) by {
            lemma_clean_bit(events[i].conditions, i, 0);
        }
    }
}

/// The scan along the clean chain advances one step per event and ends at
/// `n`.
proof fn lemma_clean_scan(events: Seq<Event>, j: int, window: int, n: int)
    requires
        1 <= n <= 32,
        events.len() == n,
        forall|i: int| 0 <= i < n ==> #[trigger] events[i].conditions == (1u32 << (i as u32)),
        forall|a: int, b: int| 0 <= a < b < n ==> events[a].timestamp_us < events[b].timestamp_us,
        window >= events[n - 1].timestamp_us - events[0].timestamp_us,
        1 <= j <= n,
    ensures
        spec_scan(
            events,
            j,
            events[0].timestamp_us as int,
            j,
            events[j - 1].timestamp_us as int,
            window,
            n,
            0,
        ) == n,
    decreases n - j,
{
    assert(!mode_has(0u8, MODE_STRICT) && !mode_has(0u8, MODE_STRICT_ORDER) && !mode_has(
        0u8,
        MODE_STRICT_DEDUPLICATION,
    ) && !mode_has(0u8, MODE_STRICT_INCREASE) && !mode_has(0u8, MODE_STRICT_ONCE) && !mode_has(
        0u8,
        MODE_ALLOW_REENTRY,
    )) by (bit_vector);
    if j == n {
    } else {
        let e = events[j];
        assert(e.timestamp_us - events[0].timestamp_us <= window) by {
            if j < n - 1 {
                assert(e.timestamp_us < events[n - 1].timestamp_us);
            }
            if 0 < j {
                assert(events[0].timestamp_us < e.timestamp_us || j == 0);
            }
        }
        assert forall|k: int| true implies (cond_bit(e.conditions, k) <==> k == j) by {
            lemma_clean_bit(e.conditions, j, k);
        }
        assert(cond_bit(e.conditions, j));
        if j + 1 < n {
            assert(!cond_bit(e.conditions, j + 1));
            assert(spec_advance(e.conditions, j + 1, n, false) == j + 1);
        }
        assert(spec_advance(e.conditions, j, n, false) == (if j + 1 >= n {
            n
        } else {
            j + 1
        }));
        if j + 1 < n {
            lemma_clean_scan(events, j + 1, window, n);
        }
    }
}

} // verus!
