//! Tests of the pattern executor: fast paths, the automaton, counting and
//! timestamp collection.

use behavioral::event::Event;
use behavioral::executor::{execute_pattern, execute_pattern_events};
use behavioral::parser::{parse_pattern, CompiledPattern};

fn make_events(data: &[(i64, &[bool])]) -> Vec<Event> {
    data.iter()
        .map(|(ts, conds)| Event::from_bools(*ts, conds))
        .collect()
}

#[test]
fn executor_test_simple_match() {
    let pattern = parse_pattern("(?1)(?2)").unwrap();
    let events = make_events(&[(100, &[true, false]), (200, &[false, true])]);
    let result = execute_pattern(&pattern, &events, false);
    assert!(result.matched);
}

#[test]
fn executor_test_simple_no_match() {
    let pattern = parse_pattern("(?1)(?2)").unwrap();
    let events = make_events(&[(100, &[false, true]), (200, &[true, false])]);
    let result = execute_pattern(&pattern, &events, false);
    assert!(!result.matched);
}

#[test]
fn executor_test_wildcard_match() {
    let pattern = parse_pattern("(?1).*(?2)").unwrap();
    let events = make_events(&[
        (100, &[true, false]),
        (200, &[false, false]), // gap event
        (300, &[false, false]), // gap event
        (400, &[false, true]),
    ]);
    let result = execute_pattern(&pattern, &events, false);
    assert!(result.matched);
}

#[test]
fn test_one_event_gap() {
    let pattern = parse_pattern("(?1).(?2)").unwrap();
    let events = make_events(&[
        (100, &[true, false]),
        (200, &[false, false]), // exactly one event gap
        (300, &[false, true]),
    ]);
    let result = execute_pattern(&pattern, &events, false);
    assert!(result.matched);
}

#[test]
fn test_one_event_gap_too_many() {
    let pattern = parse_pattern("(?1).(?2)").unwrap();
    let events = make_events(&[
        (100, &[true, false]),
        (200, &[false, false]),
        (300, &[false, false]), // two events gap, not one
        (400, &[false, true]),
    ]);
    // The pattern (?1).(?2) requires exactly ONE event between (?1) and (?2)
    // Event at 200 is the "." and event at 300 needs to be (?2) but it's false
    let result = execute_pattern(&pattern, &events, false);
    assert!(!result.matched);
}

#[test]
fn test_time_constraint_satisfied() {
    let pattern = parse_pattern("(?1)(?t>=2)(?2)").unwrap();
    // Timestamps in microseconds, threshold in seconds
    let events = make_events(&[
        (0, &[true, false]),
        (3_000_000, &[false, true]), // 3 seconds later >= 2
    ]);
    let result = execute_pattern(&pattern, &events, false);
    assert!(result.matched);
}

#[test]
fn test_time_constraint_not_satisfied() {
    let pattern = parse_pattern("(?1)(?t>=5)(?2)").unwrap();
    let events = make_events(&[
        (0, &[true, false]),
        (3_000_000, &[false, true]), // 3 seconds < 5
    ]);
    let result = execute_pattern(&pattern, &events, false);
    assert!(!result.matched);
}

#[test]
fn test_count_non_overlapping() {
    let pattern = parse_pattern("(?1)(?2)").unwrap();
    let events = make_events(&[
        (100, &[true, false]),
        (200, &[false, true]),
        (300, &[true, false]),
        (400, &[false, true]),
    ]);
    let result = execute_pattern(&pattern, &events, true);
    assert!(result.matched);
    assert_eq!(result.count, 2);
}

#[test]
fn test_empty_events() {
    let pattern = parse_pattern("(?1)").unwrap();
    let result = execute_pattern(&pattern, &[], false);
    assert!(!result.matched);
    assert_eq!(result.count, 0);
}

#[test]
fn test_no_matching_condition() {
    let pattern = parse_pattern("(?1)").unwrap();
    let events = make_events(&[(100, &[false]), (200, &[false])]);
    let result = execute_pattern(&pattern, &events, false);
    assert!(!result.matched);
}

#[test]
fn test_wildcard_zero_events() {
    // .* can match zero events
    let pattern = parse_pattern("(?1).*(?2)").unwrap();
    let events = make_events(&[
        (100, &[true, true]), // both conditions true on same event
    ]);
    // (?1) matches event[0], .* matches 0 events, (?2) needs event[1] which doesn't exist
    // Actually, (?1) consumes event[0] and advances. .* matches 0 events.
    // (?2) tries event[1] which doesn't exist. So this should NOT match.
    // Unless event[0] has cond[1] = true and we can reuse it...
    // No - each step consumes events. (?1) consumed event[0], so (?2) needs another event.
    let result = execute_pattern(&pattern, &events, false);
    assert!(!result.matched);
}

#[test]
fn test_adjacent_match() {
    let pattern = parse_pattern("(?1).*(?2)").unwrap();
    let events = make_events(&[(100, &[true, false]), (200, &[false, true])]);
    let result = execute_pattern(&pattern, &events, false);
    assert!(result.matched);
}

#[test]
fn test_three_step_with_wildcards() {
    let pattern = parse_pattern("(?1).*(?2).*(?3)").unwrap();
    let events = make_events(&[
        (100, &[true, false, false]),
        (200, &[false, false, false]),
        (300, &[false, true, false]),
        (400, &[false, false, false]),
        (500, &[false, false, true]),
    ]);
    let result = execute_pattern(&pattern, &events, false);
    assert!(result.matched);
}

#[test]
fn test_time_lte_constraint() {
    let pattern = parse_pattern("(?1)(?t<=1)(?2)").unwrap();
    let events = make_events(&[
        (0, &[true, false]),
        (500_000, &[false, true]), // 0.5 seconds <= 1
    ]);
    let result = execute_pattern(&pattern, &events, false);
    assert!(result.matched);
}

#[test]
fn test_max_nfa_states_limit() {
    // A pathological pattern with multiple .* can cause state explosion.
    // The executor should abort after MAX_NFA_STATES iterations and return no match.
    let pattern = parse_pattern("(?1).*.*.*.*(?2)").unwrap();
    // Many events that don't match (?2) force extensive backtracking
    let mut event_data: Vec<(i64, &[bool])> = Vec::new();
    let conds_start: [bool; 2] = [true, false];
    let conds_mid: [bool; 2] = [false, false];
    event_data.push((0, &conds_start));
    for i in 1..100 {
        event_data.push((i, &conds_mid));
    }
    let events = make_events(&event_data);
    // Should not hang; returns no match after hitting the state limit
    let result = execute_pattern(&pattern, &events, false);
    assert!(!result.matched);
}

#[test]
fn test_empty_pattern_steps() {
    // A pattern with no steps should not match anything
    let pattern = CompiledPattern { steps: vec![] };
    let events = make_events(&[(100, &[true])]);
    let result = execute_pattern(&pattern, &events, false);
    assert!(!result.matched);
    assert_eq!(result.count, 0);
}

#[test]
fn test_count_all_no_matches() {
    let pattern = parse_pattern("(?1)(?2)").unwrap();
    let events = make_events(&[(100, &[false, true]), (200, &[false, true])]);
    let result = execute_pattern(&pattern, &events, true);
    assert!(!result.matched);
    assert_eq!(result.count, 0);
}

#[test]
fn test_time_eq_constraint() {
    let pattern = parse_pattern("(?1)(?t==2)(?2)").unwrap();
    let events = make_events(&[
        (0, &[true, false]),
        (2_000_000, &[false, true]), // exactly 2 seconds
    ]);
    let result = execute_pattern(&pattern, &events, false);
    assert!(result.matched);
}

#[test]
fn test_time_ne_constraint() {
    let pattern = parse_pattern("(?1)(?t!=2)(?2)").unwrap();
    let events = make_events(&[
        (0, &[true, false]),
        (3_000_000, &[false, true]), // 3 seconds != 2
    ]);
    let result = execute_pattern(&pattern, &events, false);
    assert!(result.matched);
}

#[test]
fn test_time_gt_constraint() {
    let pattern = parse_pattern("(?1)(?t>5)(?2)").unwrap();
    let events = make_events(&[
        (0, &[true, false]),
        (6_000_000, &[false, true]), // 6 > 5
    ]);
    let result = execute_pattern(&pattern, &events, false);
    assert!(result.matched);
}

#[test]
fn test_time_lt_constraint() {
    let pattern = parse_pattern("(?1)(?t<5)(?2)").unwrap();
    let events = make_events(&[
        (0, &[true, false]),
        (4_000_000, &[false, true]), // 4 < 5
    ]);
    let result = execute_pattern(&pattern, &events, false);
    assert!(result.matched);
}

#[test]
fn test_single_event_single_condition() {
    let pattern = parse_pattern("(?1)").unwrap();
    let events = make_events(&[(100, &[true])]);
    let result = execute_pattern(&pattern, &events, false);
    assert!(result.matched);
}

#[test]
fn test_wildcard_at_end() {
    // .* at the end of pattern should still match
    let pattern = parse_pattern("(?1).*").unwrap();
    let events = make_events(&[(100, &[true]), (200, &[false])]);
    let result = execute_pattern(&pattern, &events, false);
    assert!(result.matched);
}

#[test]
fn test_count_three_non_overlapping() {
    let pattern = parse_pattern("(?1)(?2)").unwrap();
    let events = make_events(&[
        (100, &[true, false]),
        (200, &[false, true]),
        (300, &[true, false]),
        (400, &[false, true]),
        (500, &[true, false]),
        (600, &[false, true]),
    ]);
    let result = execute_pattern(&pattern, &events, true);
    assert_eq!(result.count, 3);
}

#[test]
fn test_one_event_dot_with_time_constraint() {
    // Would fail if someone were to removing last_match_ts update in OneEvent handler.
    // If `.` doesn't set last_match_ts, the following time constraint
    // would use the wrong baseline timestamp (or None).
    let pattern = parse_pattern("(?1).(?t<=3)(?2)").unwrap();
    let events = make_events(&[
        (0, &[true, false]),
        (1_000_000, &[false, false]), // matched by `.`
        (3_000_000, &[false, true]),  // 2s after the `.` event, <= 3
    ]);
    let result = execute_pattern(&pattern, &events, false);
    assert!(result.matched);

    // Now verify the time constraint uses the `.` event's timestamp, not (?1)'s
    let pattern2 = parse_pattern("(?1).(?t<=1)(?2)").unwrap();
    let events2 = make_events(&[
        (0, &[true, false]),
        (1_000_000, &[false, false]), // matched by `.` at 1s
        (3_000_000, &[false, true]),  // 2s after `.`, > 1s limit
    ]);
    let result2 = execute_pattern(&pattern2, &events2, false);
    assert!(!result2.matched);
}

#[test]
fn test_time_constraint_vacuous_truth_at_pattern_start() {
    // Would fail if someone were to removing the else branch for time constraints
    // when last_match_ts is None. A time constraint at the start
    // of a pattern has no previous match to compare against and
    // should be vacuously true.
    let pattern = parse_pattern("(?t<=5)(?1)").unwrap();
    let events = make_events(&[(100, &[true])]);
    let result = execute_pattern(&pattern, &events, false);
    assert!(result.matched);
}

#[test]
fn test_time_constraint_microsecond_to_second_conversion() {
    // Would fail if someone were to replacing `/` with `*` in elapsed_us / MICROS_PER_SECOND.
    // Uses non-trivial values where the division matters.
    // 1_500_000 µs = 1.5s, truncated to 1s.
    // With (?t>=2), 1s < 2s → should NOT match.
    let pattern = parse_pattern("(?1)(?t>=2)(?2)").unwrap();
    let events = make_events(&[
        (0, &[true, false]),
        (1_500_000, &[false, true]), // 1.5s → 1s (integer division) < 2
    ]);
    let result = execute_pattern(&pattern, &events, false);
    assert!(!result.matched);

    // 2_500_000 µs = 2.5s, truncated to 2s. With (?t>=2), 2s >= 2 → match.
    let events2 = make_events(&[(0, &[true, false]), (2_500_000, &[false, true])]);
    let result2 = execute_pattern(&pattern, &events2, false);
    assert!(result2.matched);
}

#[test]
fn test_lazy_matching_prefers_advance_over_consume() {
    // Would fail if someone were to swapping AnyEvents push order (lazy → greedy).
    // With lazy matching, .* matches as few events as possible,
    // enabling more non-overlapping matches when count_all=true.
    let pattern = parse_pattern("(?1).*(?2)").unwrap();
    let events = make_events(&[
        (100, &[true, false]),
        (200, &[false, true]), // lazy: (?2) matches here immediately
        (300, &[true, false]), // start of second match
        (400, &[false, true]), // lazy: (?2) matches here immediately
    ]);
    let result = execute_pattern(&pattern, &events, true);
    // Lazy: match (0→1), then (2→3) = 2 non-overlapping matches
    assert!(result.matched);
    assert_eq!(result.count, 2);
}

#[test]
fn test_step_completion_boundary() {
    // Would fail if someone were to replacing `>=` with `>` in step completion check.
    // A pattern with 2 steps should complete when step_idx == 2 == steps.len().
    let pattern = parse_pattern("(?1)(?2)").unwrap();
    assert_eq!(pattern.steps.len(), 2);
    let events = make_events(&[(100, &[true, false]), (200, &[false, true])]);
    let result = execute_pattern(&pattern, &events, false);
    assert!(result.matched);
}

#[test]
fn test_match_end_index_for_non_overlapping_count() {
    // Would fail if someone were to altering match_end return value logic.
    // Verifies that non-overlapping count correctly advances past the match.
    let pattern = parse_pattern("(?1)(?2)").unwrap();
    // Events: c1, c2, c1, c2, c1, c2
    // Matches: (0,1), (2,3), (4,5) = 3 non-overlapping
    let events = make_events(&[
        (100, &[true, false]),
        (200, &[false, true]),
        (300, &[true, false]),
        (400, &[false, true]),
        (500, &[true, false]),
        (600, &[false, true]),
    ]);
    let result = execute_pattern(&pattern, &events, true);
    assert_eq!(result.count, 3);

    // Adjacent events that share: c1, c1c2, c2
    // First match: event 0 (c1) → event 1 (c2). match_end = 1.
    // search_start = 2. Event 2 has c2 only, no c1. No second match.
    let events2 = make_events(&[
        (100, &[true, false]),
        (200, &[true, true]), // both conditions
        (300, &[false, true]),
    ]);
    let result2 = execute_pattern(&pattern, &events2, true);
    assert_eq!(result2.count, 1);
}

#[test]
fn test_any_events_at_end_of_stream() {
    // Would fail if someone were to not handling .* at end of stream when events exhausted.
    // .* should match zero remaining events at the end.
    let pattern = parse_pattern("(?1).*").unwrap();
    let events = make_events(&[(100, &[true])]);
    let result = execute_pattern(&pattern, &events, false);
    assert!(result.matched);
}

#[test]
fn test_events_simple_match() {
    let pattern = parse_pattern("(?1)(?2)").unwrap();
    let events = make_events(&[(100, &[true, false]), (200, &[false, true])]);
    let result = execute_pattern_events(&pattern, &events);
    assert_eq!(result, Some(vec![100, 200]));
}

#[test]
fn test_events_no_match() {
    let pattern = parse_pattern("(?1)(?2)").unwrap();
    let events = make_events(&[(100, &[false, true]), (200, &[true, false])]);
    let result = execute_pattern_events(&pattern, &events);
    assert_eq!(result, None);
}

#[test]
fn executor_test_events_with_wildcard() {
    let pattern = parse_pattern("(?1).*(?2)").unwrap();
    let events = make_events(&[
        (100, &[true, false]),
        (200, &[false, false]),
        (300, &[false, true]),
    ]);
    let result = execute_pattern_events(&pattern, &events);
    // Only condition timestamps, not wildcard
    assert_eq!(result, Some(vec![100, 300]));
}

#[test]
fn test_events_empty_input() {
    let pattern = parse_pattern("(?1)").unwrap();
    let result = execute_pattern_events(&pattern, &[]);
    assert_eq!(result, None);
}

#[test]
fn test_events_three_conditions() {
    let pattern = parse_pattern("(?1).*(?2).*(?3)").unwrap();
    let events = make_events(&[
        (10, &[true, false, false]),
        (20, &[false, true, false]),
        (30, &[false, false, true]),
    ]);
    let result = execute_pattern_events(&pattern, &events);
    assert_eq!(result, Some(vec![10, 20, 30]));
}

#[test]
fn executor_test_events_with_time_constraint() {
    let pattern = parse_pattern("(?1)(?t>=2)(?2)").unwrap();
    let events = make_events(&[(0, &[true, false]), (3_000_000, &[false, true])]);
    let result = execute_pattern_events(&pattern, &events);
    assert_eq!(result, Some(vec![0, 3_000_000]));
}

#[test]
fn test_events_with_one_event() {
    let pattern = parse_pattern("(?1).(?2)").unwrap();
    let events = make_events(&[
        (100, &[true, false]),
        (200, &[false, false]),
        (300, &[false, true]),
    ]);
    let result = execute_pattern_events(&pattern, &events);
    assert_eq!(result, Some(vec![100, 300]));
}

#[test]
fn test_fast_adjacent_skip_correctness() {
    // Regression test: the fast_adjacent path must not skip valid starting
    // positions when an intermediate condition check fails.
    // Events: c1c2, c1, c2. Pattern (?1)(?2).
    // Position 0: events[0]=c1c2, events[1]=c1. c1 doesn't have condition 1 → fail.
    // Position 1: events[1]=c1, events[2]=c2. Match!
    let pattern = parse_pattern("(?1)(?2)").unwrap();
    let events = make_events(&[
        (100, &[true, true]),  // c1c2
        (200, &[true, false]), // c1
        (300, &[false, true]), // c2
    ]);
    let result = execute_pattern(&pattern, &events, true);
    assert_eq!(result.count, 1);
}

#[test]
fn test_fast_adjacent_three_step() {
    // Three adjacent conditions: (?1)(?2)(?3)
    let pattern = parse_pattern("(?1)(?2)(?3)").unwrap();
    let events = make_events(&[
        (100, &[true, false, false]),
        (200, &[false, true, false]),
        (300, &[false, false, true]),
    ]);
    let result = execute_pattern(&pattern, &events, false);
    assert!(result.matched);
}

#[test]
fn test_fast_wildcard_count() {
    // Wildcard-separated pattern counting: (?1).*(?2)
    let pattern = parse_pattern("(?1).*(?2)").unwrap();
    let events = make_events(&[
        (100, &[true, false]),
        (200, &[false, false]), // gap
        (300, &[false, true]),
        (400, &[true, false]),
        (500, &[false, true]),
    ]);
    let result = execute_pattern(&pattern, &events, true);
    assert_eq!(result.count, 2);
}

#[test]
fn test_fast_wildcard_no_match() {
    // Wildcard pattern where condition 2 never fires
    let pattern = parse_pattern("(?1).*(?2)").unwrap();
    let events = make_events(&[
        (100, &[true, false]),
        (200, &[true, false]),
        (300, &[true, false]),
    ]);
    let result = execute_pattern(&pattern, &events, false);
    assert!(!result.matched);
}

#[test]
fn test_fast_adjacent_insufficient_events() {
    // Fewer events than pattern steps
    let pattern = parse_pattern("(?1)(?2)(?3)").unwrap();
    let events = make_events(&[(100, &[true, false, false]), (200, &[false, true, false])]);
    let result = execute_pattern(&pattern, &events, false);
    assert!(!result.matched);
}

#[test]
fn test_classify_time_constraint_is_complex() {
    // Patterns with time constraints must use the NFA, not fast paths.
    let pattern = parse_pattern("(?1)(?t<=5)(?2)").unwrap();
    let events = make_events(&[(0, &[true, false]), (3_000_000, &[false, true])]);
    let result = execute_pattern(&pattern, &events, false);
    assert!(result.matched);
}

#[test]
fn test_classify_one_event_is_complex() {
    // Patterns with `.` (OneEvent) must use the NFA.
    let pattern = parse_pattern("(?1).(?2)").unwrap();
    let events = make_events(&[
        (100, &[true, false]),
        (200, &[false, false]),
        (300, &[false, true]),
    ]);
    let result = execute_pattern(&pattern, &events, false);
    assert!(result.matched);
}

#[test]
fn test_time_constraint_after_wildcard() {
    // Would fail if someone were to incorrect last_match_ts propagation through .*.
    // After .* matches, the time constraint should use the last
    // matched event's timestamp (from before .*), not the current event.
    let pattern = parse_pattern("(?1).*(?t<=3)(?2)").unwrap();
    let events = make_events(&[
        (0, &[true, false]),
        (1_000_000, &[false, false]), // consumed by .*
        (2_000_000, &[false, true]),  // 2s from (?1) match, <= 3
    ]);
    let result = execute_pattern(&pattern, &events, false);
    assert!(result.matched);

    // Time constraint too tight for the gap
    let pattern2 = parse_pattern("(?1).*(?t<=1)(?2)").unwrap();
    let events2 = make_events(&[
        (0, &[true, false]),
        (1_000_000, &[false, false]),
        (5_000_000, &[false, true]), // 5s from (?1), > 1
    ]);
    let result2 = execute_pattern(&pattern2, &events2, false);
    assert!(!result2.matched);
}
