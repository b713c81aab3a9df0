//! Pattern parser for the sequence-matching mini language.
//!
//! The grammar, over bytes and with ASCII whitespace ignored between steps:
//!
//! ```text
//! pattern := step+
//! step    := '(' '?' N ')'              condition N, 1-indexed
//!         |  '(' '?' 't' OP NUM ')'     time constraint, seconds
//!         |  '.*'                       any number of events
//!         |  '.'                        exactly one event
//! OP      := '>=' | '<=' | '>' | '<' | '==' | '!='
//! ```
//!
//! The whole grammar is restated as spec functions over the input bytes, and
//! [`parse_pattern`] is proved to return exactly what they describe: the same
//! steps on success, and the same position and message on failure.  Rejected
//! inputs are pinned down exactly: an empty pattern, a condition index of
//! zero, a number that does not fit, an unclosed group, a missing operator,
//! and any unexpected byte.

use vstd::prelude::*;
use vstd::string::StringSliceAdditionalSpecFns;

verus! {

/// Comparison operator of a time constraint.
#[derive(Debug, Clone, Copy, PartialEq, Eq, Structural)]
pub enum TimeOp {
    /// `>=`
    Gte,
    /// `<=`
    Lte,
    /// `>`
    Gt,
    /// `<`
    Lt,
    /// `==`
    Eq,
    /// `!=`
    Ne,
}

/// What `TimeOp::evaluate` computes: `elapsed <op> threshold`.
pub open spec fn spec_time_op_eval(op: TimeOp, elapsed: int, threshold: int) -> bool {
    match op {
        TimeOp::Gte => elapsed >= threshold,
        TimeOp::Lte => elapsed <= threshold,
        TimeOp::Gt => elapsed > threshold,
        TimeOp::Lt => elapsed < threshold,
        TimeOp::Eq => elapsed == threshold,
        TimeOp::Ne => elapsed != threshold,
    }
}

impl TimeOp {
    /// Applies the operator to an elapsed duration and a threshold.
    pub fn evaluate(self, elapsed_seconds: i64, threshold: i64) -> (r: bool)
        ensures
            r == spec_time_op_eval(self, elapsed_seconds as int, threshold as int),
    {
        match self {
            TimeOp::Gte => elapsed_seconds >= threshold,
            TimeOp::Lte => elapsed_seconds <= threshold,
            TimeOp::Gt => elapsed_seconds > threshold,
            TimeOp::Lt => elapsed_seconds < threshold,
            TimeOp::Eq => elapsed_seconds == threshold,
            TimeOp::Ne => elapsed_seconds != threshold,
        }
    }
}

/// One step of a compiled pattern.
#[derive(Debug, Clone, Copy, PartialEq, Eq, Structural)]
pub enum PatternStep {
    /// The event must have condition `i` set (0-indexed internally; the
    /// pattern syntax `(?N)` is 1-indexed).
    Condition(usize),
    /// Zero or more events of any kind (`.*`), matched lazily.
    AnyEvents,
    /// Exactly one event of any kind (`.`).
    OneEvent,
    /// A non-consuming bound on the seconds elapsed since the previous
    /// consumed event.
    TimeConstraint(TimeOp, i64),
}

/// A parsed pattern, ready for execution.
#[derive(Debug, Clone)]
pub struct CompiledPattern {
    /// The steps events must match, in order.
    pub steps: Vec<PatternStep>,
}

/// A parse failure: a fixed message and the byte position it refers to.
#[derive(Debug, Clone, PartialEq, Eq)]
pub struct PatternError {
    /// Human-readable description of the failure.
    pub message: String,
    /// Byte position in the input where the failure was found.
    pub position: usize,
}

/// True for the ASCII whitespace bytes (space, tab, line feed, form feed,
/// carriage return).
pub open spec fn is_ws_byte(c: u8) -> bool {
    c == 32 || c == 9 || c == 10 || c == 12 || c == 13
}

/// True for the ASCII digit bytes.
pub open spec fn is_digit_byte(c: u8) -> bool {
    48 <= c <= 57
}

/// First position at or after `i` holding a non-whitespace byte, or the end.
pub open spec fn spec_skip_ws(b: Seq<u8>, i: int) -> int
    decreases b.len() - i,
    when 0 <= i <= b.len()
{
    if i >= b.len() {
        i
    } else if is_ws_byte(b[i]) {
        spec_skip_ws(b, i + 1)
    } else {
        i
    }
}

/// `spec_skip_ws` stays within bounds, skips only whitespace, and stops on
/// the first non-whitespace byte.
pub proof fn lemma_skip_ws_bounds(b: Seq<u8>, i: int)
    requires
        0 <= i <= b.len(),
    ensures
        i <= spec_skip_ws(b, i) <= b.len(),
        spec_skip_ws(b, i) < b.len() ==> !is_ws_byte(b[spec_skip_ws(b, i)]),
        forall|k: int| i <= k < spec_skip_ws(b, i) ==> is_ws_byte(b[k]),
    decreases b.len() - i,
{
    if i < b.len() && is_ws_byte(b[i]) {
        lemma_skip_ws_bounds(b, i + 1);
    }
}

/// End of the digit run starting at `i`: the first position at or after `i`
/// holding a non-digit byte, or the end.
pub open spec fn spec_digits_end(b: Seq<u8>, i: int) -> int
    decreases b.len() - i,
    when 0 <= i <= b.len()
{
    if i >= b.len() {
        i
    } else if is_digit_byte(b[i]) {
        spec_digits_end(b, i + 1)
    } else {
        i
    }
}

/// `spec_digits_end` stays within bounds, covers only digits, and stops on
/// the first non-digit byte.
pub proof fn lemma_digits_end_bounds(b: Seq<u8>, i: int)
    requires
        0 <= i <= b.len(),
    ensures
        i <= spec_digits_end(b, i) <= b.len(),
        spec_digits_end(b, i) < b.len() ==> !is_digit_byte(b[spec_digits_end(b, i)]),
        forall|k: int| i <= k < spec_digits_end(b, i) ==> is_digit_byte(b[k]),
    decreases b.len() - i,
{
    if i < b.len() && is_digit_byte(b[i]) {
        lemma_digits_end_bounds(b, i + 1);
    }
}

/// Decimal value of the digit bytes `b[i..j)`.
pub open spec fn spec_digits_val(b: Seq<u8>, i: int, j: int) -> nat
    decreases j - i,
    when i <= j
{
    if j <= i {
        0
    } else {
        spec_digits_val(b, i, j - 1) * 10 + ((b[j - 1] - 48) as nat)
    }
}

/// Extending a digit run never lowers its value.
pub proof fn lemma_digits_val_monotone(b: Seq<u8>, i: int, j: int, e: int)
    requires
        i <= j <= e,
        forall|k: int| i <= k < e ==> is_digit_byte(#[trigger] b[k]),
    ensures
        spec_digits_val(b, i, e) >= spec_digits_val(b, i, j),
    decreases e - j,
{
    if j < e {
        lemma_digits_val_monotone(b, i, j, e - 1);
        assert(spec_digits_val(b, i, e) == spec_digits_val(b, i, e - 1) * 10 + ((b[e - 1]
            - 48) as nat));
    }
}

/// Parse outcome of a number: its value and the position after it, or the
/// failure position and message.
pub open spec fn spec_parse_number(b: Seq<u8>, i: int) -> Result<(nat, int), (int, Seq<char>)> {
    let e = spec_digits_end(b, i);
    if e == i {
        Err((i, "expected number"@))
    } else if spec_digits_val(b, i, e) > usize::MAX {
        Err((i, "number overflow in pattern"@))
    } else {
        Ok((spec_digits_val(b, i, e), e))
    }
}

/// Parse outcome of a condition group body starting at the first digit:
/// `N ')'` with `N >= 1`.
pub open spec fn spec_parse_condition(b: Seq<u8>, i: int) -> Result<
    (PatternStep, int),
    (int, Seq<char>),
> {
    match spec_parse_number(b, i) {
        Err(e) => Err(e),
        Ok((num, j)) => if !(j < b.len() && b[j] == 41) {
            Err((j, "expected ')'"@))
        } else if num == 0 {
            Err((i, "condition index must be >= 1 (1-indexed)"@))
        } else {
            Ok((PatternStep::Condition((num - 1) as usize), j + 1))
        },
    }
}

/// Parse outcome of a comparison operator.
pub open spec fn spec_parse_time_op(b: Seq<u8>, i: int) -> Result<(TimeOp, int), (int, Seq<char>)> {
    if i < b.len() && b[i] == 62 && i + 1 < b.len() && b[i + 1] == 61 {
        Ok((TimeOp::Gte, i + 2))
    } else if i < b.len() && b[i] == 60 && i + 1 < b.len() && b[i + 1] == 61 {
        Ok((TimeOp::Lte, i + 2))
    } else if i < b.len() && b[i] == 61 && i + 1 < b.len() && b[i + 1] == 61 {
        Ok((TimeOp::Eq, i + 2))
    } else if i < b.len() && b[i] == 33 && i + 1 < b.len() && b[i + 1] == 61 {
        Ok((TimeOp::Ne, i + 2))
    } else if i < b.len() && b[i] == 62 {
        Ok((TimeOp::Gt, i + 1))
    } else if i < b.len() && b[i] == 60 {
        Ok((TimeOp::Lt, i + 1))
    } else {
        Err((i, "expected comparison operator (>=, <=, >, <, ==, !=) after '(?t'"@))
    }
}

/// Parse outcome of a time-constraint group body starting at the `t`:
/// `'t' OP NUM ')'`; the threshold is the number cast to `i64`.
pub open spec fn spec_parse_time_constraint(b: Seq<u8>, i: int) -> Result<
    (PatternStep, int),
    (int, Seq<char>),
> {
    match spec_parse_time_op(b, i + 1) {
        Err(e) => Err(e),
        Ok((op, j)) => match spec_parse_number(b, j) {
            Err(e) => Err(e),
            Ok((num, k)) => if !(k < b.len() && b[k] == 41) {
                Err((k, "expected ')'"@))
            } else {
                Ok((PatternStep::TimeConstraint(op, num as i64), k + 1))
            },
        },
    }
}

/// Parse outcome of a group: `'(' '?'` then either a condition or a time
/// constraint.
pub open spec fn spec_parse_group(b: Seq<u8>, i: int) -> Result<
    (PatternStep, int),
    (int, Seq<char>),
> {
    if !(i + 1 < b.len() && b[i + 1] == 63) {
        Err((i + 1, "expected '?'"@))
    } else if i + 2 >= b.len() {
        Err((i + 2, "unexpected end of pattern after '(?'"@))
    } else if b[i + 2] == 116 {
        spec_parse_time_constraint(b, i + 2)
    } else if is_digit_byte(b[i + 2]) {
        spec_parse_condition(b, i + 2)
    } else {
        Err((i + 2, "expected digit or 't' after '(?'"@))
    }
}

/// Parse outcome of a dot step: `.` or `.*`.
pub open spec fn spec_parse_dot(b: Seq<u8>, i: int) -> (PatternStep, int) {
    if i + 1 < b.len() && b[i + 1] == 42 {
        (PatternStep::AnyEvents, i + 2)
    } else {
        (PatternStep::OneEvent, i + 1)
    }
}

/// Parse outcome of one step at position `i`, which the caller has placed on
/// a non-whitespace byte inside the input.
pub open spec fn spec_parse_step(b: Seq<u8>, i: int) -> Result<
    (PatternStep, int),
    (int, Seq<char>),
> {
    if i >= b.len() {
        Err((i, "unexpected end of pattern"@))
    } else if b[i] == 40 {
        spec_parse_group(b, i)
    } else if b[i] == 46 {
        Ok(spec_parse_dot(b, i))
    } else {
        Err((i, "unexpected character"@))
    }
}

/// A successful step parse moves the position forward and stays in bounds.
pub proof fn lemma_parse_step_bounds(b: Seq<u8>, i: int)
    requires
        0 <= i <= b.len(),
    ensures
        spec_parse_step(b, i) matches Ok((s, k)) ==> i < k <= b.len(),
{
    if i < b.len() && b[i] == 40 {
        if i + 1 < b.len() && b[i + 1] == 63 && i + 2 < b.len() {
            if b[i + 2] == 116 {
                match spec_parse_time_op(b, i + 3) {
                    Ok((op, j)) => {
                        lemma_digits_end_bounds(b, j);
                    },
                    Err(_) => {},
                }
            } else if is_digit_byte(b[i + 2]) {
                lemma_digits_end_bounds(b, i + 2);
            }
        }
    }
}

/// Parse outcome of the remaining steps from position `i`: whitespace, then
/// a step, then the rest.
pub open spec fn spec_parse_steps(b: Seq<u8>, i: int) -> Result<
    Seq<PatternStep>,
    (int, Seq<char>),
>
    decreases b.len() - i,
    when 0 <= i <= b.len()
    via spec_parse_steps_decreases
{
    let j = spec_skip_ws(b, i);
    if j >= b.len() {
        Ok(Seq::empty())
    } else {
        match spec_parse_step(b, j) {
            Err(e) => Err(e),
            Ok((s, k)) => match spec_parse_steps(b, k) {
                Err(e) => Err(e),
                Ok(rest) => Ok(seq![s] + rest),
            },
        }
    }
}

#[via_fn]
proof fn spec_parse_steps_decreases(b: Seq<u8>, i: int) {
    lemma_skip_ws_bounds(b, i);
    let j = spec_skip_ws(b, i);
    if j < b.len() {
        lemma_parse_step_bounds(b, j);
    }
}

/// Parse outcome of a whole pattern: the steps, which must not be empty.
pub open spec fn spec_parse_pattern(b: Seq<u8>) -> Result<Seq<PatternStep>, (int, Seq<char>)> {
    match spec_parse_steps(b, 0) {
        Err(e) => Err(e),
        Ok(steps) => if steps.len() == 0 {
            Err((0, "empty pattern"@))
        } else {
            Ok(steps)
        },
    }
}

/// The executable error corresponds to the spec-level one: same position,
/// same message.
pub open spec fn err_matches(e: PatternError, s: (int, Seq<char>)) -> bool {
    e.position as int == s.0 && e.message@ == s.1
}

/// The executable step outcome corresponds to the spec-level one.
pub open spec fn step_matches(
    r: Result<(PatternStep, usize), PatternError>,
    s: Result<(PatternStep, int), (int, Seq<char>)>,
) -> bool {
    match (r, s) {
        (Ok((step, k)), Ok((sstep, sk))) => step == sstep && k as int == sk,
        (Err(e), Err(se)) => err_matches(e, se),
        _ => false,
    }
}

/// The executable pattern outcome corresponds to the spec-level one.
pub open spec fn pattern_matches(
    r: Result<CompiledPattern, PatternError>,
    s: Result<Seq<PatternStep>, (int, Seq<char>)>,
) -> bool {
    match (r, s) {
        (Ok(p), Ok(steps)) => p.steps@ == steps,
        (Err(e), Err(se)) => err_matches(e, se),
        _ => false,
    }
}

/// Builds an error value with the given fixed message.
fn make_err(message: &str, position: usize) -> (e: PatternError)
    ensures
        e.message@ == message@,
        e.position == position,
{
    PatternError { message: message.to_owned(), position }
}

/// Advances past ASCII whitespace.
fn skip_ws(b: &[u8], i: usize) -> (j: usize)
    requires
        i <= b.len(),
    ensures
        j as int == spec_skip_ws(b@, i as int),
        i <= j <= b.len(),
{
    let mut j = i;
    while j < b.len() && (b[j] == 32 || b[j] == 9 || b[j] == 10 || b[j] == 12 || b[j] == 13)
        invariant
            i <= j <= b.len(),
            spec_skip_ws(b@, i as int) == spec_skip_ws(b@, j as int),
        decreases b.len() - j,
    {
        j += 1;
    }
    j
}

/// Parses a decimal number, reporting overflow of the machine word.
fn parse_number(b: &[u8], i: usize) -> (r: Result<(usize, usize), PatternError>)
    requires
        i <= b.len(),
    ensures
        match (r, spec_parse_number(b@, i as int)) {
            (Ok((v, e)), Ok((sv, se))) => v as nat == sv && e as int == se,
            (Err(err), Err(serr)) => err_matches(err, serr),
            _ => false,
        },
{
    proof {
        lemma_digits_end_bounds(b@, i as int);
    }
    let ghost e = spec_digits_end(b@, i as int);
    let mut num: usize = 0;
    let mut j = i;
    while j < b.len() && b[j] >= 48 && b[j] <= 57
        invariant
            i <= j <= e <= b@.len(),
            e == spec_digits_end(b@, i as int),
            forall|k: int| i <= k < e ==> is_digit_byte(b@[k]),
            e < b@.len() ==> !is_digit_byte(b@[e as int]),
            num as nat == spec_digits_val(b@, i as int, j as int),
        decreases b.len() - j,
    {
        let d = (b[j] - 48) as usize;
        let next = match num.checked_mul(10) {
            Some(m) => m.checked_add(d),
            None => None,
        };
        match next {
            Some(v) => {
                num = v;
                j += 1;
            },
            None => {
                proof {
                    assert(spec_digits_val(b@, i as int, j as int + 1) == num * 10 + d);
                    assert(spec_digits_val(b@, i as int, j as int + 1) > usize::MAX);
                    lemma_digits_val_monotone(b@, i as int, j as int + 1, e);
                }
                return Err(make_err("number overflow in pattern", i));
            },
        }
    }
    if j == i {
        return Err(make_err("expected number", i));
    }
    Ok((num, j))
}

/// Parses the `N ')'` tail of a condition group, rejecting index zero.
fn parse_condition(b: &[u8], i: usize) -> (r: Result<(PatternStep, usize), PatternError>)
    requires
        i <= b.len(),
    ensures
        step_matches(r, spec_parse_condition(b@, i as int)),
{
    let (num, j) = match parse_number(b, i) {
        Ok(p) => p,
        Err(e) => {
            return Err(e);
        },
    };
    if !(j < b.len() && b[j] == 41) {
        return Err(make_err("expected ')'", j));
    }
    if num == 0 {
        return Err(make_err("condition index must be >= 1 (1-indexed)", i));
    }
    Ok((PatternStep::Condition(num - 1), j + 1))
}

/// Parses a comparison operator.
fn parse_time_op(b: &[u8], i: usize) -> (r: Result<(TimeOp, usize), PatternError>)
    requires
        i <= b.len(),
    ensures
        match (r, spec_parse_time_op(b@, i as int)) {
            (Ok((op, k)), Ok((sop, sk))) => op == sop && k as int == sk,
            (Err(err), Err(serr)) => err_matches(err, serr),
            _ => false,
        },
{
    if i < b.len() && b[i] == 62 && i + 1 < b.len() && b[i + 1] == 61 {
        Ok((TimeOp::Gte, i + 2))
    } else if i < b.len() && b[i] == 60 && i + 1 < b.len() && b[i + 1] == 61 {
        Ok((TimeOp::Lte, i + 2))
    } else if i < b.len() && b[i] == 61 && i + 1 < b.len() && b[i + 1] == 61 {
        Ok((TimeOp::Eq, i + 2))
    } else if i < b.len() && b[i] == 33 && i + 1 < b.len() && b[i + 1] == 61 {
        Ok((TimeOp::Ne, i + 2))
    } else if i < b.len() && b[i] == 62 {
        Ok((TimeOp::Gt, i + 1))
    } else if i < b.len() && b[i] == 60 {
        Ok((TimeOp::Lt, i + 1))
    } else {
        Err(make_err("expected comparison operator (>=, <=, >, <, ==, !=) after '(?t'", i))
    }
}

/// Parses the `'t' OP NUM ')'` tail of a time-constraint group.
fn parse_time_constraint(b: &[u8], i: usize) -> (r: Result<(PatternStep, usize), PatternError>)
    requires
        i < b.len(),
    ensures
        step_matches(r, spec_parse_time_constraint(b@, i as int)),
{
    let (op, j) = match parse_time_op(b, i + 1) {
        Ok(p) => p,
        Err(e) => {
            return Err(e);
        },
    };
    let (num, k) = match parse_number(b, j) {
        Ok(p) => p,
        Err(e) => {
            return Err(e);
        },
    };
    if !(k < b.len() && b[k] == 41) {
        return Err(make_err("expected ')'", k));
    }
    let seconds = #[verifier::truncate] (num as i64);
    Ok((PatternStep::TimeConstraint(op, seconds), k + 1))
}

/// Parses a `'(' '?'` group.
fn parse_group(b: &[u8], i: usize) -> (r: Result<(PatternStep, usize), PatternError>)
    requires
        i < b.len(),
        b@[i as int] == 40,
    ensures
        step_matches(r, spec_parse_group(b@, i as int)),
{
    if !(i + 1 < b.len() && b[i + 1] == 63) {
        return Err(make_err("expected '?'", i + 1));
    }
    if i + 2 >= b.len() {
        return Err(make_err("unexpected end of pattern after '(?'", i + 2));
    }
    if b[i + 2] == 116 {
        parse_time_constraint(b, i + 2)
    } else if b[i + 2] >= 48 && b[i + 2] <= 57 {
        parse_condition(b, i + 2)
    } else {
        Err(make_err("expected digit or 't' after '(?'", i + 2))
    }
}

/// Parses one step at a non-whitespace position.
fn parse_step(b: &[u8], i: usize) -> (r: Result<(PatternStep, usize), PatternError>)
    requires
        i < b.len(),
    ensures
        step_matches(r, spec_parse_step(b@, i as int)),
{
    if b[i] == 40 {
        parse_group(b, i)
    } else if b[i] == 46 {
        if i + 1 < b.len() && b[i + 1] == 42 {
            Ok((PatternStep::AnyEvents, i + 2))
        } else {
            Ok((PatternStep::OneEvent, i + 1))
        }
    } else {
        Err(make_err("unexpected character", i))
    }
}

/// Prepends already parsed steps to the outcome of the remaining input.
pub open spec fn prepend_steps(
    acc: Seq<PatternStep>,
    rest: Result<Seq<PatternStep>, (int, Seq<char>)>,
) -> Result<Seq<PatternStep>, (int, Seq<char>)> {
    match rest {
        Ok(r) => Ok(acc + r),
        Err(e) => Err(e),
    }
}

/// Parses a pattern string into a [`CompiledPattern`].
///
/// Returns exactly what [`spec_parse_pattern`] describes on the input's
/// bytes: the compiled steps on success, and the failing position with its
/// message otherwise.
pub fn parse_pattern(input: &str) -> (r: Result<CompiledPattern, PatternError>)
    ensures
        pattern_matches(r, spec_parse_pattern(input.spec_bytes())),
{
    let b: &[u8] = input.as_bytes();
    let mut steps: Vec<PatternStep> = Vec::new();
    let mut pos: usize = skip_ws(b, 0);
    proof {
        lemma_skip_ws_bounds(b@, 0);
        assert(prepend_steps(steps@, spec_parse_steps(b@, pos as int)) == spec_parse_steps(
            b@,
            0,
        )) by {
            assert(spec_skip_ws(b@, pos as int) == pos as int);
            match spec_parse_steps(b@, 0) {
                Ok(r) => {
                    assert(steps@ + r =~= r);
                },
                Err(_) => {},
            }
        }
    }
    while pos < b.len()
        invariant
            pos <= b.len(),
            b@ == input.spec_bytes(),
            pos as int == spec_skip_ws(b@, pos as int),
            spec_parse_steps(b@, 0) == prepend_steps(steps@, spec_parse_steps(b@, pos as int)),
        decreases b.len() - pos,
    {
        let ghost before = steps@;
        let ghost oldpos = pos as int;
        match parse_step(b, pos) {
            Err(e) => {
                proof {
                    assert(spec_parse_steps(b@, pos as int) is Err);
                }
                return Err(e);
            },
            Ok((s, k)) => {
                proof {
                    lemma_parse_step_bounds(b@, pos as int);
                }
                steps.push(s);
                pos = skip_ws(b, k);
                proof {
                    lemma_skip_ws_bounds(b@, k as int);
                    assert(spec_skip_ws(b@, pos as int) == pos as int);
                    assert(spec_parse_steps(b@, k as int) == spec_parse_steps(b@, pos as int));
                    let rest = spec_parse_steps(b@, k as int);
                    match rest {
                        Ok(r) => {
                            assert(before + (seq![s] + r) =~= (before.push(s)) + r);
                        },
                        Err(_) => {},
                    }
                }
            },
        }
    }
    proof {
        assert(spec_parse_steps(b@, pos as int) == Ok::<Seq<PatternStep>, (int, Seq<char>)>(
            Seq::empty(),
        ));
        assert(steps@ + Seq::<PatternStep>::empty() =~= steps@);
    }
    if steps.is_empty() {
        return Err(make_err("empty pattern", 0));
    }
    Ok(CompiledPattern { steps })
}


/// The decimal digit character for `d` in 0..10.
pub open spec fn digit_char(d: int) -> char {
    if d == 0 {
        '0'
    } else if d == 1 {
        '1'
    } else if d == 2 {
        '2'
    } else if d == 3 {
        '3'
    } else if d == 4 {
        '4'
    } else if d == 5 {
        '5'
    } else if d == 6 {
        '6'
    } else if d == 7 {
        '7'
    } else if d == 8 {
        '8'
    } else {
        '9'
    }
}

/// The decimal digits of a non-negative number, most significant first.
pub open spec fn dec_digits(n: int) -> Seq<char>
    decreases n,
    when n >= 0
{
    if n < 10 {
        seq![digit_char(n)]
    } else {
        dec_digits(n / 10).push(digit_char(n % 10))
    }
}

/// What `PatternError::message_string` produces: the position and the
/// message on one line.
pub open spec fn spec_message_string(message: Seq<char>, position: int) -> Seq<char> {
    "pattern error at position "@ + dec_digits(position) + ": "@ + message
}

/// Appends the decimal digits of `n`.
fn push_decimal(out: &mut String, n: usize)
    ensures
        final(out)@ == old(out)@ + dec_digits(n as int),
    decreases n,
{
    if n >= 10 {
        push_decimal(out, n / 10);
    }
    let d = n % 10;
    let ghost mid = out@;
    if d == 0 {
        out.append("0");
        proof {
            reveal_strlit("0");
            assert("0"@ =~= seq![digit_char(d as int)]);
        }
    } else if d == 1 {
        out.append("1");
        proof {
            reveal_strlit("1");
            assert("1"@ =~= seq![digit_char(d as int)]);
        }
    } else if d == 2 {
        out.append("2");
        proof {
            reveal_strlit("2");
            assert("2"@ =~= seq![digit_char(d as int)]);
        }
    } else if d == 3 {
        out.append("3");
        proof {
            reveal_strlit("3");
            assert("3"@ =~= seq![digit_char(d as int)]);
        }
    } else if d == 4 {
        out.append("4");
        proof {
            reveal_strlit("4");
            assert("4"@ =~= seq![digit_char(d as int)]);
        }
    } else if d == 5 {
        out.append("5");
        proof {
            reveal_strlit("5");
            assert("5"@ =~= seq![digit_char(d as int)]);
        }
    } else if d == 6 {
        out.append("6");
        proof {
            reveal_strlit("6");
            assert("6"@ =~= seq![digit_char(d as int)]);
        }
    } else if d == 7 {
        out.append("7");
        proof {
            reveal_strlit("7");
            assert("7"@ =~= seq![digit_char(d as int)]);
        }
    } else if d == 8 {
        out.append("8");
        proof {
            reveal_strlit("8");
            assert("8"@ =~= seq![digit_char(d as int)]);
        }
    } else {
        out.append("9");
        proof {
            reveal_strlit("9");
            assert("9"@ =~= seq![digit_char(d as int)]);
        }
    }
    proof {
        assert(out@ =~= mid + seq![digit_char(d as int)]);
        if n < 10 {
            assert(dec_digits(n as int) =~= seq![digit_char(n as int)]);
            assert(out@ =~= old(out)@ + dec_digits(n as int));
        } else {
            assert(mid == old(out)@ + dec_digits(n as int / 10));
            assert(dec_digits(n as int) =~= dec_digits(n as int / 10).push(
                digit_char(n as int % 10),
            ));
            assert(out@ =~= old(out)@ + dec_digits(n as int));
        }
    }
}

impl PatternError {
    /// The error as one line of text, naming the failing position.
    pub fn message_string(&self) -> (r: String)
        ensures
            r@ == spec_message_string(self.message@, self.position as int),
    {
        let mut out = "pattern error at position ".to_owned();
        push_decimal(&mut out, self.position);
        out.append(": ");
        out.append(self.message.as_str());
        proof {
            assert(out@ =~= spec_message_string(self.message@, self.position as int));
        }
        out
    }
}

} // verus!
