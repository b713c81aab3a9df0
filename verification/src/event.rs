//! Timestamped events with a condition bitmask, and ordering primitives.
//!
//! Several cores (`window_funnel`, `sequence_match`, `sequence_count`)
//! collect timestamped rows whose boolean condition columns are packed into a
//! `u32` bitmask: bit `i` is set when the `i`-th condition held on that row.
//! At most 32 conditions are representable; anything beyond is dropped.

use vstd::prelude::*;

verus! {

/// Maximum number of boolean conditions an event can carry.
pub const MAX_EVENT_CONDITIONS: usize = 32;

/// True when `0 <= i < 32` and bit `i` of `mask` is set.
pub open spec fn cond_bit(mask: u32, i: int) -> bool {
    0 <= i < 32 && (mask >> (i as u32)) & 1u32 == 1u32
}

/// Bit `i` of a bitwise OR is the disjunction of the operands' bits.
pub proof fn lemma_cond_bit_or(a: u32, b: u32, i: int)
    ensures
        cond_bit(a | b, i) <==> (cond_bit(a, i) || cond_bit(b, i)),
{
    if 0 <= i < 32 {
        let s = i as u32;
        assert(((a | b) >> s) & 1u32 == 1u32 <==> ((a >> s) & 1u32 == 1u32 || (b >> s) & 1u32
            == 1u32)) by (bit_vector);
    }
}

/// Setting bit `j` leaves every other bit as it was.
pub proof fn lemma_cond_bit_set(mask: u32, j: u32, i: int)
    requires
        j < 32,
    ensures
        cond_bit(mask | (1u32 << j), i) <==> (i == j as int || cond_bit(mask, i)),
{
    if 0 <= i < 32 {
        let s = i as u32;
        assert((((mask | (1u32 << j)) >> s) & 1u32 == 1u32) <==> (s == j || (mask >> s) & 1u32
            == 1u32)) by (bit_vector)
            requires
                s < 32 && j < 32,
        ;
    }
}

/// The zero mask has no bit set.
pub proof fn lemma_cond_bit_zero(i: int)
    ensures
        !cond_bit(0u32, i),
{
    if 0 <= i < 32 {
        let s = i as u32;
        assert((0u32 >> s) & 1u32 == 0u32) by (bit_vector);
    }
}

/// True when bit `idx` of `mask` is set; always false for `idx >= 32`.
pub fn mask_bit(mask: u32, idx: usize) -> (r: bool)
    ensures
        r == cond_bit(mask, idx as int),
{
    if idx < MAX_EVENT_CONDITIONS {
        let s = idx as u32;
        let r = (mask >> s) & 1 != 0;
        proof {
            assert(((mask >> s) & 1u32 != 0u32) == ((mask >> s) & 1u32 == 1u32)) by (bit_vector);
        }
        r
    } else {
        false
    }
}

/// Packs a slice of booleans into a bitmask; entries at index 32 and beyond
/// are dropped.
pub fn pack_conditions(conditions: &[bool]) -> (mask: u32)
    ensures
        forall|i: int|
            0 <= i < 32 ==> (cond_bit(mask, i) <==> (i < conditions@.len() && conditions@[i])),
{
    let n = conditions.len();
    let bound = if n < MAX_EVENT_CONDITIONS {
        n
    } else {
        MAX_EVENT_CONDITIONS
    };
    let mut bitmask: u32 = 0;
    let mut k: usize = 0;
    proof {
        assert forall|i: int| 0 <= i < 32 implies !cond_bit(0u32, i) by {
            lemma_cond_bit_zero(i);
        }
    }
    while k < bound
        invariant
            k <= bound,
            bound <= 32,
            bound <= conditions@.len(),
            forall|i: int| 0 <= i < 32 ==> (cond_bit(bitmask, i) <==> (i < k && conditions@[i])),
        decreases bound - k,
    {
        if conditions[k] {
            let ghost before = bitmask;
            bitmask = bitmask | (1u32 << (k as u32));
            proof {
                assert forall|i: int|
                    0 <= i < 32 implies (cond_bit(bitmask, i) <==> (i == k as int || cond_bit(
                    before,
                    i,
                ))) by {
                    lemma_cond_bit_set(before, k as u32, i);
                }
            }
        }
        k += 1;
    }
    proof {
        if conditions@.len() < 32 {
            assert(bound == conditions@.len());
        } else {
            assert(bound == 32);
        }
    }
    bitmask
}

/// A single timestamped event with its packed condition bitmask.
#[derive(Debug, Clone, Copy, PartialEq, Eq, Structural)]
pub struct Event {
    /// Timestamp in microseconds since the Unix epoch.
    pub timestamp_us: i64,
    /// Bit `i` is set when condition `i` held on this row.
    pub conditions: u32,
}

impl Event {
    /// Creates an event from a timestamp and a raw bitmask.
    pub fn new(timestamp_us: i64, conditions: u32) -> (r: Event)
        ensures
            r == (Event { timestamp_us, conditions }),
    {
        Event { timestamp_us, conditions }
    }

    /// Packs a slice of booleans into an event's bitmask; entries at index 32
    /// and beyond are dropped.
    pub fn from_bools(timestamp_us: i64, conditions: &[bool]) -> (r: Event)
        ensures
            r.timestamp_us == timestamp_us,
            forall|i: int|
                0 <= i < 32 ==> (cond_bit(r.conditions, i) <==> (i < conditions@.len()
                    && conditions@[i])),
    {
        Event { timestamp_us, conditions: pack_conditions(conditions) }
    }

    /// True when condition `idx` held; always false for `idx >= 32`.
    pub fn condition(&self, idx: usize) -> (r: bool)
        ensures
            r == cond_bit(self.conditions, idx as int),
    {
        mask_bit(self.conditions, idx)
    }

    /// True when at least one condition held on this row.
    pub fn has_any_condition(&self) -> (r: bool)
        ensures
            r == (self.conditions != 0),
    {
        self.conditions != 0
    }
}

/// Non-decreasing timestamp order.
pub open spec fn sorted_by_ts(s: Seq<Event>) -> bool {
    forall|i: int, j: int|
        0 <= i < j < s.len() ==> s[i].timestamp_us <= s[j].timestamp_us
}

/// Stable insertion of `e` into `s`: `e` goes before the first element whose
/// timestamp is strictly greater.
pub open spec fn insert_by_ts(s: Seq<Event>, e: Event) -> Seq<Event>
    decreases s.len(),
{
    if s.len() == 0 {
        seq![e]
    } else if s.last().timestamp_us <= e.timestamp_us {
        s.push(e)
    } else {
        insert_by_ts(s.drop_last(), e).push(s.last())
    }
}

/// Stable sort of events by timestamp, defined by repeated insertion.
pub open spec fn sort_events_by_ts(s: Seq<Event>) -> Seq<Event>
    decreases s.len(),
{
    if s.len() == 0 {
        Seq::empty()
    } else {
        insert_by_ts(sort_events_by_ts(s.drop_last()), s.last())
    }
}

/// Inserting into a timestamp-sorted sequence keeps it sorted and adds
/// exactly the inserted event to the multiset of events.
pub proof fn lemma_insert_by_ts_ensures(s: Seq<Event>, e: Event)
    requires
        sorted_by_ts(s),
    ensures
        sorted_by_ts(insert_by_ts(s, e)),
        insert_by_ts(s, e).to_multiset() == s.to_multiset().insert(e),
        insert_by_ts(s, e).len() == s.len() + 1,
    decreases s.len(),
{
    broadcast use vstd::seq_lib::group_to_multiset_ensures;

    if s.len() == 0 {
        assert(seq![e] == Seq::<Event>::empty().push(e));
        assert(seq![e].to_multiset() =~= s.to_multiset().insert(e));
    } else if s.last().timestamp_us <= e.timestamp_us {
        assert(s.push(e).to_multiset() =~= s.to_multiset().insert(e));
    } else {
        let front = s.drop_last();
        assert(sorted_by_ts(front)) by {
            assert forall|i: int, j: int|
                0 <= i < j < front.len() implies front[i].timestamp_us
                <= front[j].timestamp_us by {
                assert(front[i] == s[i] && front[j] == s[j]);
            }
        }
        lemma_insert_by_ts_ensures(front, e);
        let inner = insert_by_ts(front, e);
        // every element of `inner` is an element of `front` or is `e`, so the
        // final push of `s.last()` keeps the order
        assert forall|i: int, j: int|
            0 <= i < j < inner.push(s.last()).len() implies inner.push(s.last())[i].timestamp_us
            <= inner.push(s.last())[j].timestamp_us by {
            if j < inner.len() {
            } else {
                let x = inner[i];
                assert(inner.push(s.last())[j] == s.last());
                assert(inner.contains(x));
                lemma_multiset_member_bound(front, e, inner, x);
                if x != e {
                    let k = choose|k: int| 0 <= k < front.len() && front[k] == x;
                    assert(s[k] == x);
                    assert(s[k].timestamp_us <= s.last().timestamp_us);
                }
                assert(x.timestamp_us <= s.last().timestamp_us);
            }
        }
        assert(inner.push(s.last()).to_multiset() =~= s.to_multiset().insert(e)) by {
            assert(inner.push(s.last()).to_multiset() == inner.to_multiset().insert(s.last()));
            assert(inner.to_multiset() == front.to_multiset().insert(e));
            assert(front.push(s.last()) == s);
            assert(front.push(s.last()).to_multiset() == front.to_multiset().insert(s.last()));
            assert(front.to_multiset().insert(e).insert(s.last()) =~= front.to_multiset().insert(
                s.last(),
            ).insert(e));
        }
    }
}

/// Every element of a sequence whose multiset is `front`'s plus `e` is
/// either `e` or an element of `front`.
proof fn lemma_multiset_member_bound(front: Seq<Event>, e: Event, inner: Seq<Event>, x: Event)
    requires
        inner.to_multiset() == front.to_multiset().insert(e),
        inner.contains(x),
    ensures
        x == e || front.contains(x),
{
    broadcast use vstd::seq_lib::group_to_multiset_ensures;

    assert(inner.to_multiset().count(x) > 0);
    if x != e {
        assert(front.to_multiset().insert(e).count(x) == front.to_multiset().count(x));
        assert(front.to_multiset().count(x) > 0);
    }
}

/// The insertion sort is sorted, preserves the multiset of events, and keeps
/// the length.
pub proof fn lemma_sort_events_by_ts_ensures(s: Seq<Event>)
    ensures
        sorted_by_ts(sort_events_by_ts(s)),
        sort_events_by_ts(s).to_multiset() == s.to_multiset(),
        sort_events_by_ts(s).len() == s.len(),
    decreases s.len(),
{
    broadcast use vstd::seq_lib::group_to_multiset_ensures;

    if s.len() == 0 {
        assert(sort_events_by_ts(s).to_multiset() =~= s.to_multiset());
    } else {
        let front = s.drop_last();
        lemma_sort_events_by_ts_ensures(front);
        lemma_insert_by_ts_ensures(sort_events_by_ts(front), s.last());
        assert(front.push(s.last()) == s);
        assert(front.push(s.last()).to_multiset() == front.to_multiset().insert(s.last()));
        assert(sort_events_by_ts(s).to_multiset() == front.to_multiset().insert(s.last()));
    }
}

/// Sorting an already sorted sequence gives it back unchanged.
pub proof fn lemma_sort_events_by_ts_id(s: Seq<Event>)
    requires
        sorted_by_ts(s),
    ensures
        sort_events_by_ts(s) == s,
    decreases s.len(),
{
    if s.len() == 0 {
        assert(sort_events_by_ts(s) =~= s);
    } else {
        let front = s.drop_last();
        assert(sorted_by_ts(front)) by {
            assert forall|i: int, j: int|
                0 <= i < j < front.len() implies front[i].timestamp_us
                <= front[j].timestamp_us by {
                assert(front[i] == s[i] && front[j] == s[j]);
            }
        }
        lemma_sort_events_by_ts_id(front);
        if front.len() == 0 {
            assert(sort_events_by_ts(s) =~= s);
        } else {
            assert(front.last().timestamp_us <= s.last().timestamp_us) by {
                assert(front.last() == s[s.len() - 2]);
            }
            assert(front.push(s.last()) =~= s);
        }
    }
}

/// Sorting is idempotent: a second pass over an already sorted sequence is
/// the identity, so `sort(sort(s)) == sort(s)`.
pub proof fn lemma_sort_events_by_ts_idempotent(s: Seq<Event>)
    ensures
        sort_events_by_ts(sort_events_by_ts(s)) == sort_events_by_ts(s),
{
    lemma_sort_events_by_ts_ensures(s);
    lemma_sort_events_by_ts_id(sort_events_by_ts(s));
}

/// Sorts events by timestamp, ascending.
///
/// An O(n) presorted check runs first; already ordered input is returned
/// untouched.  The sort is stable, matching `sort_events_by_ts` exactly.
pub fn sort_events(events: &mut Vec<Event>)
    ensures
        final(events)@ == sort_events_by_ts(old(events)@),
        sorted_by_ts(final(events)@),
        sorted_by_ts(old(events)@) ==> final(events)@ == old(events)@,
{
    proof {
        lemma_sort_events_by_ts_ensures(events@);
    }
    let n = events.len();
    let mut presorted = true;
    let mut c: usize = 1;
    while c < n
        invariant
            1 <= c,
            c <= n || n == 0,
            n == events@.len(),
            events@ == old(events)@,
            presorted <==> (forall|i: int, j: int|
                0 <= i < j < c ==> events@[i].timestamp_us <= events@[j].timestamp_us),
        decreases n - c,
    {
        if events[c - 1].timestamp_us > events[c].timestamp_us {
            presorted = false;
        }
        proof {
            if presorted {
                assert forall|i: int, j: int|
                    0 <= i < j < c + 1 implies events@[i].timestamp_us
                    <= events@[j].timestamp_us by {
                    if j == c {
                        assert(events@[i].timestamp_us <= events@[c - 1].timestamp_us || i == c
                            - 1);
                    }
                }
            }
        }
        c += 1;
    }
    if presorted {
        proof {
            lemma_sort_events_by_ts_id(events@);
        }
        return ;
    }
    let mut result: Vec<Event> = Vec::new();
    let mut i: usize = 0;
    while i < n
        invariant
            i <= n,
            n == events@.len(),
            events@ == old(events)@,
            result@ == sort_events_by_ts(events@.take(i as int)),
            sorted_by_ts(result@),
        decreases n - i,
    {
        let e = events[i];
        let mut j = result.len();
        while j > 0 && result[j - 1].timestamp_us > e.timestamp_us
            invariant
                j <= result@.len(),
                sorted_by_ts(result@),
                forall|k: int| j <= k < result@.len() ==> result@[k].timestamp_us > e.timestamp_us,
            decreases j,
        {
            j -= 1;
        }
        let ghost before = result@;
        result.insert(j, e);
        proof {
            lemma_insert_at_position(before, e, j as int);
            lemma_insert_by_ts_ensures(before, e);
            assert(result@ =~= before.take(j as int).push(e) + before.skip(j as int));
            assert(result@ == insert_by_ts(before, e));
            let t = events@.take(i as int + 1);
            assert(t.drop_last() =~= events@.take(i as int));
            assert(t.last() == events@[i as int]);
            assert(sort_events_by_ts(t) == insert_by_ts(before, e));
        }
        i += 1;
    }
    proof {
        assert(events@.take(n as int) =~= events@);
    }
    *events = result;
}

/// When every element at or after `j` is strictly later than `e` and the one
/// just before `j` (if any) is not, `insert_by_ts` puts `e` exactly at `j`.
proof fn lemma_insert_at_position(s: Seq<Event>, e: Event, j: int)
    requires
        sorted_by_ts(s),
        0 <= j <= s.len(),
        forall|k: int| j <= k < s.len() ==> s[k].timestamp_us > e.timestamp_us,
        j > 0 ==> s[j - 1].timestamp_us <= e.timestamp_us,
    ensures
        insert_by_ts(s, e) == s.take(j).push(e) + s.skip(j),
    decreases s.len(),
{
    if s.len() == 0 {
        assert(insert_by_ts(s, e) =~= s.take(j).push(e) + s.skip(j));
    } else if j == s.len() {
        assert(s.last().timestamp_us <= e.timestamp_us);
        assert(insert_by_ts(s, e) =~= s.take(j).push(e) + s.skip(j));
    } else {
        assert(s.last().timestamp_us > e.timestamp_us) by {
            assert(s.len() - 1 >= j);
        }
        let front = s.drop_last();
        assert(sorted_by_ts(front)) by {
            assert forall|a: int, b: int|
                0 <= a < b < front.len() implies front[a].timestamp_us
                <= front[b].timestamp_us by {
                assert(front[a] == s[a] && front[b] == s[b]);
            }
        }
        lemma_insert_at_position(front, e, j);
        assert(insert_by_ts(s, e) == insert_by_ts(front, e).push(s.last()));
        assert(front.take(j) =~= s.take(j));
        assert((front.take(j).push(e) + front.skip(j)).push(s.last()) =~= s.take(j).push(e)
            + s.skip(j));
    }
}

/// Stable two-pointer merge of two timestamp-sorted sequences; on equal
/// timestamps the left side goes first.
pub open spec fn merge_by_ts(a: Seq<Event>, b: Seq<Event>) -> Seq<Event>
    decreases a.len() + b.len(),
{
    if a.len() == 0 {
        b
    } else if b.len() == 0 {
        a
    } else if a.first().timestamp_us <= b.first().timestamp_us {
        seq![a.first()] + merge_by_ts(a.drop_first(), b)
    } else {
        seq![b.first()] + merge_by_ts(a, b.drop_first())
    }
}

/// Merges two timestamp-sorted slices into one sorted vector, stably.
pub fn merge_sorted_events(a: &[Event], b: &[Event]) -> (r: Vec<Event>)
    ensures
        r@ == merge_by_ts(a@, b@),
{
    let mut result: Vec<Event> = Vec::new();
    let mut i: usize = 0;
    let mut j: usize = 0;
    proof {
        assert(a@.skip(0) =~= a@);
        assert(b@.skip(0) =~= b@);
        assert(result@ + merge_by_ts(a@, b@) =~= merge_by_ts(a@, b@));
    }
    while i < a.len() || j < b.len()
        invariant
            i <= a.len(),
            j <= b.len(),
            merge_by_ts(a@, b@) == result@ + merge_by_ts(a@.skip(i as int), b@.skip(j as int)),
        decreases a.len() - i + b.len() - j,
    {
        let ghost ra = a@.skip(i as int);
        let ghost rb = b@.skip(j as int);
        if j >= b.len() || (i < a.len() && a[i].timestamp_us <= b[j].timestamp_us) {
            result.push(a[i]);
            proof {
                assert(ra.first() == a@[i as int]);
                assert(ra.drop_first() =~= a@.skip(i as int + 1));
                if rb.len() == 0 {
                    assert(merge_by_ts(ra, rb) == ra);
                    assert(ra =~= seq![ra.first()] + ra.drop_first());
                    assert(merge_by_ts(ra.drop_first(), rb) == ra.drop_first());
                }
                assert(merge_by_ts(ra, rb) == seq![ra.first()] + merge_by_ts(
                    ra.drop_first(),
                    rb,
                ));
                assert(result@ + merge_by_ts(a@.skip(i as int + 1), b@.skip(j as int))
                    =~= (result@.drop_last() + merge_by_ts(ra, rb)));
            }
            i += 1;
        } else {
            result.push(b[j]);
            proof {
                assert(rb.first() == b@[j as int]);
                assert(rb.drop_first() =~= b@.skip(j as int + 1));
                if ra.len() == 0 {
                    assert(merge_by_ts(ra, rb) == rb);
                    assert(rb =~= seq![rb.first()] + rb.drop_first());
                    assert(merge_by_ts(ra, rb.drop_first()) == rb.drop_first());
                }
                assert(merge_by_ts(ra, rb) == seq![rb.first()] + merge_by_ts(
                    ra,
                    rb.drop_first(),
                ));
                assert(result@ + merge_by_ts(a@.skip(i as int), b@.skip(j as int + 1))
                    =~= (result@.drop_last() + merge_by_ts(ra, rb)));
            }
            j += 1;
        }
    }
    proof {
        assert(a@.skip(i as int) =~= Seq::<Event>::empty());
        assert(b@.skip(j as int) =~= Seq::<Event>::empty());
        assert(merge_by_ts(a@.skip(i as int), b@.skip(j as int)) == b@.skip(j as int));
        assert(result@ + b@.skip(j as int) =~= result@);
    }
    result
}

} // verus!
