//! Timestamps and the ordered set of timestamps of one entity.

use crate::seq_lemmas::lemma_filter_block;
use std::ops::Range;
use vstd::prelude::*;

verus! {

/// An event's position in time: the logical time `0` and, to order events
/// that share it, the sequence number `1` the event was given.
#[derive(Copy, Clone, Debug, PartialEq, Eq, PartialOrd, Ord, Hash, Structural)]
pub struct TimeIndexEntry(pub i64, pub usize);

impl TimeIndexEntry {
    /// Strict order: by logical time, then by sequence number.
    pub open spec fn spec_lt(self, other: TimeIndexEntry) -> bool {
        self.0 < other.0 || (self.0 == other.0 && self.1 < other.1)
    }

    /// The earliest position at logical time `t`.
    pub open spec fn spec_start(t: i64) -> TimeIndexEntry {
        TimeIndexEntry(t, 0)
    }

    /// The latest position at logical time `t`.
    pub open spec fn spec_end(t: i64) -> TimeIndexEntry {
        TimeIndexEntry(t, usize::MAX)
    }

    pub fn new(t: i64, s: usize) -> (r: TimeIndexEntry)
        ensures
            r == TimeIndexEntry(t, s),
    {
        TimeIndexEntry(t, s)
    }

    pub fn start(t: i64) -> (r: TimeIndexEntry)
        ensures
            r == TimeIndexEntry::spec_start(t),
    {
        TimeIndexEntry(t, 0)
    }

    pub fn end(t: i64) -> (r: TimeIndexEntry)
        ensures
            r == TimeIndexEntry::spec_end(t),
    {
        TimeIndexEntry(t, usize::MAX)
    }

    /// The window of positions whose logical time lies in `w`.
    pub fn range(w: Range<i64>) -> (r: Range<TimeIndexEntry>)
        ensures
            r.start == TimeIndexEntry::spec_start(w.start),
            r.end == TimeIndexEntry::spec_start(w.end),
    {
        Range { start: TimeIndexEntry(w.start, 0), end: TimeIndexEntry(w.end, 0) }
    }

    /// The logical time.
    pub fn t(&self) -> (t: i64)
        ensures
            t == self.0,
    {
        self.0
    }

    /// The sequence number.
    pub fn i(&self) -> (i: usize)
        ensures
            i == self.1,
    {
        self.1
    }

    pub fn lt(&self, other: &TimeIndexEntry) -> (b: bool)
        ensures
            b == self.spec_lt(*other),
    {
        self.0 < other.0 || (self.0 == other.0 && self.1 < other.1)
    }

    /// The order is strict and total.
    pub proof fn lemma_order(a: TimeIndexEntry, b: TimeIndexEntry, c: TimeIndexEntry)
        ensures
            !a.spec_lt(a),
            a.spec_lt(b) && b.spec_lt(c) ==> a.spec_lt(c),
            a.spec_lt(b) || b.spec_lt(a) || a == b,
            !(a.spec_lt(b) && b.spec_lt(a)),
    {
    }
}

impl From<i64> for TimeIndexEntry {
    fn from(t: i64) -> (r: TimeIndexEntry) {
        TimeIndexEntry(t, 0)
    }
}

impl vstd::std_specs::convert::FromSpecImpl<i64> for TimeIndexEntry {
    open spec fn obeys_from_spec() -> bool {
        true
    }

    open spec fn from_spec(t: i64) -> TimeIndexEntry {
        TimeIndexEntry(t, 0)
    }
}

/// Strictly increasing logical times.
pub open spec fn increasing(s: Seq<i64>) -> bool {
    forall|i: int, j: int| 0 <= i < j < s.len() ==> s[i] < s[j]
}

/// Selects the times strictly before `t`.
pub open spec fn time_before(t: i64) -> spec_fn(i64) -> bool {
    |x: i64| x < t
}

/// Selects the times strictly after `t`.
pub open spec fn time_after(t: i64) -> spec_fn(i64) -> bool {
    |x: i64| t < x
}

/// Selects the times in the half-open window `[start, end)`.
pub open spec fn time_in(start: i64, end: i64) -> spec_fn(i64) -> bool {
    |x: i64| start <= x < end
}

/// The index `s` with `t` added: unchanged if `t` is present, else `t` put
/// between the earlier and the later times.
pub open spec fn index_insert(s: Seq<i64>, t: i64) -> Seq<i64> {
    if s.contains(t) {
        s
    } else {
        s.filter(time_before(t)) + seq![t] + s.filter(time_after(t))
    }
}

/// The first position of `v` that holds a time not before `t`.
fn lower_bound(v: &Vec<i64>, t: i64) -> (k: usize)
    requires
        increasing(v@),
    ensures
        k <= v.len(),
        forall|i: int| 0 <= i < k ==> v@[i] < t,
        forall|i: int| k <= i < v.len() ==> v@[i] >= t,
{
    let mut lo: usize = 0;
    let mut hi: usize = v.len();
    while lo < hi
        invariant
            lo <= hi <= v.len(),
            increasing(v@),
            forall|i: int| 0 <= i < lo ==> v@[i] < t,
            forall|i: int| hi <= i < v.len() ==> v@[i] >= t,
        decreases hi - lo,
    {
        let mid = lo + (hi - lo) / 2;
        if v[mid] < t {
            lo = mid + 1;
        } else {
            hi = mid;
        }
    }
    lo
}

/// Inserting into an increasing sequence at its lower bound keeps it
/// increasing and gives `index_insert`.
proof fn lemma_insert_at(s: Seq<i64>, t: i64, k: int)
    requires
        increasing(s),
        0 <= k <= s.len(),
        forall|i: int| 0 <= i < k ==> s[i] < t,
        forall|i: int| k <= i < s.len() ==> s[i] > t,
    ensures
        !s.contains(t),
        index_insert(s, t) == s.insert(k, t),
        increasing(s.insert(k, t)),
{
    lemma_filter_block(s, time_before(t), 0, k);
    lemma_filter_block(s, time_after(t), k, s.len() as int);
    assert(s.subrange(0, k) + seq![t] + s.subrange(k, s.len() as int) =~= s.insert(k, t));
}

/// Adding a time to an increasing index gives an increasing index that
/// holds the time and what the index held.
pub proof fn lemma_index_insert(s: Seq<i64>, t: i64)
    requires
        increasing(s),
    ensures
        increasing(index_insert(s, t)),
        index_insert(s, t).contains(t),
        forall|x: i64| index_insert(s, t).contains(x) <==> (x == t || s.contains(x)),
{
    if !s.contains(t) {
        let k = lemma_lower_bound(s, t);
        assert forall|i: int| k <= i < s.len() implies s[i] > t by {
            assert(s.contains(s[i]));
        }
        lemma_insert_at(s, t, k);
        let r = s.insert(k, t);
        assert(r[k] == t);
        assert forall|x: i64| r.contains(x) <==> (x == t || s.contains(x)) by {
            if r.contains(x) {
                let i = choose|i: int| 0 <= i < r.len() && r[i] == x;
                if i < k {
                    assert(s[i] == x);
                } else if i > k {
                    assert(s[i - 1] == x);
                }
            }
            if s.contains(x) {
                let i = choose|i: int| 0 <= i < s.len() && s[i] == x;
                if i < k {
                    assert(r[i] == x);
                } else {
                    assert(r[i + 1] == x);
                }
            }
        }
    }
}

/// The number of times of an increasing index that are before `t`.
pub proof fn lemma_lower_bound(s: Seq<i64>, t: i64) -> (k: int)
    requires
        increasing(s),
    ensures
        0 <= k <= s.len(),
        forall|i: int| 0 <= i < k ==> s[i] < t,
        forall|i: int| k <= i < s.len() ==> s[i] >= t,
    decreases s.len(),
{
    if s.len() == 0 {
        0
    } else if s.last() < t {
        assert forall|i: int| 0 <= i < s.len() implies s[i] < t by {
            if i < s.len() - 1 {
                assert(s[i] < s[s.len() - 1]);
            }
        }
        s.len() as int
    } else {
        let r = s.drop_last();
        assert(increasing(r)) by {
            assert forall|i: int, j: int| 0 <= i < j < r.len() implies r[i] < r[j] by {
                assert(r[i] == s[i] && r[j] == s[j]);
            }
        }
        let k = lemma_lower_bound(r, t);
        assert forall|i: int| 0 <= i < k implies s[i] < t by {
            assert(r[i] == s[i]);
        }
        assert forall|i: int| k <= i < s.len() implies s[i] >= t by {
            if i < s.len() - 1 {
                assert(r[i] == s[i]);
            }
        }
        k
    }
}

/// The ordered, duplicate-free set of logical times at which one entity
/// was touched. The empty and the one-element index have a representation
/// of their own.
#[derive(Debug, PartialEq, Eq)]
pub enum TimeIndex {
    Empty,
    One(i64),
    Many(Vec<i64>),
}

impl View for TimeIndex {
    type V = Seq<i64>;

    /// The times in increasing order.
    open spec fn view(&self) -> Seq<i64> {
        match self {
            TimeIndex::Empty => Seq::empty(),
            TimeIndex::One(t) => seq![*t],
            TimeIndex::Many(v) => v@,
        }
    }
}

impl TimeIndex {
    /// The times are strictly increasing.
    pub open spec fn wf(&self) -> bool {
        increasing(self@)
    }

    pub fn new() -> (r: TimeIndex)
        ensures
            r.wf(),
            r@ == Seq::<i64>::empty(),
    {
        TimeIndex::Empty
    }

    pub fn one(t: i64) -> (r: TimeIndex)
        ensures
            r.wf(),
            r@ == seq![t],
    {
        TimeIndex::One(t)
    }

    pub fn len(&self) -> (n: usize)
        ensures
            n == self@.len(),
    {
        match self {
            TimeIndex::Empty => 0,
            TimeIndex::One(_) => 1,
            TimeIndex::Many(v) => v.len(),
        }
    }

    pub fn is_empty(&self) -> (b: bool)
        ensures
            b == (self@.len() == 0),
    {
        self.len() == 0
    }

    /// Adds `t`; a time already present changes nothing. Returns whether
    /// `t` was new.
    pub fn insert(&mut self, t: i64) -> (added: bool)
        requires
            old(self).wf(),
        ensures
            final(self).wf(),
            final(self)@ == index_insert(old(self)@, t),
            added == !old(self)@.contains(t),
    {
        match self {
            TimeIndex::Empty => {
                proof {
                    lemma_insert_at(Seq::<i64>::empty(), t, 0);
                    assert(Seq::<i64>::empty().insert(0, t) =~= seq![t]);
                }
                *self = TimeIndex::One(t);
                true
            },
            TimeIndex::One(t0) => {
                let t0 = *t0;
                if t0 == t {
                    assert(seq![t0].contains(t)) by {
                        assert(seq![t0][0] == t);
                    }
                    false
                } else {
                    let mut v: Vec<i64> = Vec::new();
                    if t0 < t {
                        v.push(t0);
                        v.push(t);
                        proof {
                            lemma_insert_at(seq![t0], t, 1);
                            assert(seq![t0].insert(1, t) =~= v@);
                        }
                    } else {
                        v.push(t);
                        v.push(t0);
                        proof {
                            lemma_insert_at(seq![t0], t, 0);
                            assert(seq![t0].insert(0, t) =~= v@);
                        }
                    }
                    *self = TimeIndex::Many(v);
                    true
                }
            },
            TimeIndex::Many(v) => {
                let k = lower_bound(v, t);
                if k < v.len() && v[k] == t {
                    assert(v@.contains(t)) by {
                        assert(v@[k as int] == t);
                    }
                    false
                } else {
                    proof {
                        lemma_insert_at(v@, t, k as int);
                    }
                    v.insert(k, t);
                    true
                }
            },
        }
    }

    pub fn contains(&self, t: i64) -> (b: bool)
        requires
            self.wf(),
        ensures
            b == self@.contains(t),
    {
        match self {
            TimeIndex::Empty => false,
            TimeIndex::One(t0) => {
                if *t0 == t {
                    assert(seq![*t0][0] == t);
                    true
                } else {
                    false
                }
            },
            TimeIndex::Many(v) => {
                let k = lower_bound(v, t);
                if k < v.len() && v[k] == t {
                    assert(v@[k as int] == t);
                    true
                } else {
                    false
                }
            },
        }
    }

    /// The earliest time.
    pub fn first(&self) -> (r: Option<i64>)
        ensures
            r == if self@.len() == 0 {
                None
            } else {
                Some(self@.first())
            },
    {
        match self {
            TimeIndex::Empty => None,
            TimeIndex::One(t) => Some(*t),
            TimeIndex::Many(v) => if v.len() == 0 {
                None
            } else {
                Some(v[0])
            },
        }
    }

    /// The latest time.
    pub fn last(&self) -> (r: Option<i64>)
        ensures
            r == if self@.len() == 0 {
                None
            } else {
                Some(self@.last())
            },
    {
        match self {
            TimeIndex::Empty => None,
            TimeIndex::One(t) => Some(*t),
            TimeIndex::Many(v) => if v.len() == 0 {
                None
            } else {
                Some(v[v.len() - 1])
            },
        }
    }

    /// All times, in increasing order.
    pub fn iter(&self) -> (r: Vec<i64>)
        ensures
            r@ == self@,
    {
        match self {
            TimeIndex::Empty => Vec::new(),
            TimeIndex::One(t) => {
                let mut out: Vec<i64> = Vec::new();
                out.push(*t);
                assert(out@ =~= seq![*t]);
                out
            },
            TimeIndex::Many(v) => {
                let out = copy_range(v, 0, v.len());
                assert(v@.subrange(0, v.len() as int) =~= v@);
                out
            },
        }
    }

    /// The times in the window `[w.start, w.end)`, in increasing order.
    pub fn range(&self, w: Range<i64>) -> (r: Vec<i64>)
        requires
            self.wf(),
        ensures
            r@ == self@.filter(time_in(w.start, w.end)),
    {
        match self {
            TimeIndex::Empty => {
                proof {
                    lemma_filter_block(self@, time_in(w.start, w.end), 0, 0);
                }
                Vec::new()
            },
            TimeIndex::One(t) => {
                let mut out: Vec<i64> = Vec::new();
                if w.start <= *t && *t < w.end {
                    out.push(*t);
                    proof {
                        lemma_filter_block(self@, time_in(w.start, w.end), 0, 1);
                        assert(self@.subrange(0, 1) =~= out@);
                    }
                } else {
                    proof {
                        lemma_filter_block(self@, time_in(w.start, w.end), 0, 0);
                    }
                }
                out
            },
            TimeIndex::Many(v) => {
                let lo = lower_bound(v, w.start);
                let hi = lower_bound(v, w.end);
                if lo <= hi {
                    proof {
                        lemma_filter_block(v@, time_in(w.start, w.end), lo as int, hi as int);
                    }
                    copy_range(v, lo, hi)
                } else {
                    proof {
                        assert forall|i: int| 0 <= i < v@.len() implies !(#[trigger] time_in(
                            w.start,
                            w.end,
                        )(v@[i])) by {
                            if i < hi {
                            } else if i < lo {
                            } else {
                            }
                        }
                        lemma_filter_block(v@, time_in(w.start, w.end), 0, 0);
                    }
                    Vec::new()
                }
            },
        }
    }

    /// Whether some time lies in the window `[w.start, w.end)`.
    pub fn active(&self, w: Range<i64>) -> (b: bool)
        requires
            self.wf(),
        ensures
            b == exists|i: int| 0 <= i < self@.len() && w.start <= #[trigger] self@[i] < w.end,
    {
        match self {
            TimeIndex::Empty => false,
            TimeIndex::One(t) => {
                if w.start <= *t && *t < w.end {
                    assert(w.start <= self@[0] < w.end);
                    true
                } else {
                    false
                }
            },
            TimeIndex::Many(v) => {
                let lo = lower_bound(v, w.start);
                if lo < v.len() && v[lo] < w.end {
                    assert(w.start <= self@[lo as int] < w.end);
                    true
                } else {
                    false
                }
            },
        }
    }
}

/// A copy of the positions `lo..hi` of `v`.
fn copy_range(v: &Vec<i64>, lo: usize, hi: usize) -> (r: Vec<i64>)
    requires
        lo <= hi <= v.len(),
    ensures
        r@ == v@.subrange(lo as int, hi as int),
{
    let mut out: Vec<i64> = Vec::new();
    let mut i: usize = lo;
    while i < hi
        invariant
            lo <= i <= hi <= v.len(),
            out@ == v@.subrange(lo as int, i as int),
        decreases hi - i,
    {
        out.push(v[i]);
        assert(v@.subrange(lo as int, i as int).push(v@[i as int]) =~= v@.subrange(
            lo as int,
            i + 1,
        ));
        i += 1;
    }
    out
}

} // verus!
