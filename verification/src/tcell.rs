//! The versioned cell: the history of one property of one entity.

use crate::seq_lemmas::lemma_filter_block;
use crate::timeindex::TimeIndexEntry;
use std::ops::Range;
use vstd::prelude::*;

verus! {

/// Strictly increasing timestamps.
pub open spec fn sorted_by_time<A>(s: Seq<(TimeIndexEntry, A)>) -> bool {
    forall|i: int, j: int| 0 <= i < j < s.len() ==> (#[trigger] s[i]).0.spec_lt((#[trigger] s[j]).0)
}

/// Selects the entries written exactly at `t`.
pub open spec fn at_time<A>(t: TimeIndexEntry) -> spec_fn((TimeIndexEntry, A)) -> bool {
    |e: (TimeIndexEntry, A)| e.0 == t
}

/// Selects the entries written strictly before `t`.
pub open spec fn before_time<A>(t: TimeIndexEntry) -> spec_fn((TimeIndexEntry, A)) -> bool {
    |e: (TimeIndexEntry, A)| e.0.spec_lt(t)
}

/// Selects the entries written strictly after `t`.
pub open spec fn after_time<A>(t: TimeIndexEntry) -> spec_fn((TimeIndexEntry, A)) -> bool {
    |e: (TimeIndexEntry, A)| t.spec_lt(e.0)
}

/// Selects the entries whose logical time is at most `t`.
pub open spec fn up_to<A>(t: i64) -> spec_fn((TimeIndexEntry, A)) -> bool {
    |e: (TimeIndexEntry, A)| e.0.0 <= t
}

/// Selects the entries in the half-open window `[start, end)`.
pub open spec fn in_window<A>(start: TimeIndexEntry, end: TimeIndexEntry) -> spec_fn(
    (TimeIndexEntry, A),
) -> bool {
    |e: (TimeIndexEntry, A)| !e.0.spec_lt(start) && e.0.spec_lt(end)
}

/// Whether the history holds a value written exactly at `t`.
pub open spec fn has_time<A>(s: Seq<(TimeIndexEntry, A)>, t: TimeIndexEntry) -> bool {
    exists|i: int| 0 <= i < s.len() && (#[trigger] s[i]).0 == t
}

/// The history after a write of `v` at `t`: a timestamp that already has a
/// value keeps it and the write is dropped; a new timestamp takes its place
/// between the earlier and the later entries.
pub open spec fn cell_set<A>(s: Seq<(TimeIndexEntry, A)>, t: TimeIndexEntry, v: A) -> Seq<
    (TimeIndexEntry, A),
> {
    if has_time(s, t) {
        s
    } else {
        s.filter(before_time(t)) + seq![(t, v)] + s.filter(after_time(t))
    }
}

/// The value written exactly at `t`.
pub open spec fn cell_at<A>(s: Seq<(TimeIndexEntry, A)>, t: TimeIndexEntry) -> Option<A> {
    let hits = s.filter(at_time(t));
    if hits.len() == 0 {
        None
    } else {
        Some(hits.first().1)
    }
}

/// The latest entry whose logical time is at most `t`.
pub open spec fn cell_last_before<A>(s: Seq<(TimeIndexEntry, A)>, t: i64) -> Option<
    (TimeIndexEntry, A),
> {
    let earlier = s.filter(up_to(t));
    if earlier.len() == 0 {
        None
    } else {
        Some(earlier.last())
    }
}

/// The entries in the window `[start, end)`, in their order.
pub open spec fn cell_window<A>(
    s: Seq<(TimeIndexEntry, A)>,
    start: TimeIndexEntry,
    end: TimeIndexEntry,
) -> Seq<(TimeIndexEntry, A)> {
    s.filter(in_window(start, end))
}

/// The entries with the sequence numbers dropped from their timestamps.
pub open spec fn logical_times<A>(s: Seq<(TimeIndexEntry, A)>) -> Seq<(i64, A)> {
    s.map_values(|e: (TimeIndexEntry, A)| (e.0.0, e.1))
}

/// What a sequence of borrowed entries refers to.
pub open spec fn deref_entries<A>(s: Seq<(TimeIndexEntry, &A)>) -> Seq<(TimeIndexEntry, A)> {
    s.map_values(|e: (TimeIndexEntry, &A)| (e.0, *e.1))
}

/// Writing into a sorted history at the first position that is not before
/// `t` keeps it sorted and gives `cell_set`.
pub proof fn lemma_set_at<A>(s: Seq<(TimeIndexEntry, A)>, t: TimeIndexEntry, v: A, k: int)
    requires
        sorted_by_time(s),
        0 <= k <= s.len(),
        forall|i: int| 0 <= i < k ==> (#[trigger] s[i]).0.spec_lt(t),
        forall|i: int| k <= i < s.len() ==> t.spec_lt((#[trigger] s[i]).0),
    ensures
        !has_time(s, t),
        cell_set(s, t, v) == s.insert(k, (t, v)),
        sorted_by_time(s.insert(k, (t, v))),
{
    assert forall|i: int| 0 <= i < s.len() implies (#[trigger] before_time::<A>(t)(s[i]) <==> 0 <= i
        < k) by {
        if i < k {
            assert(s[i].0.spec_lt(t));
        } else {
            assert(t.spec_lt(s[i].0));
        }
    }
    assert forall|i: int| 0 <= i < s.len() implies (#[trigger] after_time::<A>(t)(s[i]) <==> k <= i
        < s.len()) by {
        if i < k {
            assert(s[i].0.spec_lt(t));
        } else {
            assert(t.spec_lt(s[i].0));
        }
    }
    lemma_filter_block(s, before_time(t), 0, k);
    lemma_filter_block(s, after_time(t), k, s.len() as int);
    assert(s.subrange(0, k) + seq![(t, v)] + s.subrange(k, s.len() as int) =~= s.insert(
        k,
        (t, v),
    ));
    assert forall|i: int| 0 <= i < s.len() implies (#[trigger] s[i]).0 != t by {
        if i < k {
            assert(s[i].0.spec_lt(t));
        } else {
            assert(t.spec_lt(s[i].0));
        }
    }
    let r = s.insert(k, (t, v));
    assert forall|i: int, j: int| 0 <= i < j < r.len() implies (#[trigger] r[i]).0.spec_lt(
        (#[trigger] r[j]).0,
    ) by {
        if j < k {
            assert(r[i] == s[i] && r[j] == s[j]);
        } else if j == k {
            assert(r[i] == s[i]);
        } else if i < k {
            assert(r[i] == s[i] && r[j] == s[j - 1]);
            assert(s[i].0.spec_lt(t) && t.spec_lt(s[j - 1].0));
        } else if i == k {
            assert(r[j] == s[j - 1]);
        } else {
            assert(r[i] == s[i - 1] && r[j] == s[j - 1]);
        }
    }
}

/// In a sorted history the value written at `t`, if any, sits at the first
/// position that is not before `t`.
pub proof fn lemma_at_position<A>(s: Seq<(TimeIndexEntry, A)>, t: TimeIndexEntry, k: int)
    requires
        sorted_by_time(s),
        0 <= k <= s.len(),
        forall|i: int| 0 <= i < k ==> (#[trigger] s[i]).0.spec_lt(t),
        forall|i: int| k <= i < s.len() ==> !(#[trigger] s[i]).0.spec_lt(t),
    ensures
        has_time(s, t) <==> k < s.len() && s[k].0 == t,
        cell_at(s, t) == if k < s.len() && s[k].0 == t {
            Some(s[k].1)
        } else {
            None
        },
        k < s.len() && s[k].0 != t ==> forall|i: int|
            k <= i < s.len() ==> t.spec_lt((#[trigger] s[i]).0),
{
    if k < s.len() && s[k].0 == t {
        assert forall|i: int| 0 <= i < s.len() implies (#[trigger] at_time::<A>(t)(s[i]) <==> k <= i
            < k + 1) by {
            if i < k {
                assert(s[i].0.spec_lt(t));
            } else if i > k {
                assert(s[k].0.spec_lt(s[i].0));
            }
        }
        lemma_filter_block(s, at_time(t), k, k + 1);
        assert(s.subrange(k, k + 1).first() == s[k]);
    } else {
        assert forall|i: int| 0 <= i < s.len() implies (#[trigger] s[i]).0 != t by {
            if i < k {
                assert(s[i].0.spec_lt(t));
            } else if i > k {
                assert(s[k].0.spec_lt(s[i].0));
                assert(!s[k].0.spec_lt(t));
            }
        }
        assert forall|i: int| 0 <= i < s.len() implies (#[trigger] at_time::<A>(t)(s[i]) <==> 0 <= i
            < 0) by {
            assert(s[i].0 != t);
        }
        lemma_filter_block(s, at_time(t), 0, 0);
        assert forall|i: int| k <= i < s.len() implies t.spec_lt((#[trigger] s[i]).0) by {
            assert(s[i].0 != t);
            assert(!s[i].0.spec_lt(t));
        }
    }
}

/// The position that splits a sorted history into the entries before `t`
/// and the rest.
pub proof fn lemma_split_point<A>(s: Seq<(TimeIndexEntry, A)>, t: TimeIndexEntry) -> (k: int)
    requires
        sorted_by_time(s),
    ensures
        0 <= k <= s.len(),
        forall|i: int| 0 <= i < k ==> (#[trigger] s[i]).0.spec_lt(t),
        forall|i: int| k <= i < s.len() ==> !(#[trigger] s[i]).0.spec_lt(t),
    decreases s.len(),
{
    if s.len() == 0 {
        0
    } else if s.last().0.spec_lt(t) {
        assert forall|i: int| 0 <= i < s.len() implies (#[trigger] s[i]).0.spec_lt(t) by {
            if i < s.len() - 1 {
                assert(s[i].0.spec_lt(s[s.len() - 1].0));
            }
        }
        s.len() as int
    } else {
        let r = s.drop_last();
        assert forall|i: int, j: int| 0 <= i < j < r.len() implies (#[trigger] r[i]).0.spec_lt(
            (#[trigger] r[j]).0,
        ) by {
            assert(r[i] == s[i] && r[j] == s[j]);
        }
        let k = lemma_split_point(r, t);
        assert forall|i: int| 0 <= i < k implies (#[trigger] s[i]).0.spec_lt(t) by {
            assert(r[i] == s[i]);
        }
        assert forall|i: int| k <= i < s.len() implies !(#[trigger] s[i]).0.spec_lt(t) by {
            if i < s.len() - 1 {
                assert(r[i] == s[i]);
            }
        }
        k
    }
}

/// A write keeps the history sorted, and the history then holds a value at
/// the written timestamp: the one it held before, or else the new one.
pub proof fn lemma_set_then_at<A>(s: Seq<(TimeIndexEntry, A)>, t: TimeIndexEntry, a: A)
    requires
        sorted_by_time(s),
    ensures
        sorted_by_time(cell_set(s, t, a)),
        has_time(cell_set(s, t, a), t),
        cell_at(cell_set(s, t, a), t) == if has_time(s, t) {
            cell_at(s, t)
        } else {
            Some(a)
        },
{
    if !has_time(s, t) {
        let k = lemma_split_point(s, t);
        lemma_at_position(s, t, k);
        lemma_set_at(s, t, a, k);
        let r = s.insert(k, (t, a));
        assert(r[k] == (t, a));
        assert forall|i: int| 0 <= i < k implies (#[trigger] r[i]).0.spec_lt(t) by {
            assert(r[i] == s[i]);
        }
        assert forall|i: int| k <= i < r.len() implies !(#[trigger] r[i]).0.spec_lt(t) by {
            if i > k {
                assert(r[i] == s[i - 1]);
                assert(t.spec_lt(s[i - 1].0));
            }
        }
        lemma_at_position(r, t, k);
    }
}

/// Of two writes at the same timestamp only the first counts: the second
/// leaves the history as the first left it, so a read at that timestamp
/// gives the first value.
pub proof fn lemma_first_write_wins<A>(s: Seq<(TimeIndexEntry, A)>, t: TimeIndexEntry, a: A, b: A)
    requires
        sorted_by_time(s),
    ensures
        cell_set(cell_set(s, t, a), t, b) == cell_set(s, t, a),
        !has_time(s, t) ==> cell_at(cell_set(cell_set(s, t, a), t, b), t) == Some(a),
        s.len() == 0 ==> cell_at(cell_set(cell_set(s, t, a), t, b), t) == Some(a),
{
    lemma_set_then_at(s, t, a);
}

/// A window of a sorted history is sorted, and holds exactly the entries of
/// the history whose timestamp lies in the window.
pub proof fn lemma_window_of_sorted<A>(
    s: Seq<(TimeIndexEntry, A)>,
    start: TimeIndexEntry,
    end: TimeIndexEntry,
)
    requires
        sorted_by_time(s),
    ensures
        sorted_by_time(cell_window(s, start, end)),
        forall|e: (TimeIndexEntry, A)|
            cell_window(s, start, end).contains(e) <==> (s.contains(e) && !e.0.spec_lt(start)
                && e.0.spec_lt(end)),
{
    let k = lemma_split_point(s, start);
    let m = lemma_split_point(s, end);
    let p = in_window::<A>(start, end);
    let (lo, hi) = if k <= m {
        (k, m)
    } else {
        (0, 0)
    };
    assert forall|i: int| 0 <= i < s.len() implies (#[trigger] p(s[i]) <==> lo <= i < hi) by {
        if i < k {
            assert(s[i].0.spec_lt(start));
        } else {
            assert(!s[i].0.spec_lt(start));
        }
        if i < m {
            assert(s[i].0.spec_lt(end));
        } else {
            assert(!s[i].0.spec_lt(end));
        }
    }
    lemma_filter_block(s, p, lo, hi);
    let w = cell_window(s, start, end);
    assert forall|i: int, j: int| 0 <= i < j < w.len() implies (#[trigger] w[i]).0.spec_lt(
        (#[trigger] w[j]).0,
    ) by {
        assert(w[i] == s[lo + i] && w[j] == s[lo + j]);
    }
    assert forall|e: (TimeIndexEntry, A)|
        w.contains(e) <==> (s.contains(e) && !e.0.spec_lt(start) && e.0.spec_lt(end)) by {
        if w.contains(e) {
            let i = choose|i: int| 0 <= i < w.len() && w[i] == e;
            assert(s[lo + i] == e);
            assert(p(s[lo + i]));
        }
        if s.contains(e) && !e.0.spec_lt(start) && e.0.spec_lt(end) {
            let i = choose|i: int| 0 <= i < s.len() && s[i] == e;
            assert(p(s[i]));
            assert(w[i - lo] == e);
        }
    }
}

/// One property's history: values keyed by the timestamp of the write that
/// set them, kept in increasing timestamp order.
#[derive(Debug, PartialEq)]
pub struct TCell<A> {
    entries: Vec<(TimeIndexEntry, A)>,
}

impl<A> View for TCell<A> {
    type V = Seq<(TimeIndexEntry, A)>;

    closed spec fn view(&self) -> Seq<(TimeIndexEntry, A)> {
        self.entries@
    }
}

impl<A> TCell<A> {
    /// The timestamps are strictly increasing.
    pub open spec fn wf(&self) -> bool {
        sorted_by_time(self@)
    }

    /// The cell without any write.
    pub fn empty() -> (r: TCell<A>)
        ensures
            r.wf(),
            r@ == Seq::<(TimeIndexEntry, A)>::empty(),
    {
        TCell { entries: Vec::new() }
    }

    /// The cell after one write.
    pub fn new(t: TimeIndexEntry, value: A) -> (r: TCell<A>)
        ensures
            r.wf(),
            r@ == seq![(t, value)],
    {
        let mut entries: Vec<(TimeIndexEntry, A)> = Vec::new();
        entries.push((t, value));
        assert(entries@ =~= seq![(t, value)]);
        TCell { entries }
    }

    pub fn len(&self) -> (n: usize)
        ensures
            n == self@.len(),
    {
        self.entries.len()
    }

    /// The `i`-th entry in timestamp order.
    pub fn entry(&self, i: usize) -> (r: (TimeIndexEntry, &A))
        requires
            i < self@.len(),
        ensures
            r.0 == self@[i as int].0,
            *r.1 == self@[i as int].1,
    {
        (self.entries[i].0, &self.entries[i].1)
    }

    /// The number of entries that come before `bound`, or, if `inclusive`,
    /// before or at it.
    fn rank(&self, bound: &TimeIndexEntry, inclusive: bool) -> (k: usize)
        requires
            self.wf(),
        ensures
            k <= self@.len(),
            forall|i: int|
                0 <= i < k ==> if inclusive {
                    !bound.spec_lt((#[trigger] self@[i]).0)
                } else {
                    (#[trigger] self@[i]).0.spec_lt(*bound)
                },
            forall|i: int|
                k <= i < self@.len() ==> if inclusive {
                    bound.spec_lt((#[trigger] self@[i]).0)
                } else {
                    !(#[trigger] self@[i]).0.spec_lt(*bound)
                },
    {
        let mut lo: usize = 0;
        let mut hi: usize = self.entries.len();
        while lo < hi
            invariant
                lo <= hi <= self.entries.len(),
                self.wf(),
                forall|i: int|
                    0 <= i < lo ==> if inclusive {
                        !bound.spec_lt((#[trigger] self@[i]).0)
                    } else {
                        (#[trigger] self@[i]).0.spec_lt(*bound)
                    },
                forall|i: int|
                    hi <= i < self@.len() ==> if inclusive {
                        bound.spec_lt((#[trigger] self@[i]).0)
                    } else {
                        !(#[trigger] self@[i]).0.spec_lt(*bound)
                    },
            decreases hi - lo,
        {
            let mid = lo + (hi - lo) / 2;
            let key = self.entries[mid].0;
            let low = if inclusive {
                !bound.lt(&key)
            } else {
                key.lt(bound)
            };
            if low {
                assert forall|i: int| 0 <= i < mid + 1 implies if inclusive {
                    !bound.spec_lt((#[trigger] self@[i]).0)
                } else {
                    (#[trigger] self@[i]).0.spec_lt(*bound)
                } by {
                    if i < mid {
                        assert(self@[i].0.spec_lt(self@[mid as int].0));
                    }
                }
                lo = mid + 1;
            } else {
                assert forall|i: int| mid <= i < self@.len() implies if inclusive {
                    bound.spec_lt((#[trigger] self@[i]).0)
                } else {
                    !(#[trigger] self@[i]).0.spec_lt(*bound)
                } by {
                    if i > mid {
                        assert(self@[mid as int].0.spec_lt(self@[i].0));
                    }
                }
                hi = mid;
            }
        }
        lo
    }

    /// Records `value` at `t`. If the cell already holds a value written at
    /// exactly `t`, that value stays and `value` is dropped.
    pub fn set(&mut self, t: TimeIndexEntry, value: A)
        requires
            old(self).wf(),
        ensures
            final(self).wf(),
            final(self)@ == cell_set(old(self)@, t, value),
            final(self)@.len() >= old(self)@.len(),
            final(self)@.len() > 0,
    {
        let k = self.rank(&t, false);
        proof {
            lemma_at_position(self@, t, k as int);
        }
        if k < self.entries.len() && self.entries[k].0 == t {
        } else {
            proof {
                lemma_set_at(self@, t, value, k as int);
            }
            self.entries.insert(k, (t, value));
        }
    }

    /// The value written at exactly `ti`.
    pub fn at(&self, ti: &TimeIndexEntry) -> (r: Option<&A>)
        requires
            self.wf(),
        ensures
            match r {
                Some(v) => cell_at(self@, *ti) == Some(*v),
                None => cell_at(self@, *ti).is_none(),
            },
    {
        let k = self.rank(ti, false);
        proof {
            lemma_at_position(self@, *ti, k as int);
        }
        if k < self.entries.len() && self.entries[k].0 == *ti {
            Some(&self.entries[k].1)
        } else {
            None
        }
    }

    /// The number of entries whose logical time is at most `t`.
    pub fn count_up_to(&self, t: i64) -> (k: usize)
        requires
            self.wf(),
        ensures
            k <= self@.len(),
            self@.filter(up_to(t)) == self@.subrange(0, k as int),
    {
        let bound = TimeIndexEntry::end(t);
        let k = self.rank(&bound, true);
        proof {
            assert forall|i: int| 0 <= i < self@.len() implies (#[trigger] up_to::<A>(t)(self@[i])
                <==> 0 <= i < k) by {
                if i < k {
                    assert(!bound.spec_lt(self@[i].0));
                } else {
                    assert(bound.spec_lt(self@[i].0));
                }
            }
            lemma_filter_block(self@, up_to(t), 0, k as int);
        }
        k
    }

    /// The latest entry whose logical time is at most `t`.
    pub fn last_before(&self, t: i64) -> (r: Option<(TimeIndexEntry, &A)>)
        requires
            self.wf(),
        ensures
            match r {
                Some(e) => cell_last_before(self@, t) == Some((e.0, *e.1)),
                None => cell_last_before(self@, t).is_none(),
            },
    {
        let k = self.count_up_to(t);
        if k == 0 {
            None
        } else {
            Some((self.entries[k - 1].0, &self.entries[k - 1].1))
        }
    }

    /// The positions `lo..hi` of the entries in the window `[start, end)`.
    pub fn window_bounds(&self, start: &TimeIndexEntry, end: &TimeIndexEntry) -> (r: (usize, usize))
        requires
            self.wf(),
        ensures
            r.0 <= r.1 <= self@.len(),
            cell_window(self@, *start, *end) == self@.subrange(r.0 as int, r.1 as int),
    {
        let lo = self.rank(start, false);
        let hi = self.rank(end, false);
        if lo <= hi {
            proof {
                assert forall|i: int| 0 <= i < self@.len() implies (#[trigger] in_window::<A>(
                    *start,
                    *end,
                )(self@[i]) <==> lo <= i < hi) by {
                    if i < lo {
                        assert(self@[i].0.spec_lt(*start));
                    } else {
                        assert(!self@[i].0.spec_lt(*start));
                    }
                    if i < hi {
                        assert(self@[i].0.spec_lt(*end));
                    } else {
                        assert(!self@[i].0.spec_lt(*end));
                    }
                }
                lemma_filter_block(self@, in_window(*start, *end), lo as int, hi as int);
            }
            (lo, hi)
        } else {
            proof {
                assert forall|i: int| 0 <= i < self@.len() implies (#[trigger] in_window::<A>(
                    *start,
                    *end,
                )(self@[i]) <==> 0 <= i < 0) by {
                    if i < hi {
                        assert(self@[i].0.spec_lt(*start));
                    } else {
                        assert(!self@[i].0.spec_lt(*end));
                    }
                }
                lemma_filter_block(self@, in_window(*start, *end), 0, 0);
            }
            (0, 0)
        }
    }

    /// Borrows the entries at positions `lo..hi`.
    fn borrow_range(&self, lo: usize, hi: usize) -> (r: Vec<(TimeIndexEntry, &A)>)
        requires
            lo <= hi <= self@.len(),
        ensures
            deref_entries(r@) == self@.subrange(lo as int, hi as int),
    {
        let mut out: Vec<(TimeIndexEntry, &A)> = Vec::new();
        let mut i: usize = lo;
        assert(deref_entries(out@) =~= self@.subrange(lo as int, i as int));
        while i < hi
            invariant
                lo <= i <= hi <= self@.len(),
                deref_entries(out@) == self@.subrange(lo as int, i as int),
            decreases hi - i,
        {
            let ghost before = out@;
            out.push((self.entries[i].0, &self.entries[i].1));
            assert(deref_entries(out@) =~= deref_entries(before).push(self@[i as int]));
            assert(self@.subrange(lo as int, i as int).push(self@[i as int]) =~= self@.subrange(
                lo as int,
                i + 1,
            ));
            i += 1;
        }
        out
    }

    /// Every entry, in increasing timestamp order.
    pub fn iter(&self) -> (r: Vec<(TimeIndexEntry, &A)>)
        requires
            self.wf(),
        ensures
            deref_entries(r@) == self@,
            sorted_by_time(deref_entries(r@)),
    {
        let out = self.borrow_range(0, self.entries.len());
        assert(self@.subrange(0, self@.len() as int) =~= self@);
        out
    }

    /// The entries in the window `[w.start, w.end)`, in increasing
    /// timestamp order.
    pub fn iter_window(&self, w: Range<TimeIndexEntry>) -> (r: Vec<(TimeIndexEntry, &A)>)
        requires
            self.wf(),
        ensures
            deref_entries(r@) == cell_window(self@, w.start, w.end),
            sorted_by_time(deref_entries(r@)),
    {
        proof {
            lemma_window_of_sorted(self@, w.start, w.end);
        }
        let (lo, hi) = self.window_bounds(&w.start, &w.end);
        self.borrow_range(lo, hi)
    }

    /// The entries whose logical time lies in `[w.start, w.end)`, in
    /// increasing timestamp order.
    pub fn iter_window_t(&self, w: Range<i64>) -> (r: Vec<(TimeIndexEntry, &A)>)
        requires
            self.wf(),
        ensures
            deref_entries(r@) == cell_window(
                self@,
                TimeIndexEntry::spec_start(w.start),
                TimeIndexEntry::spec_start(w.end),
            ),
    {
        self.iter_window(TimeIndexEntry::range(w))
    }
}

} // verus!
