//! Adjacency of one node in one layer: for each direction a sorted
//! association from neighbour to edge.

use crate::entities::{Dir, Direction, EID, VID};
use crate::merging::{merge_two_unique, strictly_ascending};
use crate::seq_lemmas::lemma_filter_block;
use vstd::prelude::*;

verus! {

/// Strictly increasing neighbour ids.
pub open spec fn sorted_by_neighbour(s: Seq<(VID, EID)>) -> bool {
    forall|i: int, j: int| 0 <= i < j < s.len() ==> (#[trigger] s[i]).0.0 < (#[trigger] s[j]).0.0
}

/// Selects the entry of neighbour `v`.
pub open spec fn neighbour_is(v: VID) -> spec_fn((VID, EID)) -> bool {
    |e: (VID, EID)| e.0 == v
}

/// Selects the entries of neighbours with a smaller id than `v`.
pub open spec fn neighbour_below(v: VID) -> spec_fn((VID, EID)) -> bool {
    |e: (VID, EID)| e.0.0 < v.0
}

/// Selects the entries of neighbours with a larger id than `v`.
pub open spec fn neighbour_above(v: VID) -> spec_fn((VID, EID)) -> bool {
    |e: (VID, EID)| v.0 < e.0.0
}

/// Whether `v` is a neighbour in `s`.
pub open spec fn has_neighbour(s: Seq<(VID, EID)>, v: VID) -> bool {
    exists|i: int| 0 <= i < s.len() && (#[trigger] s[i]).0 == v
}

/// The edge that leads to neighbour `v`.
pub open spec fn adj_find(s: Seq<(VID, EID)>, v: VID) -> Option<EID> {
    let hits = s.filter(neighbour_is(v));
    if hits.len() == 0 {
        None
    } else {
        Some(hits.first().1)
    }
}

/// The association after `v -> e` is added: a neighbour that is already
/// there keeps its edge; a new one takes its place in neighbour order.
pub open spec fn adj_add(s: Seq<(VID, EID)>, v: VID, e: EID) -> Seq<(VID, EID)> {
    if has_neighbour(s, v) {
        s
    } else {
        s.filter(neighbour_below(v)) + seq![(v, e)] + s.filter(neighbour_above(v))
    }
}

/// The neighbours, in the order of the entries.
pub open spec fn neighbours_of(s: Seq<(VID, EID)>) -> Seq<VID> {
    s.map_values(|e: (VID, EID)| e.0)
}

/// What is left to hand out once the entry of neighbour `last` has gone
/// out; everything, if nothing has.
pub open spec fn rest_after(s: Seq<(VID, EID)>, last: Option<VID>) -> Seq<(VID, EID)> {
    match last {
        None => s,
        Some(v) => s.filter(neighbour_above(v)),
    }
}

/// The next page: the first `cap` entries of what is left after `last`, or
/// all of it if that is less.
pub open spec fn page_after(s: Seq<(VID, EID)>, last: Option<VID>, cap: nat) -> Seq<(VID, EID)> {
    let rest = rest_after(s, last);
    if rest.len() <= cap {
        rest
    } else {
        rest.take(cap as int)
    }
}

/// All pages of capacity `cap` from the cursor `last` on, one after the
/// other: a full page is followed by the pages after its last neighbour, a
/// partial page ends the traversal.
pub open spec fn paged(s: Seq<(VID, EID)>, last: Option<VID>, cap: nat) -> Seq<(VID, EID)>
    decreases rest_after(s, last).len(),
    when sorted_by_neighbour(s) && cap > 0
{
    let page = page_after(s, last, cap);
    if page.len() < cap {
        page
    } else {
        proof {
            lemma_rest_after_page(s, last, cap);
        }
        page + paged(s, Some(page.last().0), cap)
    }
}

/// In a sorted association, what is left after a cursor is a suffix.
pub proof fn lemma_rest_is_suffix(s: Seq<(VID, EID)>, last: Option<VID>) -> (k: int)
    requires
        sorted_by_neighbour(s),
    ensures
        0 <= k <= s.len(),
        rest_after(s, last) == s.skip(k),
        last matches Some(v) ==> (forall|i: int| 0 <= i < k ==> (#[trigger] s[i]).0.0 <= v.0) && (
        forall|i: int| k <= i < s.len() ==> (#[trigger] s[i]).0.0 > v.0),
        last is None ==> k == 0,
{
    match last {
        None => {
            assert(s.skip(0) =~= s);
            0
        },
        Some(v) => {
            let k = lemma_count_up_to(s, v);
            assert forall|i: int| 0 <= i < s.len() implies (#[trigger] neighbour_above(v)(s[i])
                <==> k <= i < s.len()) by {
                if i < k {
                    assert(s[i].0.0 <= v.0);
                } else {
                    assert(s[i].0.0 > v.0);
                }
            }
            lemma_filter_block(s, neighbour_above(v), k, s.len() as int);
            assert(s.subrange(k, s.len() as int) =~= s.skip(k));
            k
        },
    }
}

/// The number of entries whose neighbour id is at most that of `v`.
pub proof fn lemma_count_up_to(s: Seq<(VID, EID)>, v: VID) -> (k: int)
    requires
        sorted_by_neighbour(s),
    ensures
        0 <= k <= s.len(),
        forall|i: int| 0 <= i < k ==> (#[trigger] s[i]).0.0 <= v.0,
        forall|i: int| k <= i < s.len() ==> (#[trigger] s[i]).0.0 > v.0,
    decreases s.len(),
{
    if s.len() == 0 {
        0
    } else if s.last().0.0 <= v.0 {
        assert forall|i: int| 0 <= i < s.len() implies (#[trigger] s[i]).0.0 <= v.0 by {
            if i < s.len() - 1 {
                assert(s[i].0.0 < s[s.len() - 1].0.0);
            }
        }
        s.len() as int
    } else {
        let r = s.drop_last();
        assert forall|i: int, j: int| 0 <= i < j < r.len() implies (#[trigger] r[i]).0.0 < (
        #[trigger] r[j]).0.0 by {
            assert(r[i] == s[i] && r[j] == s[j]);
        }
        let k = lemma_count_up_to(r, v);
        assert forall|i: int| 0 <= i < k implies (#[trigger] s[i]).0.0 <= v.0 by {
            assert(r[i] == s[i]);
        }
        assert forall|i: int| k <= i < s.len() implies (#[trigger] s[i]).0.0 > v.0 by {
            if i < s.len() - 1 {
                assert(r[i] == s[i]);
            }
        }
        k
    }
}

/// After a full page, what is left is what was left before without that
/// page.
pub proof fn lemma_rest_after_page(s: Seq<(VID, EID)>, last: Option<VID>, cap: nat)
    requires
        sorted_by_neighbour(s),
        cap > 0,
        page_after(s, last, cap).len() >= cap,
    ensures
        page_after(s, last, cap).len() == cap,
        rest_after(s, Some(page_after(s, last, cap).last().0)) == rest_after(s, last).skip(
            cap as int,
        ),
        rest_after(s, Some(page_after(s, last, cap).last().0)).len() < rest_after(s, last).len(),
{
    let k = lemma_rest_is_suffix(s, last);
    let rest = rest_after(s, last);
    let page = page_after(s, last, cap);
    assert(page.len() == cap);
    assert(page.last() == s[k + cap - 1]);
    let v = page.last().0;
    let k2 = lemma_rest_is_suffix(s, Some(v));
    assert(k2 == k + cap) by {
        if k2 < k + cap {
            assert(s[k2].0.0 > v.0);
            if k2 < k + cap - 1 {
                assert(s[k2].0.0 < s[k + cap - 1].0.0);
            }
        }
        if k2 > k + cap {
            assert(s[k + cap].0.0 <= v.0);
            assert(s[k + cap - 1].0.0 < s[k + cap].0.0);
        }
    }
    assert(s.skip(k2) =~= s.skip(k).skip(cap as int));
}

/// Paged traversal, with any page capacity, hands out what is left after
/// the cursor: every entry once, in neighbour order.
pub proof fn lemma_paged_is_rest(s: Seq<(VID, EID)>, last: Option<VID>, cap: nat)
    requires
        sorted_by_neighbour(s),
        cap > 0,
    ensures
        paged(s, last, cap) == rest_after(s, last),
    decreases rest_after(s, last).len(),
{
    let page = page_after(s, last, cap);
    let rest = rest_after(s, last);
    if page.len() < cap {
    } else {
        lemma_rest_after_page(s, last, cap);
        lemma_paged_is_rest(s, Some(page.last().0), cap);
        assert(rest.take(cap as int) + rest.skip(cap as int) =~= rest);
        assert(page + rest.skip(cap as int) =~= rest) by {
            if rest.len() <= cap {
                assert(rest.skip(cap as int) =~= Seq::empty());
                assert(page + rest.skip(cap as int) =~= rest);
            }
        }
    }
}

/// Concatenating all pages of a paged traversal from the start, with any
/// page capacity, gives the unpaged sequence.
pub proof fn lemma_paged_is_whole(s: Seq<(VID, EID)>, cap: nat)
    requires
        sorted_by_neighbour(s),
        cap > 0,
    ensures
        paged(s, None, cap) == s,
{
    lemma_paged_is_rest(s, None, cap);
}

/// Adding into a sorted association at the first position that is not
/// below `v` keeps it sorted and gives `adj_add`.
pub proof fn lemma_add_at(s: Seq<(VID, EID)>, v: VID, e: EID, k: int)
    requires
        sorted_by_neighbour(s),
        0 <= k <= s.len(),
        forall|i: int| 0 <= i < k ==> (#[trigger] s[i]).0.0 < v.0,
        forall|i: int| k <= i < s.len() ==> (#[trigger] s[i]).0.0 > v.0,
    ensures
        !has_neighbour(s, v),
        adj_add(s, v, e) == s.insert(k, (v, e)),
        sorted_by_neighbour(s.insert(k, (v, e))),
{
    assert forall|i: int| 0 <= i < s.len() implies (#[trigger] neighbour_below(v)(s[i]) <==> 0 <= i
        < k) by {
        if i < k {
            assert(s[i].0.0 < v.0);
        } else {
            assert(s[i].0.0 > v.0);
        }
    }
    assert forall|i: int| 0 <= i < s.len() implies (#[trigger] neighbour_above(v)(s[i]) <==> k <= i
        < s.len()) by {
        if i < k {
            assert(s[i].0.0 < v.0);
        } else {
            assert(s[i].0.0 > v.0);
        }
    }
    lemma_filter_block(s, neighbour_below(v), 0, k);
    lemma_filter_block(s, neighbour_above(v), k, s.len() as int);
    assert(s.subrange(0, k) + seq![(v, e)] + s.subrange(k, s.len() as int) =~= s.insert(
        k,
        (v, e),
    ));
    assert forall|i: int| 0 <= i < s.len() implies (#[trigger] s[i]).0 != v by {
        if i < k {
            assert(s[i].0.0 < v.0);
        } else {
            assert(s[i].0.0 > v.0);
        }
    }
    let r = s.insert(k, (v, e));
    assert forall|i: int, j: int| 0 <= i < j < r.len() implies (#[trigger] r[i]).0.0 < (
    #[trigger] r[j]).0.0 by {
        if j < k {
            assert(r[i] == s[i] && r[j] == s[j]);
        } else if j == k {
            assert(r[i] == s[i]);
        } else if i < k {
            assert(r[i] == s[i] && r[j] == s[j - 1]);
            assert(s[i].0.0 < v.0 && v.0 < s[j - 1].0.0);
        } else if i == k {
            assert(r[j] == s[j - 1]);
        } else {
            assert(r[i] == s[i - 1] && r[j] == s[j - 1]);
        }
    }
}

/// In a sorted association the entry of `v`, if any, sits at the first
/// position that is not below `v`.
pub proof fn lemma_find_position(s: Seq<(VID, EID)>, v: VID, k: int)
    requires
        sorted_by_neighbour(s),
        0 <= k <= s.len(),
        forall|i: int| 0 <= i < k ==> (#[trigger] s[i]).0.0 < v.0,
        forall|i: int| k <= i < s.len() ==> (#[trigger] s[i]).0.0 >= v.0,
    ensures
        has_neighbour(s, v) <==> k < s.len() && s[k].0 == v,
        adj_find(s, v) == if k < s.len() && s[k].0 == v {
            Some(s[k].1)
        } else {
            None
        },
        k < s.len() && s[k].0 != v ==> forall|i: int|
            k <= i < s.len() ==> (#[trigger] s[i]).0.0 > v.0,
{
    if k < s.len() && s[k].0 == v {
        assert forall|i: int| 0 <= i < s.len() implies (#[trigger] neighbour_is(v)(s[i]) <==> k <= i
            < k + 1) by {
            if i < k {
                assert(s[i].0.0 < v.0);
            } else if i > k {
                assert(s[k].0.0 < s[i].0.0);
            }
        }
        lemma_filter_block(s, neighbour_is(v), k, k + 1);
        assert(s.subrange(k, k + 1).first() == s[k]);
    } else {
        assert forall|i: int| 0 <= i < s.len() implies (#[trigger] s[i]).0 != v by {
            if i < k {
                assert(s[i].0.0 < v.0);
            } else if i > k {
                assert(s[k].0.0 < s[i].0.0);
                assert(s[k].0.0 >= v.0);
            } else {
                assert(s[k].0.0 >= v.0);
            }
        }
        assert forall|i: int| 0 <= i < s.len() implies (#[trigger] neighbour_is(v)(s[i]) <==> 0 <= i
            < 0) by {
            assert(s[i].0 != v);
        }
        lemma_filter_block(s, neighbour_is(v), 0, 0);
        assert forall|i: int| k <= i < s.len() implies (#[trigger] s[i]).0.0 > v.0 by {
            assert(s[i].0 != v);
            assert(s[i].0.0 >= v.0);
        }
    }
}

/// A sorted association from neighbour to edge.
#[derive(Debug, PartialEq, Eq)]
pub struct AdjSet {
    entries: Vec<(VID, EID)>,
}

impl View for AdjSet {
    type V = Seq<(VID, EID)>;

    closed spec fn view(&self) -> Seq<(VID, EID)> {
        self.entries@
    }
}

impl AdjSet {
    /// The neighbour ids are strictly increasing.
    pub open spec fn wf(&self) -> bool {
        sorted_by_neighbour(self@)
    }

    pub fn new() -> (r: AdjSet)
        ensures
            r.wf(),
            r@ == Seq::<(VID, EID)>::empty(),
    {
        AdjSet { entries: Vec::new() }
    }

    pub fn len(&self) -> (n: usize)
        ensures
            n == self@.len(),
    {
        self.entries.len()
    }

    pub fn is_empty(&self) -> (b: bool)
        ensures
            b == (self@.len() == 0),
    {
        self.entries.len() == 0
    }

    /// The number of entries whose neighbour id is below that of `v`, or,
    /// if `inclusive`, at most that of `v`.
    fn rank(&self, v: VID, inclusive: bool) -> (k: usize)
        requires
            self.wf(),
        ensures
            k <= self@.len(),
            forall|i: int|
                0 <= i < k ==> if inclusive {
                    (#[trigger] self@[i]).0.0 <= v.0
                } else {
                    (#[trigger] self@[i]).0.0 < v.0
                },
            forall|i: int|
                k <= i < self@.len() ==> if inclusive {
                    (#[trigger] self@[i]).0.0 > v.0
                } else {
                    (#[trigger] self@[i]).0.0 >= v.0
                },
    {
        let mut lo: usize = 0;
        let mut hi: usize = self.entries.len();
        while lo < hi
            invariant
                lo <= hi <= self.entries.len(),
                self.wf(),
                forall|i: int|
                    0 <= i < lo ==> if inclusive {
                        (#[trigger] self@[i]).0.0 <= v.0
                    } else {
                        (#[trigger] self@[i]).0.0 < v.0
                    },
                forall|i: int|
                    hi <= i < self@.len() ==> if inclusive {
                        (#[trigger] self@[i]).0.0 > v.0
                    } else {
                        (#[trigger] self@[i]).0.0 >= v.0
                    },
            decreases hi - lo,
        {
            let mid = lo + (hi - lo) / 2;
            let key = self.entries[mid].0.0;
            let low = if inclusive {
                key <= v.0
            } else {
                key < v.0
            };
            if low {
                assert forall|i: int| 0 <= i < mid + 1 implies if inclusive {
                    (#[trigger] self@[i]).0.0 <= v.0
                } else {
                    (#[trigger] self@[i]).0.0 < v.0
                } by {
                    if i < mid {
                        assert(self@[i].0.0 < self@[mid as int].0.0);
                    }
                }
                lo = mid + 1;
            } else {
                assert forall|i: int| mid <= i < self@.len() implies if inclusive {
                    (#[trigger] self@[i]).0.0 > v.0
                } else {
                    (#[trigger] self@[i]).0.0 >= v.0
                } by {
                    if i > mid {
                        assert(self@[mid as int].0.0 < self@[i].0.0);
                    }
                }
                hi = mid;
            }
        }
        lo
    }

    /// Adds `v -> e`. A neighbour that is already there keeps its edge.
    pub fn push(&mut self, v: VID, e: EID)
        requires
            old(self).wf(),
        ensures
            final(self).wf(),
            final(self)@ == adj_add(old(self)@, v, e),
    {
        let k = self.rank(v, false);
        proof {
            lemma_find_position(self@, v, k as int);
        }
        if k < self.entries.len() && self.entries[k].0 == v {
        } else {
            proof {
                lemma_add_at(self@, v, e, k as int);
            }
            self.entries.insert(k, (v, e));
        }
    }

    /// The edge that leads to neighbour `v`.
    pub fn find(&self, v: VID) -> (r: Option<EID>)
        requires
            self.wf(),
        ensures
            r == adj_find(self@, v),
            r is Some <==> has_neighbour(self@, v),
    {
        let k = self.rank(v, false);
        proof {
            lemma_find_position(self@, v, k as int);
        }
        if k < self.entries.len() && self.entries[k].0 == v {
            Some(self.entries[k].1)
        } else {
            None
        }
    }

    /// Every entry, in neighbour order.
    pub fn iter(&self) -> (r: Vec<(VID, EID)>)
        ensures
            r@ == self@,
    {
        let mut out: Vec<(VID, EID)> = Vec::new();
        let mut i: usize = 0;
        while i < self.entries.len()
            invariant
                i <= self.entries.len(),
                out@ == self@.take(i as int),
            decreases self.entries.len() - i,
        {
            out.push(self.entries[i]);
            assert(self@.take(i as int).push(self@[i as int]) =~= self@.take(i + 1));
            i += 1;
        }
        assert(self@.take(self@.len() as int) =~= self@);
        out
    }

    /// Every neighbour, in ascending order.
    pub fn vertices(&self) -> (r: Vec<VID>)
        requires
            self.wf(),
        ensures
            r@ == neighbours_of(self@),
            strictly_ascending(r@),
            forall|v: VID| r@.contains(v) <==> has_neighbour(self@, v),
    {
        let mut out: Vec<VID> = Vec::new();
        let mut i: usize = 0;
        while i < self.entries.len()
            invariant
                i <= self.entries.len(),
                out@ == neighbours_of(self@.take(i as int)),
            decreases self.entries.len() - i,
        {
            out.push(self.entries[i].0);
            assert(neighbours_of(self@.take(i as int)).push(self@[i as int].0) =~= neighbours_of(
                self@.take(i + 1),
            ));
            i += 1;
        }
        assert(self@.take(self@.len() as int) =~= self@);
        proof {
            let r = out@;
            assert forall|v: VID| r.contains(v) <==> has_neighbour(self@, v) by {
                if r.contains(v) {
                    let k = choose|k: int| 0 <= k < r.len() && r[k] == v;
                    assert(self@[k].0 == v);
                }
                if has_neighbour(self@, v) {
                    let k = choose|k: int| 0 <= k < self@.len() && (#[trigger] self@[k]).0 == v;
                    assert(r[k] == v);
                }
            }
            assert forall|i: int, j: int| 0 <= i < j < r.len() implies r[i].0 < r[j].0 by {
                assert(self@[i].0.0 < self@[j].0.0);
            }
        }
        out
    }

    /// Refills `page` with the next page after the cursor `last`: at most
    /// `cap` entries, in neighbour order. Returns how many there are.
    pub fn fill_page(&self, last: Option<VID>, page: &mut Vec<(VID, EID)>, cap: usize) -> (n: usize)
        requires
            self.wf(),
        ensures
            final(page)@ == page_after(self@, last, cap as nat),
            n == final(page)@.len(),
            n <= cap,
    {
        let start = match last {
            None => 0,
            Some(v) => self.rank(v, true),
        };
        proof {
            let k = lemma_rest_is_suffix(self@, last);
            if last is Some {
                let v = last->Some_0;
                if k < start {
                    assert(self@[k].0.0 > v.0);
                    assert(self@[k].0.0 <= v.0);
                }
                if start < k {
                    assert(self@[start as int].0.0 <= v.0);
                    assert(self@[start as int].0.0 > v.0);
                }
            }
            assert(k == start);
        }
        let len = self.entries.len();
        let end = if len - start <= cap {
            len
        } else {
            start + cap
        };
        page.clear();
        let mut i: usize = start;
        while i < end
            invariant
                start <= i <= end <= self.entries.len(),
                page@ == self@.subrange(start as int, i as int),
            decreases end - i,
        {
            page.push(self.entries[i]);
            assert(self@.subrange(start as int, i as int).push(self@[i as int]) =~= self@.subrange(
                start as int,
                i + 1,
            ));
            i += 1;
        }
        proof {
            let rest = self@.skip(start as int);
            if rest.len() <= cap {
                assert(self@.subrange(start as int, end as int) =~= rest);
            } else {
                assert(self@.subrange(start as int, end as int) =~= rest.take(cap as int));
            }
        }
        page.len()
    }
}

/// What one node's adjacency in one layer holds.
pub struct AdjView {
    /// Neighbour `v` with edge `e` for the edge `e` from this node to `v`.
    pub out: Seq<(VID, EID)>,
    /// Neighbour `v` with edge `e` for the edge `e` from `v` to this node.
    pub into: Seq<(VID, EID)>,
}

impl AdjView {
    /// The adjacency without any edge.
    pub open spec fn solo() -> AdjView {
        AdjView { out: Seq::empty(), into: Seq::empty() }
    }

    /// Both associations are sorted by neighbour.
    pub open spec fn wf(self) -> bool {
        sorted_by_neighbour(self.out) && sorted_by_neighbour(self.into)
    }

    /// The association of one direction.
    pub open spec fn entries(self, dir: Dir) -> Seq<(VID, EID)> {
        match dir {
            Dir::Out => self.out,
            Dir::Into => self.into,
        }
    }

    /// Whether `v` is a neighbour in direction `d`.
    pub open spec fn has_neighbour_in(self, d: Direction, v: VID) -> bool {
        match d {
            Direction::OUT => has_neighbour(self.out, v),
            Direction::IN => has_neighbour(self.into, v),
            Direction::BOTH => has_neighbour(self.out, v) || has_neighbour(self.into, v),
        }
    }

    /// The neighbours in direction `d`.
    pub open spec fn neighbour_set(self, d: Direction) -> Set<VID> {
        Set::new(|v: VID| self.has_neighbour_in(d, v))
    }

    /// The edge to or from `v` in direction `d`; for `BOTH` the outgoing
    /// one if there is one, else the incoming one.
    pub open spec fn get_edge(self, v: VID, d: Direction) -> Option<EID> {
        match d {
            Direction::OUT => adj_find(self.out, v),
            Direction::IN => adj_find(self.into, v),
            Direction::BOTH => match adj_find(self.out, v) {
                Some(e) => Some(e),
                None => adj_find(self.into, v),
            },
        }
    }

    /// The adjacency after the edge `e` to `v` is added.
    pub open spec fn with_out(self, v: VID, e: EID) -> AdjView {
        AdjView { out: adj_add(self.out, v, e), into: self.into }
    }

    /// The adjacency after the edge `e` from `v` is added.
    pub open spec fn with_into(self, v: VID, e: EID) -> AdjView {
        AdjView { out: self.out, into: adj_add(self.into, v, e) }
    }

    /// Adding an edge keeps the associations sorted.
    pub proof fn lemma_add_keeps_wf(self, v: VID, e: EID)
        requires
            self.wf(),
        ensures
            self.with_out(v, e).wf(),
            self.with_into(v, e).wf(),
    {
        lemma_add_sorted(self.out, v, e);
        lemma_add_sorted(self.into, v, e);
    }
}

/// Adding to a sorted association gives a sorted association in which `v`
/// is a neighbour, with the edge it had before or else with `e`, and in
/// which every other neighbour has the edge it had.
pub proof fn lemma_add_sorted(s: Seq<(VID, EID)>, v: VID, e: EID)
    requires
        sorted_by_neighbour(s),
    ensures
        sorted_by_neighbour(adj_add(s, v, e)),
        has_neighbour(adj_add(s, v, e), v),
        adj_find(adj_add(s, v, e), v) == if has_neighbour(s, v) {
            adj_find(s, v)
        } else {
            Some(e)
        },
        forall|w: VID| w != v ==> adj_find(adj_add(s, v, e), w) == adj_find(s, w),
        forall|w: VID| has_neighbour(adj_add(s, v, e), w) <==> (w == v || has_neighbour(s, w)),
{
    if !has_neighbour(s, v) {
        let k = lemma_count_below(s, v);
        lemma_find_position(s, v, k);
        lemma_add_at(s, v, e, k);
        let r = s.insert(k, (v, e));
        assert(r[k] == (v, e));
        assert forall|i: int| 0 <= i < k implies (#[trigger] r[i]).0.0 < v.0 by {
            assert(r[i] == s[i]);
        }
        assert forall|i: int| k <= i < r.len() implies (#[trigger] r[i]).0.0 >= v.0 by {
            if i > k {
                assert(r[i] == s[i - 1]);
            }
        }
        lemma_find_position(r, v, k);
        assert forall|w: VID| has_neighbour(r, w) <==> (w == v || has_neighbour(s, w)) by {
            if has_neighbour(r, w) {
                let i = choose|i: int| 0 <= i < r.len() && (#[trigger] r[i]).0 == w;
                if i < k {
                    assert(s[i].0 == w);
                } else if i > k {
                    assert(s[i - 1].0 == w);
                }
            }
            if has_neighbour(s, w) {
                let i = choose|i: int| 0 <= i < s.len() && (#[trigger] s[i]).0 == w;
                if i < k {
                    assert(r[i].0 == w);
                } else {
                    assert(r[i + 1].0 == w);
                }
            }
        }
        assert forall|w: VID| w != v implies adj_find(r, w) == adj_find(s, w) by {
            let m = lemma_count_below(s, w);
            lemma_find_position(s, w, m);
            let m2 = if m <= k && !(m == k && w.0 > v.0) {
                m
            } else {
                m + 1
            };
            if m < k {
                assert(r[m] == s[m]);
            }
            assert(0 <= m2 <= r.len());
            assert forall|i: int| 0 <= i < m2 implies (#[trigger] r[i]).0.0 < w.0 by {
                if i < k {
                    assert(r[i] == s[i]);
                    if i >= m {
                        assert(s[i].0.0 < v.0);
                        assert(s[i].0.0 >= w.0);
                    }
                } else if i > k {
                    assert(r[i] == s[i - 1]);
                }
            }
            assert forall|i: int| m2 <= i < r.len() implies (#[trigger] r[i]).0.0 >= w.0 by {
                if i < k {
                    assert(r[i] == s[i]);
                } else if i > k {
                    assert(r[i] == s[i - 1]);
                    if i - 1 < m {
                        assert(s[i - 1].0.0 < w.0);
                        assert(s[i - 1].0.0 > v.0);
                    }
                }
            }
            lemma_find_position(r, w, m2);
            if m2 < r.len() {
                if m2 < k {
                    assert(r[m2] == s[m2]);
                } else if m2 > k {
                    assert(r[m2] == s[m2 - 1]);
                }
            }
        }
    } else {
        let i = choose|i: int| 0 <= i < s.len() && (#[trigger] s[i]).0 == v;
    }
}

/// After an addition the association holds what it held, and the new
/// entry if its neighbour was not there.
pub proof fn lemma_add_entries(s: Seq<(VID, EID)>, v: VID, e: EID)
    requires
        sorted_by_neighbour(s),
    ensures
        forall|p: (VID, EID)|
            adj_add(s, v, e).contains(p) <==> (s.contains(p) || (p == (v, e) && !has_neighbour(s, v))),
{
    if !has_neighbour(s, v) {
        let k = lemma_count_below(s, v);
        lemma_find_position(s, v, k);
        lemma_add_at(s, v, e, k);
        let r = s.insert(k, (v, e));
        assert forall|p: (VID, EID)| r.contains(p) <==> (s.contains(p) || p == (v, e)) by {
            if r.contains(p) {
                let i = choose|i: int| 0 <= i < r.len() && r[i] == p;
                if i < k {
                    assert(s[i] == p);
                } else if i > k {
                    assert(s[i - 1] == p);
                }
            }
            if s.contains(p) {
                let i = choose|i: int| 0 <= i < s.len() && s[i] == p;
                if i < k {
                    assert(r[i] == p);
                } else {
                    assert(r[i + 1] == p);
                }
            }
            if p == (v, e) {
                assert(r[k] == p);
            }
        }
    }
}

/// In a sorted association, `w -> e` is an entry exactly if looking `w` up
/// gives `e`.
pub proof fn lemma_entry_is_found(s: Seq<(VID, EID)>, w: VID, e: EID)
    requires
        sorted_by_neighbour(s),
    ensures
        s.contains((w, e)) <==> adj_find(s, w) == Some(e),
        s.contains((w, e)) ==> has_neighbour(s, w),
        has_neighbour(s, w) <==> adj_find(s, w) is Some,
{
    let k = lemma_count_below(s, w);
    lemma_find_position(s, w, k);
    if s.contains((w, e)) {
        let i = choose|i: int| 0 <= i < s.len() && s[i] == (w, e);
        assert(s[i].0 == w);
        if i != k {
            if i < k {
                assert(s[i].0.0 < w.0);
            } else {
                assert(s[k].0.0 < s[i].0.0);
            }
        }
    }
    if adj_find(s, w) == Some(e) {
        assert(s[k] == (w, e));
    }
}

/// The number of entries whose neighbour id is below that of `v`.
pub proof fn lemma_count_below(s: Seq<(VID, EID)>, v: VID) -> (k: int)
    requires
        sorted_by_neighbour(s),
    ensures
        0 <= k <= s.len(),
        forall|i: int| 0 <= i < k ==> (#[trigger] s[i]).0.0 < v.0,
        forall|i: int| k <= i < s.len() ==> (#[trigger] s[i]).0.0 >= v.0,
    decreases s.len(),
{
    if s.len() == 0 {
        0
    } else if s.last().0.0 < v.0 {
        assert forall|i: int| 0 <= i < s.len() implies (#[trigger] s[i]).0.0 < v.0 by {
            if i < s.len() - 1 {
                assert(s[i].0.0 < s[s.len() - 1].0.0);
            }
        }
        s.len() as int
    } else {
        let r = s.drop_last();
        assert forall|i: int, j: int| 0 <= i < j < r.len() implies (#[trigger] r[i]).0.0 < (
        #[trigger] r[j]).0.0 by {
            assert(r[i] == s[i] && r[j] == s[j]);
        }
        let k = lemma_count_below(r, v);
        assert forall|i: int| 0 <= i < k implies (#[trigger] s[i]).0.0 < v.0 by {
            assert(r[i] == s[i]);
        }
        assert forall|i: int| k <= i < s.len() implies (#[trigger] s[i]).0.0 >= v.0 by {
            if i < s.len() - 1 {
                assert(r[i] == s[i]);
            }
        }
        k
    }
}

/// One node's edges in one layer. `Solo` is the node without any edge in
/// the layer; `List` holds the outgoing and the incoming association.
#[derive(Debug, PartialEq, Eq)]
pub enum Adj {
    Solo,
    List { out: AdjSet, into: AdjSet },
}

impl View for Adj {
    type V = AdjView;

    open spec fn view(&self) -> AdjView {
        match self {
            Adj::Solo => AdjView::solo(),
            Adj::List { out, into } => AdjView { out: out@, into: into@ },
        }
    }
}

impl Adj {
    /// Both associations are sorted by neighbour.
    pub open spec fn wf(&self) -> bool {
        self@.wf()
    }

    pub fn new() -> (r: Adj)
        ensures
            r == Adj::Solo,
            r.wf(),
    {
        Adj::Solo
    }

    pub fn get_edge(&self, v: VID, dir: Direction) -> (r: Option<EID>)
        requires
            self.wf(),
        ensures
            r == self@.get_edge(v, dir),
    {
        match self {
            Adj::Solo => {
                proof {
                    let e = Seq::<(VID, EID)>::empty();
                    assert(e.filter(neighbour_is(v)) =~= e);
                }
                None
            },
            Adj::List { out, into } => match dir {
                Direction::OUT => out.find(v),
                Direction::IN => into.find(v),
                Direction::BOTH => match out.find(v) {
                    Some(e) => Some(e),
                    None => into.find(v),
                },
            },
        }
    }

    /// Adds the edge `e` that comes in from `v`. If `v` already has an
    /// incoming edge here, nothing changes.
    pub fn add_edge_into(&mut self, v: VID, e: EID)
        requires
            old(self).wf(),
        ensures
            final(self).wf(),
            final(self)@ == old(self)@.with_into(v, e),
    {
        match self {
            Adj::Solo => {
                let mut into = AdjSet::new();
                into.push(v, e);
                *self = Adj::List { out: AdjSet::new(), into };
            },
            Adj::List { out, into } => {
                into.push(v, e);
            },
        }
    }

    /// Adds the edge `e` that goes out to `v`. If `v` already has an
    /// outgoing edge here, nothing changes.
    pub fn add_edge_out(&mut self, v: VID, e: EID)
        requires
            old(self).wf(),
        ensures
            final(self).wf(),
            final(self)@ == old(self)@.with_out(v, e),
    {
        match self {
            Adj::Solo => {
                let mut out = AdjSet::new();
                out.push(v, e);
                *self = Adj::List { out, into: AdjSet::new() };
            },
            Adj::List { out, into } => {
                out.push(v, e);
            },
        }
    }

    /// The entries of one direction, in neighbour order.
    pub fn iter(&self, dir: Dir) -> (r: Vec<(VID, EID)>)
        ensures
            r@ == self@.entries(dir),
    {
        match self {
            Adj::Solo => Vec::new(),
            Adj::List { out, into } => match dir {
                Dir::Out => out.iter(),
                Dir::Into => into.iter(),
            },
        }
    }

    /// The neighbours in direction `dir`, each once, in ascending order.
    pub fn node_iter(&self, dir: Direction) -> (r: Vec<VID>)
        requires
            self.wf(),
        ensures
            strictly_ascending(r@),
            r@.no_duplicates(),
            forall|v: VID| r@.contains(v) <==> self@.has_neighbour_in(dir, v),
            dir == Direction::OUT ==> r@ == neighbours_of(self@.out),
            dir == Direction::IN ==> r@ == neighbours_of(self@.into),
    {
        match self {
            Adj::Solo => {
                let out: Vec<VID> = Vec::new();
                assert(out@ =~= neighbours_of(Seq::<(VID, EID)>::empty()));
                out
            },
            Adj::List { out, into } => match dir {
                Direction::OUT => out.vertices(),
                Direction::IN => into.vertices(),
                Direction::BOTH => merge_two_unique(out.vertices(), into.vertices()),
            },
        }
    }

    /// The number of distinct neighbours in direction `dir`: a neighbour
    /// with an edge each way counts once under `BOTH`.
    pub fn degree(&self, dir: Direction) -> (n: usize)
        requires
            self.wf(),
        ensures
            n == self@.neighbour_set(dir).len(),
            self@.neighbour_set(dir).finite(),
            dir == Direction::OUT ==> n == self@.out.len(),
            dir == Direction::IN ==> n == self@.into.len(),
    {
        let vs = self.node_iter(dir);
        proof {
            assert(vs@.to_set() =~= self@.neighbour_set(dir));
            vs@.unique_seq_to_set();
        }
        vs.len()
    }

    /// Refills `page` with the next page of direction `dir` after the
    /// cursor `last`. Returns how many entries the page holds.
    pub fn fill_page(
        &self,
        last: Option<VID>,
        page: &mut Vec<(VID, EID)>,
        cap: usize,
        dir: Dir,
    ) -> (n: usize)
        requires
            self.wf(),
        ensures
            final(page)@ == page_after(self@.entries(dir), last, cap as nat),
            n == final(page)@.len(),
            n <= cap,
    {
        match self {
            Adj::Solo => {
                page.clear();
                proof {
                    let e = Seq::<(VID, EID)>::empty();
                    if last is Some {
                        assert(e.filter(neighbour_above(last->Some_0)) =~= e);
                    }
                }
                0
            },
            Adj::List { out, into } => match dir {
                Dir::Out => out.fill_page(last, page, cap),
                Dir::Into => into.fill_page(last, page, cap),
            },
        }
    }
}

} // verus!
