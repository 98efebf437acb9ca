//! Ordered merging of adjacency lists: what the merge adaptors of
//! `itertools` return, and what follows from it.

use crate::entities::{EdgeRef, VID};
use itertools::Itertools;
use vstd::prelude::*;

verus! {

/// Neighbour ids in ascending order, repeats allowed.
pub open spec fn ascending(s: Seq<VID>) -> bool {
    forall|i: int, j: int| 0 <= i < j < s.len() ==> s[i].0 <= s[j].0
}

/// Neighbour ids in strictly ascending order.
pub open spec fn strictly_ascending(s: Seq<VID>) -> bool {
    forall|i: int, j: int| 0 <= i < j < s.len() ==> s[i].0 < s[j].0
}

/// Edge references in ascending order of their remote endpoint.
pub open spec fn ascending_by_remote(s: Seq<EdgeRef>) -> bool {
    forall|i: int, j: int| 0 <= i < j < s.len() ==> s[i].spec_remote().0 <= s[j].spec_remote().0
}

/// The contents of a list of lists.
pub open spec fn list_views<T>(lists: Seq<Vec<T>>) -> Seq<Seq<T>> {
    lists.map_values(|l: Vec<T>| l@)
}

/// The two-way merge of `a` and `b` that takes from `a` on ties.
pub open spec fn merged(a: Seq<VID>, b: Seq<VID>) -> Seq<VID>
    decreases a.len() + b.len(),
{
    if a.len() == 0 {
        b
    } else if b.len() == 0 {
        a
    } else if a[0].0 <= b[0].0 {
        seq![a[0]] + merged(a.drop_first(), b)
    } else {
        seq![b[0]] + merged(a, b.drop_first())
    }
}

/// The two-way merge of `a` and `b` by remote endpoint that takes from `b`
/// on ties.
pub open spec fn merged_by_remote(a: Seq<EdgeRef>, b: Seq<EdgeRef>) -> Seq<EdgeRef>
    decreases a.len() + b.len(),
{
    if a.len() == 0 {
        b
    } else if b.len() == 0 {
        a
    } else if EdgeRef::remote_lt(a[0], b[0]) {
        seq![a[0]] + merged_by_remote(a.drop_first(), b)
    } else {
        seq![b[0]] + merged_by_remote(a, b.drop_first())
    }
}

/// `s` with every run of equal neighbours cut down to its first element.
pub open spec fn deduped<T>(s: Seq<T>) -> Seq<T>
    decreases s.len(),
{
    if s.len() <= 1 {
        s
    } else if s[s.len() - 1] == s[s.len() - 2] {
        deduped(s.drop_last())
    } else {
        deduped(s.drop_last()).push(s.last())
    }
}

/// The order in which `kmerge_by` of `itertools`, comparing by remote
/// endpoint, hands out the elements of `lists`. Among edges with the same
/// remote endpoint the order depends on the merge's internal heap.
pub uninterp spec fn kmerge_by_remote_order(lists: Seq<Seq<EdgeRef>>) -> Seq<EdgeRef>;

/// `Itertools::kmerge` on neighbour ids: the result holds exactly the
/// elements of the lists, each as often as the lists hold it, and is in
/// ascending order if every list is.
#[verifier::external_body]
pub(crate) fn kmerge_ids(lists: Vec<Vec<VID>>) -> (r: Vec<VID>)
    ensures
        r@.to_multiset() == list_views(lists@).flatten().to_multiset(),
        (forall|i: int| 0 <= i < lists@.len() ==> ascending(#[trigger] lists@[i]@)) ==> ascending(
            r@,
        ),
{
    lists.into_iter().map(|l| l.into_iter().map(|v| v.0)).kmerge().map(VID).collect()
}

/// `Itertools::merge` on neighbour ids: at each step the smaller head goes
/// out, the head of `a` on a tie.
#[verifier::external_body]
pub(crate) fn merge_ids(a: Vec<VID>, b: Vec<VID>) -> (r: Vec<VID>)
    ensures
        r@ == merged(a@, b@),
{
    a.into_iter().map(|v| v.0).merge(b.into_iter().map(|v| v.0)).map(VID).collect()
}

/// `Itertools::dedup` on neighbour ids: of each run of equal ids the first
/// stays.
#[verifier::external_body]
pub(crate) fn dedup_ids(v: Vec<VID>) -> (r: Vec<VID>)
    ensures
        r@ == deduped(v@),
{
    v.into_iter().map(|v| v.0).dedup().map(VID).collect()
}

/// `Itertools::kmerge_by` with edges compared by remote endpoint: the
/// result holds exactly the elements of the lists, each as often as the
/// lists hold it, and is in ascending order of remote endpoint if every
/// list is.
#[verifier::external_body]
pub(crate) fn kmerge_by_remote(lists: Vec<Vec<EdgeRef>>) -> (r: Vec<EdgeRef>)
    ensures
        r@ == kmerge_by_remote_order(list_views(lists@)),
        r@.to_multiset() == list_views(lists@).flatten().to_multiset(),
        (forall|i: int| 0 <= i < lists@.len() ==> ascending_by_remote(#[trigger] lists@[i]@))
            ==> ascending_by_remote(r@),
{
    lists.into_iter().kmerge_by(|a, b| EdgeRef::remote_before(a, b)).collect()
}

/// `Itertools::merge_by` with edges compared by remote endpoint: at each
/// step the head of `a` goes out if its remote endpoint is strictly
/// smaller, else the head of `b`.
#[verifier::external_body]
pub(crate) fn merge_by_remote(a: Vec<EdgeRef>, b: Vec<EdgeRef>) -> (r: Vec<EdgeRef>)
    ensures
        r@ == merged_by_remote(a@, b@),
{
    a.into_iter().merge_by(b, |x, y| EdgeRef::remote_before(x, y)).collect()
}

/// `Itertools::dedup_by` with field-wise equality of edge references: of
/// each run of equal references the first stays.
#[verifier::external_body]
pub(crate) fn dedup_edges(v: Vec<EdgeRef>) -> (r: Vec<EdgeRef>)
    ensures
        r@ == deduped(v@),
{
    v.into_iter().dedup_by(|a, b| EdgeRef::same(a, b)).collect()
}

/// An element is in the concatenation of lists exactly if it is in one of
/// them.
pub proof fn lemma_flatten_contains<T>(ss: Seq<Seq<T>>, x: T)
    ensures
        ss.flatten().contains(x) <==> exists|i: int| 0 <= i < ss.len() && (#[trigger] ss[i]).contains(x),
    decreases ss.len(),
{
    if ss.len() == 0 {
    } else {
        let rest = ss.drop_first();
        lemma_flatten_contains(rest, x);
        let f = ss.flatten();
        assert(f == ss.first() + rest.flatten());
        if f.contains(x) {
            let k = choose|k: int| 0 <= k < f.len() && f[k] == x;
            if k < ss.first().len() {
                assert(ss[0][k] == x);
                assert(ss[0].contains(x));
            } else {
                assert(rest.flatten()[k - ss.first().len()] == x);
                assert(rest.flatten().contains(x));
                let i = choose|i: int| 0 <= i < rest.len() && (#[trigger] rest[i]).contains(x);
                assert(ss[i + 1] == rest[i]);
                assert(ss[i + 1].contains(x));
            }
        }
        if exists|i: int| 0 <= i < ss.len() && (#[trigger] ss[i]).contains(x) {
            let i = choose|i: int| 0 <= i < ss.len() && (#[trigger] ss[i]).contains(x);
            if i == 0 {
                let k = choose|k: int| 0 <= k < ss[0].len() && ss[0][k] == x;
                assert(f[k] == x);
            } else {
                assert(rest[i - 1] == ss[i]);
                assert(rest[i - 1].contains(x));
                let k = choose|k: int| 0 <= k < rest.flatten().len() && rest.flatten()[k] == x;
                assert(f[ss.first().len() + k] == x);
            }
        }
    }
}

/// Two sequences with the same elements, counted, have the same elements.
pub proof fn lemma_same_multiset_same_elements<T>(a: Seq<T>, b: Seq<T>, x: T)
    requires
        a.to_multiset() == b.to_multiset(),
    ensures
        a.contains(x) <==> b.contains(x),
{
    vstd::seq_lib::to_multiset_contains(a, x);
    vstd::seq_lib::to_multiset_contains(b, x);
}

/// Cutting runs down keeps the first and the last element, the order, and
/// the set of elements; no two neighbours of the result are equal.
pub proof fn lemma_deduped<T>(s: Seq<T>)
    ensures
        deduped(s).len() <= s.len(),
        s.len() > 0 ==> deduped(s).len() > 0 && deduped(s).last() == s.last() && deduped(s).first()
            == s.first(),
        forall|x: T| deduped(s).contains(x) <==> s.contains(x),
        forall|i: int| 0 <= i < deduped(s).len() - 1 ==> #[trigger] deduped(s)[i] != deduped(s)[i + 1],
    decreases s.len(),
{
    if s.len() <= 1 {
    } else {
        let r = s.drop_last();
        let d = deduped(r);
        lemma_deduped(r);
        assert(r.last() == s[s.len() - 2]);
        assert(r.first() == s.first());
        assert forall|x: T| deduped(s).contains(x) <==> s.contains(x) by {
            if deduped(s).contains(x) {
                let k = choose|k: int| 0 <= k < deduped(s).len() && deduped(s)[k] == x;
                if k < d.len() {
                    assert(d[k] == x);
                    assert(d.contains(x));
                    assert(r.contains(x));
                    let m = choose|m: int| 0 <= m < r.len() && r[m] == x;
                    assert(s[m] == x);
                } else {
                    assert(s[s.len() - 1] == x);
                }
            }
            if s.contains(x) {
                let m = choose|m: int| 0 <= m < s.len() && s[m] == x;
                if m < r.len() {
                    assert(r[m] == x);
                    assert(r.contains(x));
                    assert(d.contains(x));
                    let k = choose|k: int| 0 <= k < d.len() && d[k] == x;
                    assert(deduped(s)[k] == x);
                } else if s[s.len() - 1] == s[s.len() - 2] {
                    assert(d.last() == x);
                    assert(deduped(s)[d.len() - 1] == x);
                } else {
                    assert(deduped(s)[d.len() as int] == x);
                }
            }
        }
    }
}

/// Cutting runs down in an ascending sequence leaves a strictly ascending
/// one.
pub proof fn lemma_deduped_ascending(s: Seq<VID>)
    requires
        ascending(s),
    ensures
        strictly_ascending(deduped(s)),
        deduped(s).to_set() == s.to_set(),
        deduped(s).no_duplicates(),
    decreases s.len(),
{
    lemma_deduped(s);
    assert(deduped(s).to_set() =~= s.to_set());
    if s.len() <= 1 {
    } else {
        let r = s.drop_last();
        let d = deduped(r);
        assert(ascending(r)) by {
            assert forall|i: int, j: int| 0 <= i < j < r.len() implies r[i].0 <= r[j].0 by {
                assert(r[i] == s[i] && r[j] == s[j]);
            }
        }
        lemma_deduped_ascending(r);
        lemma_deduped(r);
        assert(d.last() == s[s.len() - 2]);
        if s[s.len() - 1] != s[s.len() - 2] {
            let ds = deduped(s);
            assert forall|i: int, j: int| 0 <= i < j < ds.len() implies ds[i].0 < ds[j].0 by {
                if j < d.len() {
                    assert(ds[i] == d[i] && ds[j] == d[j]);
                } else {
                    assert(ds[j] == s.last());
                    assert(ds[i] == d[i]);
                    assert(d[i].0 <= d.last().0) by {
                        if i < d.len() - 1 {
                        }
                    }
                    assert(s[s.len() - 2].0 <= s[s.len() - 1].0);
                }
            }
        }
    }
}

/// Merging two ascending sequences gives an ascending sequence with the
/// elements of both.
pub proof fn lemma_merged(a: Seq<VID>, b: Seq<VID>)
    requires
        ascending(a),
        ascending(b),
    ensures
        ascending(merged(a, b)),
        merged(a, b).len() == a.len() + b.len(),
        forall|x: VID| merged(a, b).contains(x) <==> (a.contains(x) || b.contains(x)),
    decreases a.len() + b.len(),
{
    if a.len() == 0 || b.len() == 0 {
    } else {
        let (h, a2, b2) = if a[0].0 <= b[0].0 {
            (a[0], a.drop_first(), b)
        } else {
            (b[0], a, b.drop_first())
        };
        assert(ascending(a2)) by {
            assert forall|i: int, j: int| 0 <= i < j < a2.len() implies a2[i].0 <= a2[j].0 by {
                if a[0].0 <= b[0].0 {
                    assert(a2[i] == a[i + 1] && a2[j] == a[j + 1]);
                }
            }
        }
        assert(ascending(b2)) by {
            assert forall|i: int, j: int| 0 <= i < j < b2.len() implies b2[i].0 <= b2[j].0 by {
                if !(a[0].0 <= b[0].0) {
                    assert(b2[i] == b[i + 1] && b2[j] == b[j + 1]);
                }
            }
        }
        lemma_merged(a2, b2);
        let m2 = merged(a2, b2);
        let m = merged(a, b);
        assert(m == seq![h] + m2);
        assert forall|x: VID| m.contains(x) <==> (a.contains(x) || b.contains(x)) by {
            if m.contains(x) {
                let k = choose|k: int| 0 <= k < m.len() && m[k] == x;
                if k == 0 {
                    assert(a[0] == h || b[0] == h);
                } else {
                    assert(m2[k - 1] == x);
                    assert(m2.contains(x));
                    if a2.contains(x) {
                        let q = choose|q: int| 0 <= q < a2.len() && a2[q] == x;
                        if a[0].0 <= b[0].0 {
                            assert(a[q + 1] == x);
                        }
                    }
                    if b2.contains(x) {
                        let q = choose|q: int| 0 <= q < b2.len() && b2[q] == x;
                        if !(a[0].0 <= b[0].0) {
                            assert(b[q + 1] == x);
                        }
                    }
                }
            }
            if a.contains(x) || b.contains(x) {
                if x == h {
                    assert(m[0] == x);
                } else {
                    if a.contains(x) {
                        let q = choose|q: int| 0 <= q < a.len() && a[q] == x;
                        if a[0].0 <= b[0].0 {
                            assert(a2[q - 1] == x);
                        }
                        assert(a2.contains(x));
                    } else {
                        let q = choose|q: int| 0 <= q < b.len() && b[q] == x;
                        if !(a[0].0 <= b[0].0) {
                            assert(b2[q - 1] == x);
                        }
                        assert(b2.contains(x));
                    }
                    assert(m2.contains(x));
                    let k = choose|k: int| 0 <= k < m2.len() && m2[k] == x;
                    assert(m[k + 1] == x);
                }
            }
        }
        assert forall|i: int, j: int| 0 <= i < j < m.len() implies m[i].0 <= m[j].0 by {
            if i == 0 {
                assert(m[j] == m2[j - 1]);
                assert(m2.contains(m[j]));
                if a2.contains(m[j]) {
                    let q = choose|q: int| 0 <= q < a2.len() && a2[q] == m[j];
                    if a[0].0 <= b[0].0 {
                        assert(a[q + 1] == m[j]);
                    } else {
                        if q > 0 {
                            assert(a[0].0 <= a[q].0);
                        }
                    }
                } else {
                    let q = choose|q: int| 0 <= q < b2.len() && b2[q] == m[j];
                    if a[0].0 <= b[0].0 {
                        if q > 0 {
                            assert(b[0].0 <= b[q].0);
                        }
                    } else {
                        assert(b[q + 1] == m[j]);
                    }
                }
            } else {
                assert(m[i] == m2[i - 1] && m[j] == m2[j - 1]);
            }
        }
    }
}

/// Edge references in strictly ascending order of their remote endpoint.
pub open spec fn strictly_ascending_by_remote(s: Seq<EdgeRef>) -> bool {
    forall|i: int, j: int| 0 <= i < j < s.len() ==> s[i].spec_remote().0 < s[j].spec_remote().0
}

/// Whether references of `s` with the same remote endpoint are the same
/// reference.
pub open spec fn ties_are_repeats(s: Seq<EdgeRef>) -> bool {
    forall|i: int, j: int|
        0 <= i < s.len() && 0 <= j < s.len() && (#[trigger] s[i]).spec_remote() == (
        #[trigger] s[j]).spec_remote() ==> s[i] == s[j]
}

/// If a sequence is ascending by remote endpoint and its ties are repeats,
/// cutting runs down leaves one reference per remote endpoint.
pub proof fn lemma_deduped_strict(s: Seq<EdgeRef>)
    requires
        ascending_by_remote(s),
        ties_are_repeats(s),
    ensures
        strictly_ascending_by_remote(deduped(s)),
    decreases s.len(),
{
    if s.len() <= 1 {
    } else {
        let r = s.drop_last();
        let last = s.len() - 1;
        assert(ascending_by_remote(r) && ties_are_repeats(r)) by {
            assert forall|i: int, j: int| 0 <= i < j < r.len() implies r[i].spec_remote().0
                <= r[j].spec_remote().0 by {
                assert(r[i] == s[i] && r[j] == s[j]);
            }
            assert forall|i: int, j: int|
                0 <= i < r.len() && 0 <= j < r.len() && (#[trigger] r[i]).spec_remote() == (
                #[trigger] r[j]).spec_remote() implies r[i] == r[j] by {
                assert(r[i] == s[i] && r[j] == s[j]);
            }
        }
        lemma_deduped_strict(r);
        lemma_deduped(r);
        let d = deduped(r);
        let ds = deduped(s);
        if s[last] != s[last - 1] {
            assert forall|i: int, j: int| 0 <= i < j < ds.len() implies ds[i].spec_remote().0
                < ds[j].spec_remote().0 by {
                if j < d.len() {
                    assert(ds[i] == d[i] && ds[j] == d[j]);
                } else {
                    assert(ds[i] == d[i]);
                    assert(d.contains(d[i]));
                    assert(r.contains(d[i]));
                    let m = choose|m: int| 0 <= m < r.len() && r[m] == d[i];
                    assert(s[m] == d[i]);
                    assert(s[m].spec_remote().0 <= s[last - 1].spec_remote().0) by {
                        if m < last - 1 {
                        }
                    }
                    assert(s[last - 1].spec_remote().0 <= s[last].spec_remote().0);
                    if s[m].spec_remote().0 == s[last].spec_remote().0 {
                        assert(s[last - 1].spec_remote() == s[last].spec_remote());
                    }
                }
            }
        }
    }
}

/// Merging two sequences that are ascending by remote endpoint gives one
/// that is, with the elements of both.
pub proof fn lemma_merged_by_remote(a: Seq<EdgeRef>, b: Seq<EdgeRef>)
    requires
        ascending_by_remote(a),
        ascending_by_remote(b),
    ensures
        ascending_by_remote(merged_by_remote(a, b)),
        merged_by_remote(a, b).len() == a.len() + b.len(),
        forall|x: EdgeRef| merged_by_remote(a, b).contains(x) <==> (a.contains(x) || b.contains(x)),
    decreases a.len() + b.len(),
{
    if a.len() == 0 || b.len() == 0 {
    } else {
        let left = EdgeRef::remote_lt(a[0], b[0]);
        let (h, a2, b2) = if left {
            (a[0], a.drop_first(), b)
        } else {
            (b[0], a, b.drop_first())
        };
        assert(ascending_by_remote(a2)) by {
            assert forall|i: int, j: int| 0 <= i < j < a2.len() implies a2[i].spec_remote().0
                <= a2[j].spec_remote().0 by {
                if left {
                    assert(a2[i] == a[i + 1] && a2[j] == a[j + 1]);
                }
            }
        }
        assert(ascending_by_remote(b2)) by {
            assert forall|i: int, j: int| 0 <= i < j < b2.len() implies b2[i].spec_remote().0
                <= b2[j].spec_remote().0 by {
                if !left {
                    assert(b2[i] == b[i + 1] && b2[j] == b[j + 1]);
                }
            }
        }
        lemma_merged_by_remote(a2, b2);
        let m2 = merged_by_remote(a2, b2);
        let m = merged_by_remote(a, b);
        assert(m == seq![h] + m2);
        assert forall|x: EdgeRef| m.contains(x) <==> (a.contains(x) || b.contains(x)) by {
            if m.contains(x) {
                let k = choose|k: int| 0 <= k < m.len() && m[k] == x;
                if k == 0 {
                    assert(a[0] == h || b[0] == h);
                } else {
                    assert(m2[k - 1] == x);
                    assert(m2.contains(x));
                    if a2.contains(x) {
                        let q = choose|q: int| 0 <= q < a2.len() && a2[q] == x;
                        if left {
                            assert(a[q + 1] == x);
                        }
                    }
                    if b2.contains(x) {
                        let q = choose|q: int| 0 <= q < b2.len() && b2[q] == x;
                        if !left {
                            assert(b[q + 1] == x);
                        }
                    }
                }
            }
            if a.contains(x) || b.contains(x) {
                if x == h {
                    assert(m[0] == x);
                } else {
                    if a.contains(x) {
                        let q = choose|q: int| 0 <= q < a.len() && a[q] == x;
                        if left {
                            assert(a2[q - 1] == x);
                        }
                        assert(a2.contains(x));
                    } else {
                        let q = choose|q: int| 0 <= q < b.len() && b[q] == x;
                        if !left {
                            assert(b2[q - 1] == x);
                        }
                        assert(b2.contains(x));
                    }
                    assert(m2.contains(x));
                    let k = choose|k: int| 0 <= k < m2.len() && m2[k] == x;
                    assert(m[k + 1] == x);
                }
            }
        }
        assert forall|i: int, j: int| 0 <= i < j < m.len() implies m[i].spec_remote().0
            <= m[j].spec_remote().0 by {
            if i == 0 {
                assert(m[j] == m2[j - 1]);
                assert(m2.contains(m[j]));
                if a2.contains(m[j]) {
                    let q = choose|q: int| 0 <= q < a2.len() && a2[q] == m[j];
                    if left {
                        assert(a[q + 1] == m[j]);
                    } else {
                        if q > 0 {
                            assert(a[0].spec_remote().0 <= a[q].spec_remote().0);
                        }
                    }
                } else {
                    let q = choose|q: int| 0 <= q < b2.len() && b2[q] == m[j];
                    if left {
                        if q > 0 {
                            assert(b[0].spec_remote().0 <= b[q].spec_remote().0);
                        }
                    } else {
                        assert(b[q + 1] == m[j]);
                    }
                }
            } else {
                assert(m[i] == m2[i - 1] && m[j] == m2[j - 1]);
            }
        }
    }
}

/// Leaving elements out keeps the order by remote endpoint.
pub proof fn lemma_filter_by_remote(s: Seq<EdgeRef>, p: spec_fn(EdgeRef) -> bool)
    requires
        ascending_by_remote(s),
    ensures
        ascending_by_remote(s.filter(p)),
        forall|x: EdgeRef| s.filter(p).contains(x) <==> (s.contains(x) && p(x)),
    decreases s.len(),
{
    reveal(Seq::filter);
    if s.len() == 0 {
    } else {
        let r = s.drop_last();
        assert(ascending_by_remote(r)) by {
            assert forall|i: int, j: int| 0 <= i < j < r.len() implies r[i].spec_remote().0
                <= r[j].spec_remote().0 by {
                assert(r[i] == s[i] && r[j] == s[j]);
            }
        }
        lemma_filter_by_remote(r, p);
        let f = s.filter(p);
        let fr = r.filter(p);
        assert forall|x: EdgeRef| f.contains(x) <==> (s.contains(x) && p(x)) by {
            if f.contains(x) {
                let k = choose|k: int| 0 <= k < f.len() && f[k] == x;
                if k < fr.len() {
                    assert(fr[k] == x);
                    assert(fr.contains(x));
                    assert(r.contains(x) && p(x));
                    let m = choose|m: int| 0 <= m < r.len() && r[m] == x;
                    assert(s[m] == x);
                } else {
                    assert(s[s.len() - 1] == x);
                }
            }
            if s.contains(x) && p(x) {
                let m = choose|m: int| 0 <= m < s.len() && s[m] == x;
                if m < r.len() {
                    assert(r[m] == x);
                    assert(fr.contains(x));
                    let k = choose|k: int| 0 <= k < fr.len() && fr[k] == x;
                    assert(f[k] == x);
                } else {
                    assert(f[fr.len() as int] == x);
                }
            }
        }
        assert forall|i: int, j: int| 0 <= i < j < f.len() implies f[i].spec_remote().0
            <= f[j].spec_remote().0 by {
            if j < fr.len() {
                assert(f[i] == fr[i] && f[j] == fr[j]);
            } else {
                assert(f[i] == fr[i]);
                assert(fr.contains(fr[i]));
                assert(r.contains(fr[i]));
                let m = choose|m: int| 0 <= m < r.len() && r[m] == fr[i];
                assert(s[m] == fr[i]);
                assert(f[j] == s[s.len() - 1]);
                assert(s[m].spec_remote().0 <= s[s.len() - 1].spec_remote().0);
            }
        }
    }
}

/// The neighbours of several ascending lists, each once, in strictly
/// ascending order.
pub fn merge_unique(lists: Vec<Vec<VID>>) -> (r: Vec<VID>)
    requires
        forall|i: int| 0 <= i < lists@.len() ==> ascending(#[trigger] lists@[i]@),
    ensures
        strictly_ascending(r@),
        r@.no_duplicates(),
        forall|x: VID|
            r@.contains(x) <==> exists|i: int|
                0 <= i < lists@.len() && (#[trigger] lists@[i])@.contains(x),
{
    let ghost views = list_views(lists@);
    let all = kmerge_ids(lists);
    let r = dedup_ids(all);
    proof {
        lemma_deduped_ascending(all@);
        lemma_deduped(all@);
        assert forall|x: VID|
            r@.contains(x) <==> exists|i: int|
                0 <= i < lists@.len() && (#[trigger] lists@[i])@.contains(x) by {
            lemma_same_multiset_same_elements(all@, views.flatten(), x);
            lemma_flatten_contains(views, x);
            if exists|i: int| 0 <= i < views.len() && (#[trigger] views[i]).contains(x) {
                let i = choose|i: int| 0 <= i < views.len() && (#[trigger] views[i]).contains(x);
                assert(lists@[i]@.contains(x));
            }
            if exists|i: int| 0 <= i < lists@.len() && (#[trigger] lists@[i])@.contains(x) {
                let i = choose|i: int| 0 <= i < lists@.len() && (#[trigger] lists@[i])@.contains(x);
                assert(views[i].contains(x));
            }
        }
    }
    r
}

/// The neighbours of two ascending lists, each once, in strictly ascending
/// order.
pub fn merge_two_unique(a: Vec<VID>, b: Vec<VID>) -> (r: Vec<VID>)
    requires
        ascending(a@),
        ascending(b@),
    ensures
        r@ == deduped(merged(a@, b@)),
        strictly_ascending(r@),
        r@.no_duplicates(),
        forall|x: VID| r@.contains(x) <==> (a@.contains(x) || b@.contains(x)),
{
    proof {
        lemma_merged(a@, b@);
        lemma_deduped_ascending(merged(a@, b@));
        lemma_deduped(merged(a@, b@));
    }
    let m = merge_ids(a, b);
    dedup_ids(m)
}

} // verus!
