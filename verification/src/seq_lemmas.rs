//! Facts about filtering sequences whose matching elements form one block.

use vstd::prelude::*;

verus! {

/// If exactly the elements at positions `lo..hi` satisfy `p`, filtering by
/// `p` cuts that block out.
pub proof fn lemma_filter_block<E>(s: Seq<E>, p: spec_fn(E) -> bool, lo: int, hi: int)
    requires
        0 <= lo <= hi <= s.len(),
        forall|i: int| 0 <= i < s.len() ==> (#[trigger] p(s[i]) <==> lo <= i < hi),
    ensures
        s.filter(p) == s.subrange(lo, hi),
    decreases s.len(),
{
    reveal(Seq::filter);
    if s.len() == 0 {
        assert(s.filter(p) =~= s.subrange(lo, hi));
    } else {
        let t = s.drop_last();
        let last = s.len() - 1;
        assert(p(s[last]) <==> lo <= last < hi);
        if hi == s.len() && lo < hi {
            assert forall|i: int| 0 <= i < t.len() implies (#[trigger] p(t[i]) <==> lo <= i < hi - 1) by {
                assert(t[i] == s[i]);
            }
            lemma_filter_block(t, p, lo, hi - 1);
            assert(t.subrange(lo, hi - 1).push(s.last()) =~= s.subrange(lo, hi));
        } else {
            let lo2 = if lo <= t.len() { lo } else { t.len() as int };
            let hi2 = if hi <= t.len() { hi } else { t.len() as int };
            assert forall|i: int| 0 <= i < t.len() implies (#[trigger] p(t[i]) <==> lo2 <= i < hi2) by {
                assert(t[i] == s[i]);
            }
            lemma_filter_block(t, p, lo2, hi2);
            assert(t.subrange(lo2, hi2) =~= s.subrange(lo, hi));
        }
    }
}

/// Filtering commutes with a map that the predicate sees through.
pub proof fn lemma_filter_map_values<A, B>(
    s: Seq<A>,
    f: spec_fn(A) -> B,
    p: spec_fn(B) -> bool,
    q: spec_fn(A) -> bool,
)
    requires
        forall|a: A| #[trigger] q(a) == p(f(a)),
    ensures
        s.map_values(f).filter(p) == s.filter(q).map_values(f),
    decreases s.len(),
{
    reveal(Seq::filter);
    if s.len() == 0 {
        assert(s.map_values(f).filter(p) =~= s.filter(q).map_values(f));
    } else {
        let t = s.drop_last();
        lemma_filter_map_values(t, f, p, q);
        assert(s.map_values(f).drop_last() =~= t.map_values(f));
        assert(s.map_values(f).last() == f(s.last()));
        assert(q(s.last()) == p(f(s.last())));
        if q(s.last()) {
            assert(t.filter(q).push(s.last()).map_values(f) =~= t.filter(q).map_values(f).push(
                f(s.last()),
            ));
        }
    }
}

} // verus!
