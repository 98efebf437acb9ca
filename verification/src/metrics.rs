//! Counts that clustering measures are made of.

use crate::entities::{Direction, LayerIds, VID};
use crate::graph::{GraphView, InternalGraph};
use crate::merging::strictly_ascending;
use std::ops::Range;
use vstd::prelude::*;

verus! {

impl GraphView {
    /// Whether there is an edge from `a` to `b` in one of the selected
    /// layers that was added in the window `[start, end)`.
    pub open spec fn edge_in_window(self, a: VID, b: VID, layers: LayerIds, start: i64, end: i64) -> bool {
        a.0 < self.nodes.len() && match self.nodes[a.0 as int].find_edge(b, layers) {
            Some(e) => self.edge_active(e, layers, start, end),
            None => false,
        }
    }

    /// Whether `a` and `b` are joined, one way or the other, by an edge
    /// that was added in the window.
    pub open spec fn joined(self, a: VID, b: VID, layers: LayerIds, start: i64, end: i64) -> bool {
        self.edge_in_window(a, b, layers, start, end) || self.edge_in_window(
            b,
            a,
            layers,
            start,
            end,
        )
    }

    /// The number of positions `k` from `j` on at which `ns[k]` is joined
    /// to `ns[i]`.
    pub open spec fn joined_from(
        self,
        ns: Seq<VID>,
        i: int,
        j: int,
        layers: LayerIds,
        start: i64,
        end: i64,
    ) -> nat
        decreases ns.len() - j,
    {
        if j < 0 || j >= ns.len() {
            0
        } else {
            (if self.joined(ns[i], ns[j], layers, start, end) {
                1nat
            } else {
                0nat
            }) + self.joined_from(ns, i, j + 1, layers, start, end)
        }
    }

    /// The number of pairs of positions `i < j`, with `i` from `from` on,
    /// at which `ns[i]` and `ns[j]` are joined.
    pub open spec fn joined_pairs(
        self,
        ns: Seq<VID>,
        from: int,
        layers: LayerIds,
        start: i64,
        end: i64,
    ) -> nat
        decreases ns.len() - from,
    {
        if from < 0 || from >= ns.len() {
            0
        } else {
            self.joined_from(ns, from, from + 1, layers, start, end) + self.joined_pairs(
                ns,
                from + 1,
                layers,
                start,
                end,
            )
        }
    }
}

/// `n`, or the largest machine number if `n` is larger.
pub open spec fn capped(n: nat) -> usize {
    if n <= usize::MAX {
        n as usize
    } else {
        usize::MAX
    }
}

impl InternalGraph {
    /// The number of pairs of the nodes `ns` that are joined, one way or
    /// the other, by an edge of the selected layers that was added in
    /// `[w.start, w.end)`; the largest machine number if there are more.
    pub fn joined_pairs_among(&self, ns: &Vec<VID>, layers: &LayerIds, w: Range<i64>) -> (r: usize)
        requires
            self.wf(),
        ensures
            r == capped(self@.joined_pairs(ns@, 0, *layers, w.start, w.end)),
    {
        let ghost total = self@.joined_pairs(ns@, 0, *layers, w.start, w.end);
        let mut count: usize = 0;
        let mut i: usize = 0;
        while i < ns.len()
            invariant
                i <= ns.len(),
                self.wf(),
                total == self@.joined_pairs(ns@, 0, *layers, w.start, w.end),
                self@.joined_pairs(ns@, i as int, *layers, w.start, w.end) <= total,
                count == capped(
                    (total - self@.joined_pairs(ns@, i as int, *layers, w.start, w.end)) as nat,
                ),
            decreases ns.len() - i,
        {
            let ghost rest = self@.joined_pairs(ns@, i + 1, *layers, w.start, w.end);
            let mut j: usize = i + 1;
            while j < ns.len()
                invariant
                    i < j <= ns.len(),
                    self.wf(),
                    rest == self@.joined_pairs(ns@, i + 1, *layers, w.start, w.end),
                    rest + self@.joined_from(ns@, i as int, j as int, *layers, w.start, w.end)
                        <= total,
                    count == capped(
                        (total - rest - self@.joined_from(
                            ns@,
                            i as int,
                            j as int,
                            *layers,
                            w.start,
                            w.end,
                        )) as nat,
                    ),
                decreases ns.len() - j,
            {
                let a = ns[i];
                let b = ns[j];
                let joined = self.has_edge_window(a, b, layers, w.start..w.end)
                    || self.has_edge_window(b, a, layers, w.start..w.end);
                if joined && count < usize::MAX {
                    count += 1;
                }
                j += 1;
            }
            i += 1;
        }
        count
    }

    /// The number of triangles that node `v` is part of: the pairs of its
    /// neighbours, not counting `v` itself, that are joined to each
    /// other. Neighbours are taken in both directions, and only edges of
    /// the selected layers that were added in `[w.start, w.end)` count.
    /// Together with it comes the number of those neighbours. A node that
    /// does not exist has no count.
    pub fn local_triangle_count(&self, v: VID, layers: &LayerIds, w: Range<i64>) -> (r: Option<
        (usize, usize),
    >)
        requires
            self.wf(),
        ensures
            r is Some <==> v.0 < self@.nodes.len(),
            r matches Some(c) ==> exists|ns: Seq<VID>|
                strictly_ascending(ns) && (forall|x: VID| #[trigger]
                    ns.contains(x) <==> (x != v && self@.neighbour_in_window(
                        v,
                        x,
                        Direction::BOTH,
                        *layers,
                        w.start,
                        w.end,
                    ))) && c.1 == ns.len() && c.0 == capped(
                    self@.joined_pairs(ns, 0, *layers, w.start, w.end),
                ),
    {
        if v.0 >= self.num_nodes() {
            return None;
        }
        let all = self.neighbours_window(v, Direction::BOTH, layers, w.start..w.end);
        let mut others: Vec<VID> = Vec::new();
        let mut i: usize = 0;
        while i < all.len()
            invariant
                i <= all.len(),
                strictly_ascending(all@),
                strictly_ascending(others@),
                forall|k: int| 0 <= k < others@.len() ==> exists|j: int| 0 <= j < i && all@[j] == #[trigger] others@[k],
                forall|x: VID| #[trigger]
                    others@.contains(x) <==> (x != v && exists|j: int| 0 <= j < i && all@[j] == x),
            decreases all.len() - i,
        {
            let ghost before = others@;
            if all[i] != v {
                others.push(all[i]);
                proof {
                    assert forall|a: int, b: int| 0 <= a < b < others@.len() implies others@[a].0
                        < others@[b].0 by {
                        if b == before.len() {
                            let j = choose|j: int| 0 <= j < i && all@[j] == before[a];
                            assert(all@[j].0 < all@[i as int].0);
                        } else {
                            assert(before[a].0 < before[b].0);
                        }
                    }
                }
            }
            proof {
                assert forall|k: int| 0 <= k < others@.len() implies exists|j: int|
                    0 <= j < i + 1 && all@[j] == #[trigger] others@[k] by {
                    if k < before.len() {
                        let j = choose|j: int| 0 <= j < i && all@[j] == before[k];
                        assert(all@[j] == others@[k]);
                    } else {
                        assert(all@[i as int] == others@[k]);
                    }
                }
                assert forall|x: VID| #[trigger]
                    others@.contains(x) <==> (x != v && exists|j: int|
                        0 <= j < i + 1 && all@[j] == x) by {
                    if others@.contains(x) {
                        let k = choose|k: int| 0 <= k < others@.len() && others@[k] == x;
                        if k < before.len() {
                            assert(before.contains(x));
                            let j = choose|j: int| 0 <= j < i && all@[j] == x;
                            assert(all@[j] == x);
                        } else {
                            assert(all@[i as int] == x);
                        }
                    }
                    if x != v && exists|j: int| 0 <= j < i + 1 && all@[j] == x {
                        let j = choose|j: int| 0 <= j < i + 1 && all@[j] == x;
                        if j < i {
                            assert(before.contains(x));
                            let k = choose|k: int| 0 <= k < before.len() && before[k] == x;
                            assert(others@[k] == x);
                        } else {
                            assert(others@[before.len() as int] == x);
                        }
                    }
                }
            }
            i += 1;
        }
        let count = self.joined_pairs_among(&others, layers, w.start..w.end);
        proof {
            let ns = others@;
            assert forall|x: VID| #[trigger]
                ns.contains(x) <==> (x != v && self@.neighbour_in_window(
                    v,
                    x,
                    Direction::BOTH,
                    *layers,
                    w.start,
                    w.end,
                )) by {
                if ns.contains(x) {
                    let j = choose|j: int| 0 <= j < all@.len() && all@[j] == x;
                    assert(all@.contains(x));
                }
                if x != v && all@.contains(x) {
                    let j = choose|j: int| 0 <= j < all@.len() && all@[j] == x;
                    assert(all@[j] == x);
                }
            }
        }
        Some((count, others.len()))
    }
}

} // verus!
