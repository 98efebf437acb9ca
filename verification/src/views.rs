//! The read interface of the graph: layer selection by name, adjacency
//! reads, windowed reads and what can be asked of one edge.

use crate::edge_store::EdgeView;
use crate::entities::{Direction, EdgeRef, LayerIds, EID, VID};
use crate::errors::GraphError;
use crate::graph::{GraphView, InternalGraph};
use crate::merging::{
    ascending, dedup_ids, lemma_deduped, lemma_deduped_ascending, merge_two_unique,
    strictly_ascending,
};
use crate::timeindex::{increasing, lemma_index_insert, TimeIndex, TimeIndexEntry};
use std::ops::Range;
use vstd::prelude::*;

verus! {

/// A selection of layers by name.
#[derive(Debug, PartialEq, Eq)]
pub enum Layer {
    All,
    Default,
    One(String),
    Multiple(Vec<String>),
}

/// The ids of those of the names that are registered as layers, in the
/// order of the names.
pub open spec fn known_layers(layers: Seq<Seq<char>>, names: Seq<String>) -> Seq<usize>
    decreases names.len(),
{
    if names.len() == 0 {
        Seq::empty()
    } else if layers.contains(names.last()@) {
        known_layers(layers, names.drop_last()).push(layers.index_of(names.last()@) as usize)
    } else {
        known_layers(layers, names.drop_last())
    }
}

/// Whether every name is registered as a layer.
pub open spec fn all_known(layers: Seq<Seq<char>>, names: Seq<String>) -> bool {
    forall|i: int| 0 <= i < names.len() ==> layers.contains((#[trigger] names[i])@)
}

/// Whether `r` is the selector of the layers `ids`: none selects nothing,
/// one selects that layer, more select the list.
pub open spec fn selector_of(ids: Seq<usize>, r: LayerIds) -> bool {
    match r {
        LayerIds::Empty => ids.len() == 0,
        LayerIds::One(id) => ids == seq![id],
        LayerIds::Multiple(v) => v@ == ids && ids.len() > 1,
        LayerIds::All => false,
    }
}

/// The selector that an edge reference stands for: its layer, if it is
/// bound to one; else every layer.
pub open spec fn layers_of(e: EdgeRef) -> LayerIds {
    match e.layer_id {
        Some(l) => LayerIds::One(l),
        None => LayerIds::All,
    }
}

impl GraphView {
    /// Whether the edge `e` has a record and was added at some time in
    /// `[start, end)` in one of the selected layers.
    pub open spec fn edge_active(self, e: EID, layers: LayerIds, start: i64, end: i64) -> bool {
        e.0 < self.edges.len() && self.edges[e.0 as int].active(layers, start, end)
    }

    /// Whether `x` is a neighbour of node `v` in direction `d` over the
    /// selected layers by an edge that was added in the window
    /// `[start, end)`.
    pub open spec fn neighbour_in_window(
        self,
        v: VID,
        x: VID,
        d: Direction,
        layers: LayerIds,
        start: i64,
        end: i64,
    ) -> bool {
        v.0 < self.nodes.len() && ((d != Direction::IN && self.linked_in_window(
            v,
            x,
            Direction::OUT,
            layers,
            start,
            end,
        )) || (d != Direction::OUT && self.linked_in_window(
            v,
            x,
            Direction::IN,
            layers,
            start,
            end,
        )))
    }

    /// Whether node `v` lists, for the direction `d` and the selected
    /// layers, an edge to or from `x` that was added in the window.
    pub open spec fn linked_in_window(
        self,
        v: VID,
        x: VID,
        d: Direction,
        layers: LayerIds,
        start: i64,
        end: i64,
    ) -> bool {
        exists|e: EdgeRef| #[trigger]
            self.nodes[v.0 as int].has_edge(layers, d, v, e) && e.spec_remote() == x
                && self.edge_active(e.e_pid, layers, start, end)
    }
}

impl InternalGraph {
    /// The selector that reads use when none is given: every layer.
    pub fn layer_ids(&self) -> (r: LayerIds)
        ensures
            r == LayerIds::All,
    {
        LayerIds::All
    }

    /// The ids of those of the names that are registered as layers, in the
    /// order of the names; and the position of the first name that is not
    /// registered.
    fn known_layer_ids(&self, names: &Vec<String>) -> (r: (Vec<usize>, Option<usize>))
        requires
            self.wf(),
        ensures
            r.0@ == known_layers(self@.edge_meta.layers, names@),
            match r.1 {
                Some(i) => i < names@.len() && !self@.edge_meta.layers.contains(names@[i as int]@)
                    && forall|j: int|
                    0 <= j < i ==> self@.edge_meta.layers.contains((#[trigger] names@[j])@),
                None => all_known(self@.edge_meta.layers, names@),
            },
    {
        let ghost layers = self@.edge_meta.layers;
        let mut out: Vec<usize> = Vec::new();
        let mut missing: Option<usize> = None;
        let mut i: usize = 0;
        assert(names@.take(0) =~= Seq::<String>::empty());
        while i < names.len()
            invariant
                i <= names.len(),
                self.wf(),
                layers == self@.edge_meta.layers,
                out@ == known_layers(layers, names@.take(i as int)),
                match missing {
                    Some(m) => m < i && !layers.contains(names@[m as int]@) && forall|j: int|
                        0 <= j < m ==> layers.contains((#[trigger] names@[j])@),
                    None => forall|j: int| 0 <= j < i ==> layers.contains((#[trigger] names@[j])@),
                },
            decreases names.len() - i,
        {
            proof {
                assert(names@.take(i + 1).drop_last() =~= names@.take(i as int));
                assert(names@.take(i + 1).last() == names@[i as int]);
            }
            match self.edge_meta().get_layer_id(names[i].as_str()) {
                Some(id) => {
                    out.push(id);
                },
                None => {
                    if missing.is_none() {
                        missing = Some(i);
                    }
                },
            }
            i += 1;
        }
        assert(names@.take(names@.len() as int) =~= names@);
        (out, missing)
    }

    /// The selector for the layers named by `key`. A name that is not
    /// registered as a layer is an error: the first such name is reported.
    pub fn layer_ids_from_names(&self, key: Layer) -> (r: Result<LayerIds, GraphError>)
        requires
            self.wf(),
        ensures
            match key {
                Layer::All => r == Ok::<LayerIds, GraphError>(LayerIds::All),
                Layer::Default => r == Ok::<LayerIds, GraphError>(LayerIds::One(0)),
                Layer::One(name) => if self@.edge_meta.layers.contains(name@) {
                    r == Ok::<LayerIds, GraphError>(
                        LayerIds::One(self@.edge_meta.layers.index_of(name@) as usize),
                    )
                } else {
                    r matches Err(GraphError::InvalidLayer(n)) && n@ == name@
                },
                Layer::Multiple(names) => {
                    &&& r is Ok <==> all_known(self@.edge_meta.layers, names@)
                    &&& r matches Ok(ids) ==> selector_of(
                        known_layers(self@.edge_meta.layers, names@),
                        ids,
                    )
                    &&& r matches Err(e) ==> exists|i: int|
                        0 <= i < names@.len() && !self@.edge_meta.layers.contains(
                            (#[trigger] names@[i])@,
                        ) && (forall|j: int|
                            0 <= j < i ==> self@.edge_meta.layers.contains(
                                (#[trigger] names@[j])@,
                            )) && (e matches GraphError::InvalidLayer(n) && n@ == names@[i]@)
                },
            },
    {
        match key {
            Layer::All => Ok(LayerIds::All),
            Layer::Default => Ok(LayerIds::One(0)),
            Layer::One(name) => match self.edge_meta().get_layer_id(name.as_str()) {
                Some(id) => Ok(LayerIds::One(id)),
                None => Err(GraphError::InvalidLayer(name)),
            },
            Layer::Multiple(names) => {
                let (ids, missing) = self.known_layer_ids(&names);
                match missing {
                    Some(i) => {
                        assert(!all_known(self@.edge_meta.layers, names@)) by {
                            assert(!self@.edge_meta.layers.contains(names@[i as int]@));
                        }
                        Err(GraphError::InvalidLayer(names[i].clone()))
                    },
                    None => Ok(selector_from(ids)),
                }
            },
        }
    }

    /// The selector for those of the layers named by `key` that are
    /// registered; names that are not are left out.
    pub fn valid_layer_ids_from_names(&self, key: Layer) -> (r: LayerIds)
        requires
            self.wf(),
        ensures
            match key {
                Layer::All => r == LayerIds::All,
                Layer::Default => r == LayerIds::One(0),
                Layer::One(name) => r == if self@.edge_meta.layers.contains(name@) {
                    LayerIds::One(self@.edge_meta.layers.index_of(name@) as usize)
                } else {
                    LayerIds::Empty
                },
                Layer::Multiple(names) => selector_of(
                    known_layers(self@.edge_meta.layers, names@),
                    r,
                ),
            },
    {
        match key {
            Layer::All => LayerIds::All,
            Layer::Default => LayerIds::One(0),
            Layer::One(name) => match self.edge_meta().get_layer_id(name.as_str()) {
                Some(id) => LayerIds::One(id),
                None => LayerIds::Empty,
            },
            Layer::Multiple(names) => {
                let (ids, _) = self.known_layer_ids(&names);
                selector_from(ids)
            },
        }
    }

    /// The number of distinct neighbours of node `v` in direction `d` over
    /// the selected layers; `0` for a node that does not exist.
    pub fn degree(&self, v: VID, d: Direction, layers: &LayerIds) -> (n: usize)
        requires
            self.wf(),
        ensures
            n == if v.0 < self@.nodes.len() {
                self@.nodes[v.0 as int].neighbour_set(*layers, d).len()
            } else {
                0
            },
    {
        match self.node(v) {
            Some(node) => node.degree(layers, d),
            None => 0,
        }
    }

    /// The neighbours of node `v` in direction `d` over the selected
    /// layers, each once, in ascending order; none for a node that does
    /// not exist.
    pub fn neighbours(&self, v: VID, d: Direction, layers: &LayerIds) -> (r: Vec<VID>)
        requires
            self.wf(),
        ensures
            strictly_ascending(r@),
            r@.no_duplicates(),
            forall|x: VID|
                r@.contains(x) <==> (v.0 < self@.nodes.len() && self@.nodes[v.0 as int].has_neighbour(
                    *layers,
                    d,
                    x,
                )),
    {
        match self.node(v) {
            Some(node) => node.neighbours(layers, d),
            None => Vec::new(),
        }
    }

    /// The edges of node `v` in direction `d` over the selected layers, in
    /// ascending order of their remote endpoint; none for a node that does
    /// not exist.
    pub fn edges(&self, v: VID, d: Direction, layers: &LayerIds) -> (r: Vec<EdgeRef>)
        requires
            self.wf(),
        ensures
            r@ == if v.0 < self@.nodes.len() {
                self@.nodes[v.0 as int].edge_tuples(*layers, d)
            } else {
                Seq::empty()
            },
            crate::merging::ascending_by_remote(r@),
            d != Direction::BOTH ==> crate::merging::strictly_ascending_by_remote(r@) && forall|
                e: EdgeRef,
            | #[trigger]
                r@.contains(e) <==> (v.0 < self@.nodes.len() && self@.nodes[v.0 as int].has_edge(
                    *layers,
                    d,
                    v,
                    e,
                )),
    {
        proof {
            self.lemma_wf();
            if v.0 < self@.nodes.len() {
                self@.lemma_one_edge_per_neighbour(v.0 as int, *layers, d);
                assert(self@.nodes[v.0 as int].vid == v);
            }
        }
        match self.node(v) {
            Some(node) => node.edge_tuples(layers, d),
            None => Vec::new(),
        }
    }

    /// The edge from `src` to `dst` in the first selected layer that has
    /// one.
    pub fn edge_ref(&self, src: VID, dst: VID, layers: &LayerIds) -> (r: Option<EdgeRef>)
        requires
            self.wf(),
        ensures
            r == if src.0 < self@.nodes.len() {
                match self@.nodes[src.0 as int].find_edge(dst, *layers) {
                    Some(e) => Some(EdgeRef::outgoing(e, src, dst)),
                    None => None,
                }
            } else {
                None
            },
    {
        match self.node(src) {
            Some(node) => match node.find_edge_eid(dst, layers) {
                Some(e) => Some(EdgeRef::new_outgoing(e, src, dst)),
                None => None,
            },
            None => None,
        }
    }

    /// Whether there is an edge from `src` to `dst` in one of the selected
    /// layers.
    pub fn has_edge(&self, src: VID, dst: VID, layers: &LayerIds) -> (b: bool)
        requires
            self.wf(),
        ensures
            b == (src.0 < self@.nodes.len() && self@.nodes[src.0 as int].find_edge(
                dst,
                *layers,
            ) is Some),
    {
        self.edge_ref(src, dst, layers).is_some()
    }

    /// Whether the edge `e` was added at some time in `[w.start, w.end)`
    /// in one of the selected layers.
    pub fn edge_active_in(&self, e: EID, layers: &LayerIds, w: Range<i64>) -> (b: bool)
        requires
            self.wf(),
        ensures
            b == self@.edge_active(e, *layers, w.start, w.end),
    {
        match self.edge(e) {
            Some(record) => record.active(layers, w),
            None => false,
        }
    }

    /// Whether there is an edge from `src` to `dst` in one of the selected
    /// layers that was added at some time in `[w.start, w.end)` in one of
    /// them.
    pub fn has_edge_window(&self, src: VID, dst: VID, layers: &LayerIds, w: Range<i64>) -> (b: bool)
        requires
            self.wf(),
        ensures
            b == (src.0 < self@.nodes.len() && match self@.nodes[src.0 as int].find_edge(
                dst,
                *layers,
            ) {
                Some(e) => self@.edge_active(e, *layers, w.start, w.end),
                None => false,
            }),
    {
        match self.edge_ref(src, dst, layers) {
            Some(e) => self.edge_active_in(e.pid(), layers, w),
            None => false,
        }
    }

    /// The far ends of the edges that node `v` lists for one side that
    /// were added in the window, in ascending order; a far end comes once
    /// for each such edge.
    fn active_remotes(&self, v: VID, d: Direction, layers: &LayerIds, w: &Range<i64>) -> (r: Vec<
        VID,
    >)
        requires
            self.wf(),
            v.0 < self@.nodes.len(),
            d != Direction::BOTH,
        ensures
            ascending(r@),
            forall|x: VID|
                r@.contains(x) <==> self@.linked_in_window(v, x, d, *layers, w.start, w.end),
    {
        let node = self.node_at(v);
        let listed = node.merge_layers(layers, d, v);
        let mut out: Vec<VID> = Vec::new();
        let mut i: usize = 0;
        while i < listed.len()
            invariant
                i <= listed.len(),
                self.wf(),
                node@ == self@.nodes[v.0 as int],
                crate::merging::ascending_by_remote(listed@),
                forall|e: EdgeRef| listed@.contains(e) <==> node@.has_edge(*layers, d, v, e),
                ascending(out@),
                forall|k: int| 0 <= k < out@.len() ==> listed_before(listed@, i as int, #[trigger] out@[k]),
                forall|x: VID|
                    out@.contains(x) <==> exists|j: int|
                        0 <= j < i && (#[trigger] listed@[j]).spec_remote() == x
                            && self@.edge_active(listed@[j].e_pid, *layers, w.start, w.end),
            decreases listed.len() - i,
        {
            let e = listed[i];
            let ghost before = out@;
            if self.edge_active_in(e.pid(), layers, w.start..w.end) {
                out.push(e.remote());
                proof {
                    assert forall|a: int, b: int| 0 <= a < b < out@.len() implies out@[a].0
                        <= out@[b].0 by {
                        if b == before.len() {
                            assert(listed_before(listed@, i as int, before[a]));
                            let j = choose|j: int|
                                0 <= j < i && (#[trigger] listed@[j]).spec_remote() == before[a];
                            assert(listed@[j].spec_remote().0 <= listed@[i as int].spec_remote().0);
                        } else {
                            assert(before[a].0 <= before[b].0);
                        }
                    }
                    assert forall|k: int| 0 <= k < out@.len() implies listed_before(
                        listed@,
                        i + 1,
                        #[trigger] out@[k],
                    ) by {
                        if k < before.len() {
                            assert(listed_before(listed@, i as int, before[k]));
                            let j = choose|j: int|
                                0 <= j < i && (#[trigger] listed@[j]).spec_remote() == before[k];
                            assert(listed@[j].spec_remote() == out@[k]);
                        } else {
                            assert(listed@[i as int].spec_remote() == out@[k]);
                        }
                    }
                }
            }
            proof {
                assert forall|k: int| 0 <= k < out@.len() implies listed_before(
                    listed@,
                    i + 1,
                    #[trigger] out@[k],
                ) by {
                    if k < before.len() {
                        assert(listed_before(listed@, i as int, before[k]));
                        let j = choose|j: int|
                            0 <= j < i && (#[trigger] listed@[j]).spec_remote() == before[k];
                        assert(listed@[j].spec_remote() == out@[k]);
                    } else {
                        assert(listed@[i as int].spec_remote() == out@[k]);
                    }
                }
                assert forall|x: VID|
                    out@.contains(x) <==> exists|j: int|
                        0 <= j < i + 1 && (#[trigger] listed@[j]).spec_remote() == x
                            && self@.edge_active(listed@[j].e_pid, *layers, w.start, w.end) by {
                    if out@.contains(x) {
                        let k = choose|k: int| 0 <= k < out@.len() && out@[k] == x;
                        if k < before.len() {
                            assert(before.contains(x));
                            let j = choose|j: int|
                                0 <= j < i && (#[trigger] listed@[j]).spec_remote() == x
                                    && self@.edge_active(
                                    listed@[j].e_pid,
                                    *layers,
                                    w.start,
                                    w.end,
                                );
                            assert(listed@[j].spec_remote() == x);
                        } else {
                            assert(listed@[i as int].spec_remote() == x);
                        }
                    }
                    if exists|j: int|
                        0 <= j < i + 1 && (#[trigger] listed@[j]).spec_remote() == x
                            && self@.edge_active(listed@[j].e_pid, *layers, w.start, w.end) {
                        let j = choose|j: int|
                            0 <= j < i + 1 && (#[trigger] listed@[j]).spec_remote() == x
                                && self@.edge_active(listed@[j].e_pid, *layers, w.start, w.end);
                        if j < i {
                            assert(before.contains(x));
                            let k = choose|k: int| 0 <= k < before.len() && before[k] == x;
                            assert(out@[k] == x);
                        } else {
                            assert(out@[before.len() as int] == x);
                        }
                    }
                }
            }
            i += 1;
        }
        proof {
            assert forall|x: VID|
                out@.contains(x) <==> self@.linked_in_window(v, x, d, *layers, w.start, w.end) by {
                if out@.contains(x) {
                    let j = choose|j: int|
                        0 <= j < i && (#[trigger] listed@[j]).spec_remote() == x
                            && self@.edge_active(listed@[j].e_pid, *layers, w.start, w.end);
                    assert(listed@.contains(listed@[j]));
                    assert(node@.has_edge(*layers, d, v, listed@[j]));
                }
                if self@.linked_in_window(v, x, d, *layers, w.start, w.end) {
                    let e = choose|e: EdgeRef| #[trigger]
                        self@.nodes[v.0 as int].has_edge(*layers, d, v, e) && e.spec_remote() == x
                            && self@.edge_active(e.e_pid, *layers, w.start, w.end);
                    assert(listed@.contains(e));
                    let j = choose|j: int| 0 <= j < listed@.len() && listed@[j] == e;
                    assert(listed@[j].spec_remote() == x);
                }
            }
        }
        out
    }

    /// The neighbours of node `v` in direction `d` over the selected
    /// layers by edges that were added in `[w.start, w.end)`, each once,
    /// in ascending order; none for a node that does not exist.
    pub fn neighbours_window(&self, v: VID, d: Direction, layers: &LayerIds, w: Range<i64>) -> (r:
        Vec<VID>)
        requires
            self.wf(),
        ensures
            strictly_ascending(r@),
            r@.no_duplicates(),
            forall|x: VID|
                r@.contains(x) <==> self@.neighbour_in_window(v, x, d, *layers, w.start, w.end),
    {
        if v.0 >= self.num_nodes() {
            return Vec::new();
        }
        match d {
            Direction::OUT => {
                let out = self.active_remotes(v, Direction::OUT, layers, &w);
                proof {
                    lemma_deduped_ascending(out@);
                    lemma_deduped(out@);
                }
                let r = dedup_ids(out);
                assert forall|x: VID|
                    r@.contains(x) <==> self@.neighbour_in_window(
                        v,
                        x,
                        d,
                        *layers,
                        w.start,
                        w.end,
                    ) by {
                    assert(r@.contains(x) <==> out@.contains(x));
                }
                r
            },
            Direction::IN => {
                let into = self.active_remotes(v, Direction::IN, layers, &w);
                proof {
                    lemma_deduped_ascending(into@);
                    lemma_deduped(into@);
                }
                let r = dedup_ids(into);
                assert forall|x: VID|
                    r@.contains(x) <==> self@.neighbour_in_window(
                        v,
                        x,
                        d,
                        *layers,
                        w.start,
                        w.end,
                    ) by {
                    assert(r@.contains(x) <==> into@.contains(x));
                }
                r
            },
            Direction::BOTH => {
                let out = self.active_remotes(v, Direction::OUT, layers, &w);
                let into = self.active_remotes(v, Direction::IN, layers, &w);
                let r = merge_two_unique(out, into);
                assert forall|x: VID|
                    r@.contains(x) <==> self@.neighbour_in_window(
                        v,
                        x,
                        d,
                        *layers,
                        w.start,
                        w.end,
                    ) by {
                    assert(r@.contains(x) <==> (out@.contains(x) || into@.contains(x)));
                }
                r
            },
        }
    }

    /// The number of distinct neighbours of node `v` in direction `d` over
    /// the selected layers by edges that were added in `[w.start, w.end)`.
    pub fn degree_window(&self, v: VID, d: Direction, layers: &LayerIds, w: Range<i64>) -> (n: usize)
        requires
            self.wf(),
        ensures
            n == Set::new(
                |x: VID| self@.neighbour_in_window(v, x, d, *layers, w.start, w.end),
            ).len(),
            Set::new(
                |x: VID| self@.neighbour_in_window(v, x, d, *layers, w.start, w.end),
            ).finite(),
    {
        let ghost start = w.start;
        let ghost end = w.end;
        let vs = self.neighbours_window(v, d, layers, w);
        proof {
            assert(vs@.to_set() =~= Set::new(
                |x: VID| self@.neighbour_in_window(v, x, d, *layers, start, end),
            ));
            vs@.unique_seq_to_set();
        }
        vs.len()
    }
}

/// Whether one of the first `i` listed edges has the far end `x`.
spec fn listed_before(listed: Seq<EdgeRef>, i: int, x: VID) -> bool {
    exists|j: int| 0 <= j < i && (#[trigger] listed[j]).spec_remote() == x
}

/// The selector of the layers `ids`.
fn selector_from(ids: Vec<usize>) -> (r: LayerIds)
    ensures
        selector_of(ids@, r),
{
    if ids.len() == 0 {
        LayerIds::Empty
    } else if ids.len() == 1 {
        assert(ids@ =~= seq![ids@[0]]);
        LayerIds::One(ids[0])
    } else {
        LayerIds::Multiple(ids)
    }
}

/// The selector that the edge reference `e` stands for.
pub fn edge_layers(e: &EdgeRef) -> (r: LayerIds)
    ensures
        r == layers_of(*e),
{
    match e.layer() {
        Some(l) => LayerIds::One(l),
        None => LayerIds::All,
    }
}

/// The end of the window of one logical time that starts at `t`.
pub open spec fn next_time(t: i64) -> i64 {
    if t == i64::MAX {
        t
    } else {
        (t + 1) as i64
    }
}

impl GraphView {
    /// The last time at which the edge of the reference `e` was added in
    /// the layers that the reference stands for.
    pub open spec fn edge_latest_time(self, e: EdgeRef) -> Option<i64> {
        if e.e_pid.0 < self.edges.len() {
            self.edges[e.e_pid.0 as int].latest_time(layers_of(e))
        } else {
            None
        }
    }

    /// The first time at which the edge of the reference `e` was added in
    /// the layers that the reference stands for.
    pub open spec fn edge_earliest_time(self, e: EdgeRef) -> Option<i64> {
        if e.e_pid.0 < self.edges.len() {
            self.edges[e.e_pid.0 as int].earliest_time(layers_of(e))
        } else {
            None
        }
    }

    /// Whether the edge of the reference `e` is active at `t`.
    ///
    /// A reference that is pinned to an update is active from the time of
    /// that update to the last addition of the edge. One that is not is
    /// active at `t` if the edge from its source to its destination was
    /// added at `t` in the layers that the reference stands for.
    pub open spec fn edge_active_at(self, e: EdgeRef, t: i64) -> bool {
        match e.time {
            Some(tt) => tt.0 <= t && t <= (match self.edge_latest_time(e) {
                Some(last) => last,
                None => tt.0,
            }),
            None => e.src_pid.0 < self.nodes.len() && (
            match self.nodes[e.src_pid.0 as int].find_edge(e.dst_pid, layers_of(e)) {
                Some(id) => self.edge_active(id, layers_of(e), t, next_time(t)),
                None => false,
            }),
        }
    }
}

impl InternalGraph {
    /// The times at which the edge of the reference `e` was added in the
    /// layers that the reference stands for, each once, in increasing
    /// order.
    pub fn edge_history(&self, e: &EdgeRef) -> (r: Vec<i64>)
        requires
            self.wf(),
        ensures
            increasing(r@),
            forall|t: i64| #[trigger]
                r@.contains(t) <==> (e.e_pid.0 < self@.edges.len() && self@.edges[e.e_pid.0 as int].added_at(
                    layers_of(*e),
                    t,
                )),
    {
        match self.edge(e.pid()) {
            Some(record) => record.times(&edge_layers(e)),
            None => Vec::new(),
        }
    }

    /// The last time at which the edge of the reference `e` was added.
    pub fn edge_latest_time(&self, e: &EdgeRef) -> (r: Option<i64>)
        requires
            self.wf(),
        ensures
            r == self@.edge_latest_time(*e),
    {
        match self.edge(e.pid()) {
            Some(record) => record.latest_time(&edge_layers(e)),
            None => None,
        }
    }

    /// The first time at which the edge of the reference `e` was added.
    pub fn edge_earliest_time(&self, e: &EdgeRef) -> (r: Option<i64>)
        requires
            self.wf(),
        ensures
            r == self@.edge_earliest_time(*e),
    {
        match self.edge(e.pid()) {
            Some(record) => record.earliest_time(&edge_layers(e)),
            None => None,
        }
    }

    /// Whether the edge of the reference `e` is active at `t`.
    pub fn edge_active(&self, e: &EdgeRef, t: i64) -> (b: bool)
        requires
            self.wf(),
        ensures
            b == self@.edge_active_at(*e, t),
    {
        match e.time() {
            Some(tt) => {
                let last = match self.edge_latest_time(e) {
                    Some(last) => last,
                    None => tt.t(),
                };
                tt.t() <= t && t <= last
            },
            None => {
                let end = if t == i64::MAX {
                    t
                } else {
                    t + 1
                };
                self.has_edge_window(e.src(), e.dst(), &edge_layers(e), t..end)
            },
        }
    }

    /// The name of the layer that the edge reference `e` is bound to; the
    /// default layer, and a reference that is bound to none, go by
    /// "default layer".
    pub fn edge_layer_name(&self, e: &EdgeRef) -> (r: String)
        requires
            self.wf(),
        ensures
            match e.layer_id {
                Some(l) => if 0 < l < self@.edge_meta.layers.len() {
                    r@ == self@.edge_meta.layers[l as int]
                } else {
                    r@ == "default layer"@
                },
                None => r@ == "default layer"@,
            },
    {
        match e.layer() {
            Some(l) => {
                if l == 0 {
                    "default layer".to_owned()
                } else {
                    match self.edge_meta().get_layer_name_by_id(l) {
                        Some(name) => name.clone(),
                        None => "default layer".to_owned(),
                    }
                }
            },
            None => "default layer".to_owned(),
        }
    }
}

} // verus!
