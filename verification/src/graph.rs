//! The graph: the registry of external node ids, the node and edge
//! records, and the protocol that every addition follows.

use crate::adj::{has_neighbour, lemma_entry_is_found};
use crate::edge_store::{EdgeStore, EdgeView};
use crate::entities::{Direction, EdgeRef, LayerIds, EID, VID};
use crate::errors::GraphError;
use crate::meta::{resolved_id, with_name, DictMapper, Meta, MetaView};
use crate::node_store::{
    first_some, lemma_first_some_cases, lemma_with_edge_entries, NodeStore, NodeView,
};
use crate::prop::{Prop, PropType};
use crate::props::{apply_props, PropsView};
use crate::timeindex::{index_insert, TimeIndexEntry};
use std::collections::HashMap;
use vstd::prelude::*;

verus! {

/// What a graph holds.
pub struct GraphView {
    /// The dense id of every external node id that has been resolved.
    pub ids: Map<u64, VID>,
    /// The node records, by dense node id.
    pub nodes: Seq<NodeView>,
    /// The edge records, by dense edge id.
    pub edges: Seq<EdgeView>,
    /// The sequence number that the next event gets.
    pub events: usize,
    /// The registries of node properties and node types.
    pub node_meta: MetaView,
    /// The registries of edge properties and layers.
    pub edge_meta: MetaView,
    /// The names of the temporal properties of the graph itself.
    pub graph_temporal: Seq<Seq<char>>,
    /// The names of the constant properties of the graph itself.
    pub graph_constant: Seq<Seq<char>>,
}

impl GraphView {
    /// Whether node `v` has, in layer `l`, the outgoing entry `w -> e`.
    pub open spec fn out_entry(self, v: int, l: int, w: VID, e: EID) -> bool {
        0 <= v < self.nodes.len() && 0 <= l < self.nodes[v].layers.len()
            && self.nodes[v].layers[l].out.contains((w, e))
    }

    /// Whether node `v` has, in layer `l`, the incoming entry `w -> e`.
    pub open spec fn in_entry(self, v: int, l: int, w: VID, e: EID) -> bool {
        0 <= v < self.nodes.len() && 0 <= l < self.nodes[v].layers.len()
            && self.nodes[v].layers[l].into.contains((w, e))
    }

    /// Every record sits at its dense id and is well formed.
    pub open spec fn records_wf(self) -> bool {
        &&& self.nodes.len() <= usize::MAX
        &&& self.edges.len() <= usize::MAX
        &&& forall|v: int|
            0 <= v < self.nodes.len() ==> (#[trigger] self.nodes[v]).wf() && self.nodes[v].vid
                == VID(v as usize)
        &&& forall|e: int|
            0 <= e < self.edges.len() ==> (#[trigger] self.edges[e]).wf() && self.edges[e].eid
                == EID(e as usize) && self.edges[e].src.0 < self.nodes.len() && self.edges[e].dst.0
                < self.nodes.len()
    }

    /// External ids and dense node ids correspond one to one.
    pub open spec fn ids_wf(self) -> bool {
        &&& forall|g: u64| #[trigger]
            self.ids.contains_key(g) ==> self.ids[g].0 < self.nodes.len()
                && self.nodes[self.ids[g].0 as int].global_id == g
        &&& forall|v: int|
            0 <= v < self.nodes.len() ==> self.ids.contains_key(
                (#[trigger] self.nodes[v]).global_id,
            ) && self.ids[self.nodes[v].global_id] == VID(v as usize)
    }

    /// Every adjacency entry has its edge record and its mirror entry at
    /// the other endpoint, in the same layer and with the same edge id; no
    /// two edge records join the same endpoints in the same direction.
    pub open spec fn edges_wf(self) -> bool {
        &&& forall|v: int, l: int, w: VID, e: EID| #[trigger]
            self.out_entry(v, l, w, e) ==> e.0 < self.edges.len() && self.edges[e.0 as int].src
                == VID(v as usize) && self.edges[e.0 as int].dst == w && self.in_entry(
                w.0 as int,
                l,
                VID(v as usize),
                e,
            )
        &&& forall|v: int, l: int, w: VID, e: EID| #[trigger]
            self.in_entry(v, l, w, e) ==> e.0 < self.edges.len() && self.edges[e.0 as int].dst
                == VID(v as usize) && self.edges[e.0 as int].src == w && self.out_entry(
                w.0 as int,
                l,
                VID(v as usize),
                e,
            )
        &&& forall|a: int, b: int|
            0 <= a < self.edges.len() && 0 <= b < self.edges.len() && (#[trigger] self.edges[a]).src
                == (#[trigger] self.edges[b]).src && self.edges[a].dst == self.edges[b].dst ==> a
                == b
        &&& forall|e: int| 0 <= e < self.edges.len() ==> #[trigger] self.linked_somewhere(e)
    }

    /// Whether the edge record `e` is linked in some layer.
    pub open spec fn linked_somewhere(self, e: int) -> bool {
        exists|l: int| #[trigger]
            self.out_entry(self.edges[e].src.0 as int, l, self.edges[e].dst, EID(e as usize))
    }

    /// The graph is well formed.
    pub open spec fn wf(self) -> bool {
        self.records_wf() && self.ids_wf() && self.edges_wf()
    }

    /// Every external id that `self` knows, `later` knows with the same
    /// dense id.
    pub open spec fn ids_kept(self, later: GraphView) -> bool {
        forall|g: u64| #[trigger]
            self.ids.contains_key(g) ==> later.ids.contains_key(g) && later.ids[g] == self.ids[g]
    }

    /// The dense id that resolving the external id `id` gives.
    pub open spec fn node_id(self, id: u64) -> VID {
        if self.ids.contains_key(id) {
            self.ids[id]
        } else {
            VID(self.nodes.len() as usize)
        }
    }

    /// The record of a node that was just resolved for the first time.
    pub open spec fn fresh_node(self, id: u64, name: Option<Seq<char>>) -> NodeView {
        NodeView {
            global_id: id,
            name,
            vid: VID(self.nodes.len() as usize),
            times: Seq::empty(),
            layers: seq![crate::adj::AdjView::solo()],
            props: PropsView::empty(),
            node_type: 0,
        }
    }

    /// The graph after the external id `id` is resolved with the name
    /// `name`: a new id gets the next dense id and a record; a known id
    /// keeps its dense id, and takes the name if it has none.
    pub open spec fn with_node(self, id: u64, name: Option<Seq<char>>) -> GraphView {
        if self.ids.contains_key(id) {
            let v = self.ids[id].0 as int;
            let named = if self.nodes[v].name is None && name is Some {
                NodeView { name, ..self.nodes[v] }
            } else {
                self.nodes[v]
            };
            GraphView { nodes: self.nodes.update(v, named), ..self }
        } else {
            GraphView {
                ids: self.ids.insert(id, VID(self.nodes.len() as usize)),
                nodes: self.nodes.push(self.fresh_node(id, name)),
                ..self
            }
        }
    }

    /// Replacing node records by records with the same identity and the
    /// same adjacency keeps the graph well formed.
    pub proof fn lemma_same_links(self, later: GraphView)
        requires
            self.wf(),
            later.ids == self.ids,
            later.nodes.len() == self.nodes.len(),
            forall|v: int|
                0 <= v < self.nodes.len() ==> (#[trigger] later.nodes[v]).wf() && later.nodes[v].vid
                    == self.nodes[v].vid && later.nodes[v].global_id == self.nodes[v].global_id
                    && later.nodes[v].layers == self.nodes[v].layers,
            later.edges.len() == self.edges.len(),
            forall|e: int|
                0 <= e < self.edges.len() ==> (#[trigger] later.edges[e]).wf() && later.edges[e].eid
                    == self.edges[e].eid && later.edges[e].src == self.edges[e].src
                    && later.edges[e].dst == self.edges[e].dst,
        ensures
            later.wf(),
    {
        assert forall|v: int, l: int, w: VID, e: EID| #[trigger]
            later.out_entry(v, l, w, e) implies e.0 < later.edges.len() && later.edges[e.0 as int].src
            == VID(v as usize) && later.edges[e.0 as int].dst == w && later.in_entry(
            w.0 as int,
            l,
            VID(v as usize),
            e,
        ) by {
            assert(self.out_entry(v, l, w, e));
            assert(self.in_entry(w.0 as int, l, VID(v as usize), e));
        }
        assert forall|v: int, l: int, w: VID, e: EID| #[trigger]
            later.in_entry(v, l, w, e) implies e.0 < later.edges.len() && later.edges[e.0 as int].dst
            == VID(v as usize) && later.edges[e.0 as int].src == w && later.out_entry(
            w.0 as int,
            l,
            VID(v as usize),
            e,
        ) by {
            assert(self.in_entry(v, l, w, e));
            assert(self.out_entry(w.0 as int, l, VID(v as usize), e));
        }
        assert forall|g: u64| #[trigger] later.ids.contains_key(g) implies later.ids[g].0
            < later.nodes.len() && later.nodes[later.ids[g].0 as int].global_id == g by {
            assert(self.ids.contains_key(g));
        }
        assert forall|v: int| 0 <= v < later.nodes.len() implies later.ids.contains_key(
            (#[trigger] later.nodes[v]).global_id,
        ) && later.ids[later.nodes[v].global_id] == VID(v as usize) by {
            assert(self.ids.contains_key(self.nodes[v].global_id));
        }
        assert forall|a: int, b: int|
            0 <= a < later.edges.len() && 0 <= b < later.edges.len() && (
            #[trigger] later.edges[a]).src == (#[trigger] later.edges[b]).src && later.edges[a].dst
                == later.edges[b].dst implies a == b by {
            assert(self.edges[a].src == self.edges[b].src);
        }
        assert forall|e: int| 0 <= e < later.edges.len() implies #[trigger] later.linked_somewhere(
            e,
        ) by {
            assert(self.linked_somewhere(e));
            let l = choose|l: int| #[trigger]
                self.out_entry(self.edges[e].src.0 as int, l, self.edges[e].dst, EID(e as usize));
            assert(later.out_entry(
                later.edges[e].src.0 as int,
                l,
                later.edges[e].dst,
                EID(e as usize),
            ));
        }
    }

    /// Resolving an external id keeps the graph well formed and every
    /// dense id that was given out.
    pub proof fn lemma_with_node(self, id: u64, name: Option<Seq<char>>)
        requires
            self.wf(),
            self.ids.contains_key(id) || self.nodes.len() < usize::MAX,
        ensures
            self.with_node(id, name).wf(),
            self.ids_kept(self.with_node(id, name)),
            self.with_node(id, name).ids.contains_key(id),
            self.with_node(id, name).ids[id] == self.node_id(id),
    {
        let later = self.with_node(id, name);
        if self.ids.contains_key(id) {
            self.lemma_same_links(later);
        } else {
            let n = self.nodes.len() as int;
            assert forall|v: int| 0 <= v < self.nodes.len() implies (#[trigger] self.nodes[v]).global_id
                != id by {
                assert(self.ids.contains_key(self.nodes[v].global_id));
            }
            assert(later.nodes[n].layers[0].out =~= Seq::empty());
            assert(later.nodes[n].layers[0].into =~= Seq::empty());
            assert forall|v: int, l: int, w: VID, e: EID| #[trigger]
                later.out_entry(v, l, w, e) implies e.0 < later.edges.len()
                && later.edges[e.0 as int].src == VID(v as usize) && later.edges[e.0 as int].dst
                == w && later.in_entry(w.0 as int, l, VID(v as usize), e) by {
                if v < n {
                    assert(self.out_entry(v, l, w, e));
                    assert(self.in_entry(w.0 as int, l, VID(v as usize), e));
                }
            }
            assert forall|v: int, l: int, w: VID, e: EID| #[trigger]
                later.in_entry(v, l, w, e) implies e.0 < later.edges.len()
                && later.edges[e.0 as int].dst == VID(v as usize) && later.edges[e.0 as int].src
                == w && later.out_entry(w.0 as int, l, VID(v as usize), e) by {
                if v < n {
                    assert(self.in_entry(v, l, w, e));
                    assert(self.out_entry(w.0 as int, l, VID(v as usize), e));
                }
            }
            assert forall|g: u64| #[trigger] later.ids.contains_key(g) implies later.ids[g].0
                < later.nodes.len() && later.nodes[later.ids[g].0 as int].global_id == g by {
                if g != id {
                    assert(self.ids.contains_key(g));
                }
            }
            assert forall|v: int| 0 <= v < later.nodes.len() implies later.ids.contains_key(
                (#[trigger] later.nodes[v]).global_id,
            ) && later.ids[later.nodes[v].global_id] == VID(v as usize) by {
                if v < n {
                    assert(self.ids.contains_key(self.nodes[v].global_id));
                }
            }
            assert forall|a: int, b: int|
                0 <= a < later.edges.len() && 0 <= b < later.edges.len() && (
                #[trigger] later.edges[a]).src == (#[trigger] later.edges[b]).src
                    && later.edges[a].dst == later.edges[b].dst implies a == b by {
                assert(self.edges[a].src == self.edges[b].src);
            }
            assert forall|e: int| 0 <= e < later.edges.len() implies #[trigger] later.linked_somewhere(
                e,
            ) by {
                assert(self.linked_somewhere(e));
                assert(self.edges[e].wf());
                let l = choose|l: int| #[trigger]
                    self.out_entry(
                        self.edges[e].src.0 as int,
                        l,
                        self.edges[e].dst,
                        EID(e as usize),
                    );
                assert(later.out_entry(
                    later.edges[e].src.0 as int,
                    l,
                    later.edges[e].dst,
                    EID(e as usize),
                ));
            }
            assert forall|v: int| 0 <= v < later.nodes.len() implies (#[trigger] later.nodes[v]).wf()
                && later.nodes[v].vid == VID(v as usize) by {
                if v < n {
                    assert(self.nodes[v].wf());
                }
            }
            assert forall|e: int| 0 <= e < later.edges.len() implies (#[trigger] later.edges[e]).wf()
                && later.edges[e].eid == EID(e as usize) && later.edges[e].src.0 < later.nodes.len()
                && later.edges[e].dst.0 < later.nodes.len() by {
                assert(self.edges[e].wf());
            }
        }
    }
}

impl GraphView {
    /// Whether node `v` has an outgoing edge to `w` in layer `l`.
    pub open spec fn has_out(self, v: int, l: int, w: VID) -> bool {
        0 <= v < self.nodes.len() && 0 <= l < self.nodes[v].layers.len() && has_neighbour(
            self.nodes[v].layers[l].out,
            w,
        )
    }

    /// Whether node `v` has an incoming edge from `w` in layer `l`.
    pub open spec fn has_in(self, v: int, l: int, w: VID) -> bool {
        0 <= v < self.nodes.len() && 0 <= l < self.nodes[v].layers.len() && has_neighbour(
            self.nodes[v].layers[l].into,
            w,
        )
    }

    /// The record `n` after it was touched at `t`.
    pub open spec fn touched(n: NodeView, t: i64) -> NodeView {
        NodeView { times: index_insert(n.times, t), ..n }
    }

    /// The node records after the edge `e` from `src` to `dst` is linked in
    /// layer `layer` at `t`: `src` gets the outgoing entry and `dst` the
    /// incoming one, unless they have it, and both are touched at `t`.
    pub open spec fn linked(
        nodes: Seq<NodeView>,
        t: i64,
        src: VID,
        dst: VID,
        layer: usize,
        e: EID,
    ) -> Seq<NodeView> {
        let n1 = nodes.update(
            src.0 as int,
            GraphView::touched(nodes[src.0 as int].with_edge(dst, Direction::OUT, layer, e), t),
        );
        n1.update(
            dst.0 as int,
            GraphView::touched(n1[dst.0 as int].with_edge(src, Direction::IN, layer, e), t),
        )
    }

    /// The edge from `src` to `dst`, whichever layers it is in.
    pub open spec fn edge_between(self, src: VID, dst: VID) -> Option<EID> {
        self.nodes[src.0 as int].find_edge(dst, LayerIds::All)
    }

    /// The id of the edge from `src` to `dst`: the one it has, or else the
    /// next free one.
    pub open spec fn edge_id(self, src: VID, dst: VID) -> EID {
        match self.edge_between(src, dst) {
            Some(e) => e,
            None => EID(self.edges.len() as usize),
        }
    }

    /// The edge found between two nodes is their edge record; if none is
    /// found, no layer holds an edge between them.
    pub proof fn lemma_edge_between(self, src: VID, dst: VID)
        requires
            self.wf(),
            src.0 < self.nodes.len(),
        ensures
            match self.edge_between(src, dst) {
                Some(e) => e.0 < self.edges.len() && self.edges[e.0 as int].src == src
                    && self.edges[e.0 as int].dst == dst,
                None => forall|l: int| !self.has_out(src.0 as int, l, dst),
            },
    {
        let n = self.nodes[src.0 as int];
        assert(n.wf());
        let hits = Seq::new(n.layers.len(), |l: int| n.out_edge_in(l, dst));
        lemma_first_some_cases(hits);
        match self.edge_between(src, dst) {
            Some(e) => {
                let k = choose|k: int| 0 <= k < hits.len() && #[trigger] hits[k] == first_some(hits);
                assert(n.layers[k].wf());
                lemma_entry_is_found(n.layers[k].out, dst, e);
                assert(self.out_entry(src.0 as int, k, dst, e));
            },
            None => {
                assert forall|l: int| !self.has_out(src.0 as int, l, dst) by {
                    if 0 <= l < n.layers.len() {
                        assert(hits[l] is None);
                        assert(n.layers[l].wf());
                        lemma_entry_is_found(n.layers[l].out, dst, EID(0));
                    }
                }
            },
        }
    }

    /// Linking an edge keeps the graph well formed, whether the edge record
    /// is the one that the endpoints already share or a new one at the
    /// next free id.
    pub proof fn lemma_link(
        self,
        later: GraphView,
        t: i64,
        src: VID,
        dst: VID,
        layer: usize,
        e: EID,
    )
        requires
            self.wf(),
            src.0 < self.nodes.len(),
            dst.0 < self.nodes.len(),
            later.ids == self.ids,
            later.nodes == GraphView::linked(self.nodes, t, src, dst, layer, e),
            e == self.edge_id(src, dst),
            later.edges.len() == if e.0 < self.edges.len() {
                self.edges.len()
            } else {
                self.edges.len() + 1
            },
            forall|i: int|
                0 <= i < self.edges.len() ==> (#[trigger] later.edges[i]).eid == self.edges[i].eid
                    && later.edges[i].src == self.edges[i].src && later.edges[i].dst
                    == self.edges[i].dst,
            forall|i: int| 0 <= i < later.edges.len() ==> (#[trigger] later.edges[i]).wf(),
            e.0 == self.edges.len() ==> later.edges[e.0 as int].eid == e && later.edges[e.0 as int].src
                == src && later.edges[e.0 as int].dst == dst,
            later.edges.len() <= usize::MAX,
        ensures
            later.wf(),
            e.0 < later.edges.len(),
            later.out_entry(src.0 as int, layer as int, dst, e),
            later.in_entry(dst.0 as int, layer as int, src, e),
    {
        self.lemma_edge_between(src, dst);
        let s = src.0 as int;
        let d = dst.0 as int;
        let ns = self.nodes[s];
        assert(ns.wf());
        lemma_with_edge_entries(ns, dst, Direction::OUT, layer, e);
        let n1 = self.nodes.update(
            s,
            GraphView::touched(ns.with_edge(dst, Direction::OUT, layer, e), t),
        );
        let nd = n1[d];
        assert(nd.wf()) by {
            if s != d {
                assert(self.nodes[d].wf());
            } else {
                lemma_touched_wf(ns.with_edge(dst, Direction::OUT, layer, e), t);
            }
        }
        lemma_touched_wf(ns.with_edge(dst, Direction::OUT, layer, e), t);
        lemma_with_edge_entries(nd, src, Direction::IN, layer, e);
        lemma_touched_wf(nd.with_edge(src, Direction::IN, layer, e), t);
        assert(later.nodes.len() == self.nodes.len());
        assert(e.0 < self.edges.len() ==> self.edges[e.0 as int].src == src && self.edges[e.0 as int].dst
            == dst);
        assert(later.edges[e.0 as int].src == src && later.edges[e.0 as int].dst == dst);
        // If the endpoints are linked in the layer, it is by this edge.
        assert forall|f: EID| self.out_entry(s, layer as int, dst, f) implies f == e by {
            assert(self.edges[f.0 as int].src == src && self.edges[f.0 as int].dst == dst);
            if e.0 == self.edges.len() {
                assert(has_neighbour(self.nodes[s].layers[layer as int].out, dst)) by {
                    let i = choose|i: int|
                        0 <= i < self.nodes[s].layers[layer as int].out.len()
                            && self.nodes[s].layers[layer as int].out[i] == (dst, f);
                    assert(self.nodes[s].layers[layer as int].out[i].0 == dst);
                }
                assert(self.has_out(s, layer as int, dst));
            } else {
                assert(self.edges[e.0 as int].src == self.edges[f.0 as int].src);
            }
        }
        // The outgoing and the incoming side are linked together or not at all.
        assert(self.has_out(s, layer as int, dst) <==> self.has_in(d, layer as int, src)) by {
            if self.has_out(s, layer as int, dst) {
                let out = self.nodes[s].layers[layer as int].out;
                let i = choose|i: int| 0 <= i < out.len() && (#[trigger] out[i]).0 == dst;
                assert(out.contains(out[i]));
                assert(self.out_entry(s, layer as int, dst, out[i].1));
                assert(self.in_entry(d, layer as int, src, out[i].1));
                let into = self.nodes[d].layers[layer as int].into;
                let j = choose|j: int| 0 <= j < into.len() && into[j] == (src, out[i].1);
                assert(into[j].0 == src);
            }
            if self.has_in(d, layer as int, src) {
                let into = self.nodes[d].layers[layer as int].into;
                let i = choose|i: int| 0 <= i < into.len() && (#[trigger] into[i]).0 == src;
                assert(into.contains(into[i]));
                assert(self.in_entry(d, layer as int, src, into[i].1));
                assert(self.out_entry(s, layer as int, dst, into[i].1));
                let out = self.nodes[s].layers[layer as int].out;
                let j = choose|j: int| 0 <= j < out.len() && out[j] == (dst, into[i].1);
                assert(out[j].0 == dst);
            }
        }
        let linked_now = !self.has_out(s, layer as int, dst);
        assert forall|v: int, l: int, w: VID, f: EID|
            later.out_entry(v, l, w, f) <==> (self.out_entry(v, l, w, f) || (linked_now && v == s
                && l == layer && w == dst && f == e)) by {
            if 0 <= v < later.nodes.len() {
                if v == s {
                    if s == d {
                        assert(later.nodes[v].layers == nd.with_edge(
                            src,
                            Direction::IN,
                            layer,
                            e,
                        ).layers);
                    } else {
                        assert(later.nodes[v].layers == ns.with_edge(
                            dst,
                            Direction::OUT,
                            layer,
                            e,
                        ).layers);
                    }
                } else if v == d {
                    assert(later.nodes[v].layers == nd.with_edge(
                        src,
                        Direction::IN,
                        layer,
                        e,
                    ).layers);
                    assert(nd == self.nodes[d]);
                } else {
                    assert(later.nodes[v] == self.nodes[v]);
                }
            }
        }
        assert forall|v: int, l: int, w: VID, f: EID|
            later.in_entry(v, l, w, f) <==> (self.in_entry(v, l, w, f) || (linked_now && v == d
                && l == layer && w == src && f == e)) by {
            if 0 <= v < later.nodes.len() {
                if v == d {
                    assert(later.nodes[v].layers == nd.with_edge(
                        src,
                        Direction::IN,
                        layer,
                        e,
                    ).layers);
                } else if v == s {
                    assert(later.nodes[v].layers == ns.with_edge(
                        dst,
                        Direction::OUT,
                        layer,
                        e,
                    ).layers);
                } else {
                    assert(later.nodes[v] == self.nodes[v]);
                }
            }
        }
        assert forall|v: int, l: int, w: VID, f: EID| #[trigger]
            later.out_entry(v, l, w, f) implies f.0 < later.edges.len()
            && later.edges[f.0 as int].src == VID(v as usize) && later.edges[f.0 as int].dst == w
            && later.in_entry(w.0 as int, l, VID(v as usize), f) by {
            if self.out_entry(v, l, w, f) {
                assert(self.in_entry(w.0 as int, l, VID(v as usize), f));
            }
        }
        assert forall|v: int, l: int, w: VID, f: EID| #[trigger]
            later.in_entry(v, l, w, f) implies f.0 < later.edges.len()
            && later.edges[f.0 as int].dst == VID(v as usize) && later.edges[f.0 as int].src == w
            && later.out_entry(w.0 as int, l, VID(v as usize), f) by {
            if self.in_entry(v, l, w, f) {
                assert(self.out_entry(w.0 as int, l, VID(v as usize), f));
            }
        }
        assert forall|a: int, b: int|
            0 <= a < later.edges.len() && 0 <= b < later.edges.len() && (
            #[trigger] later.edges[a]).src == (#[trigger] later.edges[b]).src && later.edges[a].dst
                == later.edges[b].dst implies a == b by {
            if a < self.edges.len() && b < self.edges.len() {
                assert(self.edges[a].src == self.edges[b].src);
            } else if a != b {
                // One of them is the new record: no edge joined its endpoints before.
                let o = if a < self.edges.len() {
                    a
                } else {
                    b
                };
                assert(self.edges[o].src == src && self.edges[o].dst == dst);
                assert(self.linked_somewhere(o));
                let l = choose|l: int| #[trigger]
                    self.out_entry(
                        self.edges[o].src.0 as int,
                        l,
                        self.edges[o].dst,
                        EID(o as usize),
                    );
                let out = self.nodes[s].layers[l].out;
                let i = choose|i: int| 0 <= i < out.len() && out[i] == (dst, EID(o as usize));
                assert(out[i].0 == dst);
                assert(self.has_out(s, l, dst));
                assert(false);
            }
        }
        assert forall|i: int| 0 <= i < later.edges.len() implies #[trigger] later.linked_somewhere(
            i,
        ) by {
            if i < self.edges.len() {
                assert(self.linked_somewhere(i));
                let l = choose|l: int| #[trigger]
                    self.out_entry(
                        self.edges[i].src.0 as int,
                        l,
                        self.edges[i].dst,
                        EID(i as usize),
                    );
                assert(later.out_entry(
                    later.edges[i].src.0 as int,
                    l,
                    later.edges[i].dst,
                    EID(i as usize),
                ));
            } else {
                assert(later.out_entry(s, layer as int, dst, e));
            }
        }
        assert forall|g: u64| #[trigger] later.ids.contains_key(g) implies later.ids[g].0
            < later.nodes.len() && later.nodes[later.ids[g].0 as int].global_id == g by {
            assert(self.ids.contains_key(g));
        }
        assert forall|v: int| 0 <= v < later.nodes.len() implies later.ids.contains_key(
            (#[trigger] later.nodes[v]).global_id,
        ) && later.ids[later.nodes[v].global_id] == VID(v as usize) by {
            assert(self.ids.contains_key(self.nodes[v].global_id));
        }
        assert forall|v: int| 0 <= v < later.nodes.len() implies (#[trigger] later.nodes[v]).wf()
            && later.nodes[v].vid == VID(v as usize) by {
            assert(self.nodes[v].wf());
        }
        assert forall|i: int| 0 <= i < later.edges.len() implies (#[trigger] later.edges[i]).wf()
            && later.edges[i].eid == EID(i as usize) && later.edges[i].src.0 < later.nodes.len()
            && later.edges[i].dst.0 < later.nodes.len() by {
            if i < self.edges.len() {
                assert(self.edges[i].wf());
            }
        }
        if linked_now {
        } else {
            let out = self.nodes[s].layers[layer as int].out;
            let i = choose|i: int| 0 <= i < out.len() && (#[trigger] out[i]).0 == dst;
            assert(out.contains(out[i]));
            assert(self.out_entry(s, layer as int, dst, out[i].1));
        }
    }
}

/// Touching a record keeps it well formed.
pub proof fn lemma_touched_wf(n: NodeView, t: i64)
    requires
        n.wf(),
    ensures
        GraphView::touched(n, t).wf(),
        GraphView::touched(n, t).layers == n.layers,
{
    crate::timeindex::lemma_index_insert(n.times, t);
}

/// However a graph moves on, as long as every step keeps the dense ids
/// that were given out, an external id that has a dense id has the same
/// one at the end: resolving it again gives what resolving it gave before.
pub proof fn lemma_dense_id_stable(steps: Seq<GraphView>, id: u64)
    requires
        steps.len() > 0,
        steps.first().ids.contains_key(id),
        forall|i: int| 0 <= i < steps.len() - 1 ==> (#[trigger] steps[i]).ids_kept(steps[i + 1]),
    ensures
        steps.last().ids.contains_key(id),
        steps.last().node_id(id) == steps.first().node_id(id),
    decreases steps.len(),
{
    if steps.len() > 1 {
        let rest = steps.drop_first();
        assert(steps[0].ids_kept(steps[1]));
        assert(rest[0] == steps[1]);
        assert forall|i: int| 0 <= i < rest.len() - 1 implies (#[trigger] rest[i]).ids_kept(
            rest[i + 1],
        ) by {
            assert(steps[i + 1].ids_kept(steps[i + 2]));
        }
        lemma_dense_id_stable(rest, id);
        assert(rest.last() == steps.last());
    }
}

/// Resolving an external id twice gives the same dense id, whichever other
/// ids are resolved in between.
pub proof fn lemma_resolve_twice(
    g: GraphView,
    id: u64,
    name: Option<Seq<char>>,
    between: Seq<(u64, Option<Seq<char>>)>,
    again: Option<Seq<char>>,
)
    requires
        g.wf(),
        g.nodes.len() + between.len() + 1 < usize::MAX,
    ensures
        with_nodes(g.with_node(id, name), between).with_node(id, again).ids[id] == g.with_node(
            id,
            name,
        ).ids[id],
        with_nodes(g.with_node(id, name), between).node_id(id) == g.node_id(id),
{
    g.lemma_with_node(id, name);
    lemma_with_nodes(g.with_node(id, name), between);
    let mid = with_nodes(g.with_node(id, name), between);
    assert(g.with_node(id, name).ids.contains_key(id));
    assert(mid.ids.contains_key(id));
    mid.lemma_with_node(id, again);
}

/// The graph after every external id of `more` is resolved, one after the
/// other.
pub open spec fn with_nodes(g: GraphView, more: Seq<(u64, Option<Seq<char>>)>) -> GraphView
    decreases more.len(),
{
    if more.len() == 0 {
        g
    } else {
        with_nodes(g.with_node(more.first().0, more.first().1), more.drop_first())
    }
}

/// Resolving a sequence of external ids keeps the graph well formed and
/// every dense id that was given out.
pub proof fn lemma_with_nodes(g: GraphView, more: Seq<(u64, Option<Seq<char>>)>)
    requires
        g.wf(),
        g.nodes.len() + more.len() < usize::MAX,
    ensures
        with_nodes(g, more).wf(),
        g.ids_kept(with_nodes(g, more)),
        with_nodes(g, more).nodes.len() <= g.nodes.len() + more.len(),
    decreases more.len(),
{
    if more.len() > 0 {
        g.lemma_with_node(more.first().0, more.first().1);
        let next = g.with_node(more.first().0, more.first().1);
        lemma_with_nodes(next, more.drop_first());
        assert forall|x: u64| #[trigger] g.ids.contains_key(x) implies with_nodes(
            g,
            more,
        ).ids.contains_key(x) && with_nodes(g, more).ids[x] == g.ids[x] by {
            assert(next.ids.contains_key(x));
        }
    }
}

/// The graph: registries, node records and edge records.
pub struct InternalGraph {
    logical_to_physical: HashMap<u64, usize>,
    nodes: Vec<NodeStore>,
    edges: Vec<EdgeStore>,
    node_meta: Meta,
    edge_meta: Meta,
    graph_temporal: DictMapper,
    graph_constant: DictMapper,
    event_counter: usize,
}

impl View for InternalGraph {
    type V = GraphView;

    closed spec fn view(&self) -> GraphView {
        GraphView {
            ids: self.logical_to_physical@.map_values(|v: usize| VID(v)),
            nodes: self.nodes@.map_values(|n: NodeStore| n@),
            edges: self.edges@.map_values(|e: EdgeStore| e@),
            events: self.event_counter,
            node_meta: self.node_meta@,
            edge_meta: self.edge_meta@,
            graph_temporal: self.graph_temporal@,
            graph_constant: self.graph_constant@,
        }
    }
}

impl InternalGraph {
    /// The graph is well formed: its view is, and so is every part.
    pub closed spec fn wf(&self) -> bool {
        self@.wf() && self.parts_wf()
    }

    /// Every record and every registry is well formed.
    closed spec fn parts_wf(&self) -> bool {
        &&& forall|v: int| 0 <= v < self.nodes@.len() ==> (#[trigger] self.nodes@[v]).wf()
        &&& forall|e: int| 0 <= e < self.edges@.len() ==> (#[trigger] self.edges@[e]).wf()
        &&& self.node_meta.wf()
        &&& self.edge_meta.wf()
        &&& self.graph_temporal.wf()
        &&& self.graph_constant.wf()
    }

    /// A well-formed graph has a well-formed view.
    pub proof fn lemma_wf(&self)
        requires
            self.wf(),
        ensures
            self@.wf(),
            self@.edge_meta.layers.len() > 0,
    {
        self.edge_meta.lemma_wf();
    }

    /// The graph without nodes and edges.
    pub fn new() -> (r: InternalGraph)
        ensures
            r.wf(),
            r@.ids == Map::<u64, VID>::empty(),
            r@.nodes == Seq::<NodeView>::empty(),
            r@.edges == Seq::<EdgeView>::empty(),
            r@.events == 0,
    {
        broadcast use vstd::std_specs::hash::group_hash_axioms;

        let r = InternalGraph {
            logical_to_physical: HashMap::new(),
            nodes: Vec::new(),
            edges: Vec::new(),
            node_meta: Meta::new(),
            edge_meta: Meta::new(),
            graph_temporal: DictMapper::new(),
            graph_constant: DictMapper::new(),
            event_counter: 0,
        };
        assert(r@.ids =~= Map::<u64, VID>::empty());
        assert(r@.nodes =~= Seq::<NodeView>::empty());
        assert(r@.edges =~= Seq::<EdgeView>::empty());
        r
    }

    /// The number of nodes.
    pub fn num_nodes(&self) -> (n: usize)
        ensures
            n == self@.nodes.len(),
    {
        self.nodes.len()
    }

    /// The number of edges.
    pub fn num_edges(&self) -> (n: usize)
        ensures
            n == self@.edges.len(),
    {
        self.edges.len()
    }

    /// The dense id of the external id `id`, if it has been resolved.
    pub fn node_id(&self, id: u64) -> (r: Option<VID>)
        requires
            self.wf(),
        ensures
            r == if self@.ids.contains_key(id) {
                Some(self@.ids[id])
            } else {
                None
            },
            r matches Some(v) ==> v.0 < self@.nodes.len(),
    {
        broadcast use vstd::std_specs::hash::group_hash_axioms;

        match self.logical_to_physical.get(&id) {
            Some(v) => {
                assert(self@.ids.contains_key(id));
                Some(VID(*v))
            },
            None => None,
        }
    }

    /// The record of node `v`.
    pub fn node(&self, v: VID) -> (r: Option<&NodeStore>)
        requires
            self.wf(),
        ensures
            match r {
                Some(n) => v.0 < self@.nodes.len() && n@ == self@.nodes[v.0 as int] && n.wf(),
                None => v.0 >= self@.nodes.len(),
            },
    {
        if v.0 < self.nodes.len() {
            assert(self.nodes@[v.0 as int].wf());
            Some(&self.nodes[v.0])
        } else {
            None
        }
    }

    /// The record of node `v`, which exists.
    pub(crate) fn node_at(&self, v: VID) -> (r: &NodeStore)
        requires
            self.wf(),
            v.0 < self@.nodes.len(),
        ensures
            r@ == self@.nodes[v.0 as int],
            r.wf(),
    {
        assert(self.nodes@[v.0 as int].wf());
        &self.nodes[v.0]
    }

    /// The record of edge `e`.
    pub fn edge(&self, e: EID) -> (r: Option<&EdgeStore>)
        requires
            self.wf(),
        ensures
            match r {
                Some(s) => e.0 < self@.edges.len() && s@ == self@.edges[e.0 as int] && s.wf(),
                None => e.0 >= self@.edges.len(),
            },
    {
        if e.0 < self.edges.len() {
            assert(self.edges@[e.0 as int].wf());
            Some(&self.edges[e.0])
        } else {
            None
        }
    }

    /// The registries of node properties and node types.
    pub fn node_meta(&self) -> (r: &Meta)
        requires
            self.wf(),
        ensures
            r.wf(),
            r@ == self@.node_meta,
    {
        &self.node_meta
    }

    /// The registries of edge properties and layers.
    pub fn edge_meta(&self) -> (r: &Meta)
        requires
            self.wf(),
        ensures
            r.wf(),
            r@ == self@.edge_meta,
    {
        &self.edge_meta
    }

    /// The sequence number for the next event; the counter moves on by one
    /// and starts over after the largest number.
    pub fn next_event_id(&mut self) -> (r: usize)
        requires
            old(self).wf(),
        ensures
            final(self).wf(),
            r == old(self)@.events,
            final(self)@ == (GraphView {
                events: if old(self)@.events == usize::MAX {
                    0usize
                } else {
                    (old(self)@.events + 1) as usize
                },
                ..old(self)@
            }),
    {
        let ghost before = self@;
        let r = self.event_counter;
        self.event_counter = if r == usize::MAX {
            0
        } else {
            r + 1
        };
        proof {
            before.lemma_same_links(self@);
        }
        r
    }

    /// The dense id of the external id `id`. A new id gets the next dense
    /// id and a record of its own; a known id keeps its dense id. The name
    /// goes to the record unless the record has one.
    pub fn resolve_node(&mut self, id: u64, name: Option<&str>) -> (r: VID)
        requires
            old(self).wf(),
        ensures
            final(self).wf(),
            r == old(self)@.node_id(id),
            final(self)@ == old(self)@.with_node(
                id,
                match name {
                    Some(n) => Some(n@),
                    None => None,
                },
            ),
            old(self)@.ids_kept(final(self)@),
            final(self)@.ids.contains_key(id) && final(self)@.ids[id] == r,
            r.0 < final(self)@.nodes.len(),
    {
        broadcast use vstd::std_specs::hash::group_hash_axioms;

        let ghost before = self@;
        let ghost spec_name = match name {
            Some(n) => Some(n@),
            None => None,
        };
        let count = self.nodes.len();
        let found = match self.logical_to_physical.get(&id) {
            Some(v) => Some(*v),
            None => None,
        };
        match found {
            Some(v) => {
                assert(before.ids.contains_key(id));
                assert(before.ids[id] == VID(v));
                assert(self.nodes@[v as int].wf());
                assert(before.nodes[v as int] == self.nodes@[v as int]@);
                match name {
                    Some(n) => {
                        self.nodes[v].update_name(n);
                    },
                    None => {},
                }
                proof {
                    assert(self@.nodes =~= before.with_node(id, spec_name).nodes);
                    assert(self@.ids =~= before.ids);
                    assert(self@.edges =~= before.edges);
                    assert forall|i: int| 0 <= i < self.nodes@.len() implies (
                    #[trigger] self.nodes@[i]).wf() by {
                        if i != v {
                            assert(self.nodes@[i] == old(self).nodes@[i]);
                        }
                    }
                    assert forall|i: int| 0 <= i < self@.nodes.len() implies (
                    #[trigger] self@.nodes[i]).wf() by {
                        self.nodes@[i].lemma_wf();
                    }
                    before.lemma_same_links(self@);
                }
                VID(v)
            },
            None => {
                let v = count;
                let owned = match name {
                    Some(n) => Some(n.to_owned()),
                    None => None,
                };
                let mut node = NodeStore::empty(id, owned);
                node.set_vid(VID(v));
                self.nodes.push(node);
                self.logical_to_physical.insert(id, v);
                let grown = self.nodes.len();
                proof {
                    assert(before.nodes.len() + 1 == grown);
                    assert(!before.ids.contains_key(id));
                    assert(self@.nodes =~= before.with_node(id, spec_name).nodes);
                    assert(self@.ids =~= before.with_node(id, spec_name).ids);
                    assert(self@.edges =~= before.edges);
                    before.lemma_with_node(id, spec_name);
                    assert forall|i: int| 0 <= i < self.nodes@.len() implies (
                    #[trigger] self.nodes@[i]).wf() by {
                        if i < v {
                            assert(self.nodes@[i] == old(self).nodes@[i]);
                        }
                    }
                }
                VID(v)
            },
        }
    }
}

impl GraphView {
    /// The edge record that the edge `e` from `src` to `dst` has before an
    /// addition: the one stored, or, for a new edge, the empty one.
    pub open spec fn edge_record(self, e: EID, src: VID, dst: VID) -> EdgeView {
        if e.0 < self.edges.len() {
            self.edges[e.0 as int]
        } else {
            EdgeView { eid: e, src, dst, layers: Seq::empty() }
        }
    }

    /// The edge record after the edge is added in layer `layer` at `t`
    /// with the properties `props`, as far as they are accepted.
    pub open spec fn added_edge_record(
        self,
        t: TimeIndexEntry,
        src: VID,
        dst: VID,
        props: Seq<(usize, Prop)>,
        layer: usize,
    ) -> EdgeView {
        let timed = self.edge_record(self.edge_id(src, dst), src, dst).with_time(layer, t.0);
        timed.with_props(layer, apply_props(timed.layer(layer as int).props, t, props).0)
    }

    /// Whether every property of an addition of the edge from `src` to
    /// `dst` in layer `layer` is accepted.
    pub open spec fn edge_props_accepted(
        self,
        t: TimeIndexEntry,
        src: VID,
        dst: VID,
        props: Seq<(usize, Prop)>,
        layer: usize,
    ) -> bool {
        let timed = self.edge_record(self.edge_id(src, dst), src, dst).with_time(layer, t.0);
        apply_props(timed.layer(layer as int).props, t, props).1
    }

    /// The graph after the edge from `src` to `dst` is added in layer
    /// `layer` at `t` with the properties `props`.
    ///
    /// If every property is accepted, the edge record is stored, at the
    /// next free id if the edge is new, and the endpoints are linked. If
    /// one is refused, an edge that exists keeps the writes before the
    /// refused one, a new edge is not stored, and the endpoints stay as
    /// they are.
    pub open spec fn with_edge(
        self,
        t: TimeIndexEntry,
        src: VID,
        dst: VID,
        props: Seq<(usize, Prop)>,
        layer: usize,
    ) -> GraphView {
        let e = self.edge_id(src, dst);
        let record = self.added_edge_record(t, src, dst, props, layer);
        if self.edge_props_accepted(t, src, dst, props, layer) {
            GraphView {
                edges: if e.0 < self.edges.len() {
                    self.edges.update(e.0 as int, record)
                } else {
                    self.edges.push(record)
                },
                nodes: GraphView::linked(self.nodes, t.0, src, dst, layer, e),
                ..self
            }
        } else {
            GraphView {
                edges: if e.0 < self.edges.len() {
                    self.edges.update(e.0 as int, record)
                } else {
                    self.edges
                },
                ..self
            }
        }
    }

    /// The type that a node has after the type `node_type` is assigned:
    /// the first assignment stays.
    pub open spec fn assigned_type(n: NodeView, node_type: usize) -> usize {
        if n.node_type == 0 {
            node_type
        } else {
            n.node_type
        }
    }

    /// The graph after node `v` is added at `t` with type `node_type` and
    /// the properties `props`, as far as they are accepted.
    pub open spec fn with_added_node(
        self,
        t: TimeIndexEntry,
        v: VID,
        props: Seq<(usize, Prop)>,
        node_type: usize,
    ) -> GraphView {
        let n = self.nodes[v.0 as int];
        GraphView {
            nodes: self.nodes.update(
                v.0 as int,
                NodeView {
                    times: index_insert(n.times, t.0),
                    node_type: GraphView::assigned_type(n, node_type),
                    props: apply_props(n.props, t, props).0,
                    ..n
                },
            ),
            ..self
        }
    }

    /// An edge reference that a node hands out for one direction belongs to
    /// an edge record, and its endpoints are those of the record.
    pub proof fn lemma_listed_edge(self, v: int, layers: LayerIds, d: Direction, e: EdgeRef)
        requires
            self.wf(),
            0 <= v < self.nodes.len(),
            self.nodes[v].has_edge(layers, d, VID(v as usize), e),
        ensures
            d != Direction::BOTH,
            e.e_pid.0 < self.edges.len(),
            e.src_pid == self.edges[e.e_pid.0 as int].src,
            e.dst_pid == self.edges[e.e_pid.0 as int].dst,
            e.spec_local() == VID(v as usize),
            e.spec_remote().0 < self.nodes.len(),
            e.time is None,
            e.layer_id is None,
            e.e_type.direction() == d,
    {
        let n = self.nodes[v];
        let l = choose|l: int|
            0 <= l < n.layers.len() && layers.selects(l as usize) && crate::node_store::edge_refs(
                #[trigger] n.layers[l],
                d,
                VID(v as usize),
            ).contains(e);
        let refs = crate::node_store::edge_refs(n.layers[l], d, VID(v as usize));
        let i = choose|i: int| 0 <= i < refs.len() && refs[i] == e;
        match d {
            Direction::OUT => {
                let p = n.layers[l].out[i];
                assert(n.layers[l].out.contains(p));
                assert(self.out_entry(v, l, p.0, p.1));
                assert(self.edges[p.1.0 as int].wf());
            },
            Direction::IN => {
                let p = n.layers[l].into[i];
                assert(n.layers[l].into.contains(p));
                assert(self.in_entry(v, l, p.0, p.1));
                assert(self.edges[p.1.0 as int].wf());
            },
            Direction::BOTH => {},
        }
    }

    /// Two edges that a node hands out for one direction and that lead to
    /// the same neighbour are the same edge, whichever layers they are in.
    pub proof fn lemma_one_edge_per_neighbour(self, v: int, layers: LayerIds, d: Direction)
        requires
            self.wf(),
            0 <= v < self.nodes.len(),
        ensures
            self.nodes[v].one_edge_per_neighbour(layers, d, VID(v as usize)),
    {
        let n = self.nodes[v];
        let me = VID(v as usize);
        assert forall|a: EdgeRef, b: EdgeRef|
            #![trigger n.has_edge(layers, d, me, a), n.has_edge(layers, d, me, b)]
            n.has_edge(layers, d, me, a) && n.has_edge(layers, d, me, b) && a.spec_remote()
                == b.spec_remote() implies a == b by {
            self.lemma_listed_edge(v, layers, d, a);
            self.lemma_listed_edge(v, layers, d, b);
            assert(self.edges[a.e_pid.0 as int].src == self.edges[b.e_pid.0 as int].src);
            assert(self.edges[a.e_pid.0 as int].wf() && self.edges[b.e_pid.0 as int].wf());
            assert(a.e_pid.0 == b.e_pid.0);
        }
    }

    /// For every outgoing entry of an edge in a layer there is exactly one
    /// node with an incoming entry of that edge in that layer: the
    /// neighbour of the outgoing entry. The endpoints of the edge
    /// reference that either side hands out are those of the edge record.
    pub proof fn lemma_edge_symmetry(self, v: int, l: int, w: VID, e: EID)
        requires
            self.wf(),
            self.out_entry(v, l, w, e),
        ensures
            self.in_entry(w.0 as int, l, VID(v as usize), e),
            forall|u: int, x: VID| self.in_entry(u, l, x, e) ==> u == w.0 && x == VID(v as usize),
            e.0 < self.edges.len(),
            EdgeRef::outgoing(e, VID(v as usize), w).src_pid == self.edges[e.0 as int].src,
            EdgeRef::outgoing(e, VID(v as usize), w).dst_pid == self.edges[e.0 as int].dst,
            EdgeRef::incoming(e, VID(v as usize), w).src_pid == self.edges[e.0 as int].src,
            EdgeRef::incoming(e, VID(v as usize), w).dst_pid == self.edges[e.0 as int].dst,
    {
        assert(self.in_entry(w.0 as int, l, VID(v as usize), e));
        assert forall|u: int, x: VID| self.in_entry(u, l, x, e) implies u == w.0 && x == VID(
            v as usize,
        ) by {
            assert(self.edges[e.0 as int].dst == VID(u as usize));
            assert(self.edges[e.0 as int].src == x);
        }
    }
}

impl InternalGraph {
    /// The id of the layer `layer`; without a name, that of the default
    /// layer, which is `0`. A new name gets the next free id.
    pub fn resolve_layer(&mut self, layer: Option<&str>) -> (r: usize)
        requires
            old(self).wf(),
        ensures
            final(self).wf(),
            match layer {
                Some(name) => r == resolved_id(old(self)@.edge_meta.layers, name@) && final(self)@
                    == (GraphView {
                    edge_meta: MetaView {
                        layers: with_name(old(self)@.edge_meta.layers, name@),
                        ..old(self)@.edge_meta
                    },
                    ..old(self)@
                }),
                None => r == 0 && final(self)@ == old(self)@,
            },
            r < final(self)@.edge_meta.layers.len(),
            old(self)@.ids_kept(final(self)@),
    {
        let ghost before = self@;
        proof {
            self.edge_meta.lemma_wf();
        }
        match layer {
            Some(name) => {
                let r = self.edge_meta.get_or_create_layer_id(name);
                proof {
                    before.lemma_same_links(self@);
                }
                r
            },
            None => 0,
        }
    }

    /// Assigns node `v_id` the type `node_type`, which gets an id if it is
    /// new, unless the node has a type; the first assignment stays.
    /// Without a type name nothing is assigned. Returns the type id that
    /// the node has afterwards.
    pub fn resolve_node_type(&mut self, v_id: VID, node_type: Option<&str>) -> (r: Result<
        usize,
        GraphError,
    >)
        requires
            old(self).wf(),
            v_id.0 < old(self)@.nodes.len(),
        ensures
            final(self).wf(),
            old(self)@.ids_kept(final(self)@),
            match node_type {
                Some(name) => {
                    let id = resolved_id(old(self)@.node_meta.node_types, name@);
                    let assigned = GraphView::assigned_type(old(self)@.nodes[v_id.0 as int], id);
                    r == Ok::<usize, GraphError>(assigned) && final(self)@ == (GraphView {
                        node_meta: MetaView {
                            node_types: with_name(old(self)@.node_meta.node_types, name@),
                            ..old(self)@.node_meta
                        },
                        nodes: old(self)@.nodes.update(
                            v_id.0 as int,
                            NodeView { node_type: assigned, ..old(self)@.nodes[v_id.0 as int] },
                        ),
                        ..old(self)@
                    })
                },
                None => r == Ok::<usize, GraphError>(old(self)@.nodes[v_id.0 as int].node_type)
                    && final(self)@ == old(self)@,
            },
    {
        let ghost before = self@;
        assert(self.nodes@[v_id.0 as int].wf());
        assert(before.nodes[v_id.0 as int] == self.nodes@[v_id.0 as int]@);
        match node_type {
            None => Ok(self.nodes[v_id.0].node_type()),
            Some(name) => {
                let id = self.node_meta.get_or_create_node_type_id(name);
                let assigned = self.nodes[v_id.0].update_node_type(id);
                proof {
                    self.lemma_one_node_changed(old(self), v_id.0 as int);
                    assert(self@.nodes =~= before.nodes.update(
                        v_id.0 as int,
                        NodeView { node_type: assigned, ..before.nodes[v_id.0 as int] },
                    ));
                    before.lemma_same_links(self@);
                }
                Ok(assigned)
            },
        }
    }

    /// If the node vectors of two graphs differ in one record at most, and
    /// that record is well formed, every record of the later one is.
    proof fn lemma_one_node_changed(&self, earlier: &InternalGraph, v: int)
        requires
            earlier.wf(),
            0 <= v < self.nodes@.len(),
            self.nodes@.len() == earlier.nodes@.len(),
            forall|i: int| 0 <= i < self.nodes@.len() && i != v ==> self.nodes@[i] == earlier.nodes@[i],
            self.nodes@[v].wf(),
        ensures
            forall|i: int| 0 <= i < self.nodes@.len() ==> (#[trigger] self.nodes@[i]).wf(),
            forall|i: int| 0 <= i < self.nodes@.len() ==> (#[trigger] self@.nodes[i]).wf(),
            forall|i: int|
                0 <= i < self.nodes@.len() && i != v ==> self@.nodes[i] == earlier@.nodes[i],
            self@.nodes.len() == earlier@.nodes.len(),
    {
        assert forall|i: int| 0 <= i < self.nodes@.len() implies (#[trigger] self.nodes@[i]).wf() by {
            if i != v {
                assert(earlier.nodes@[i].wf());
            }
        }
        assert forall|i: int| 0 <= i < self.nodes@.len() implies (#[trigger] self@.nodes[i]).wf() by {
            self.nodes@[i].lemma_wf();
        }
    }

    /// The id of the property `prop` of the graph itself; constant
    /// properties and temporal ones are numbered apart. A new name gets
    /// the next free id.
    pub fn resolve_graph_property(&mut self, prop: &str, is_static: bool) -> (r: usize)
        requires
            old(self).wf(),
        ensures
            final(self).wf(),
            old(self)@.ids_kept(final(self)@),
            is_static ==> r == resolved_id(old(self)@.graph_constant, prop@) && final(self)@ == (
            GraphView { graph_constant: with_name(old(self)@.graph_constant, prop@), ..old(self)@ }),
            !is_static ==> r == resolved_id(old(self)@.graph_temporal, prop@) && final(self)@ == (
            GraphView { graph_temporal: with_name(old(self)@.graph_temporal, prop@), ..old(self)@ }),
    {
        let ghost before = self@;
        let r = if is_static {
            self.graph_constant.get_or_create_id(prop)
        } else {
            self.graph_temporal.get_or_create_id(prop)
        };
        proof {
            before.lemma_same_links(self@);
        }
        r
    }

    /// The id of the node property `prop` of kind `dtype`. A new name is
    /// registered with that kind; a known name keeps its id, and if it was
    /// declared with another kind the call fails and nothing changes.
    pub fn resolve_node_property(&mut self, prop: &str, dtype: PropType, is_static: bool) -> (r:
        Result<usize, GraphError>)
        requires
            old(self).wf(),
        ensures
            final(self).wf(),
            old(self)@.ids_kept(final(self)@),
            r is Ok <==> old(self)@.node_meta.admits(prop@, dtype, is_static),
            r matches Ok(id) ==> id == resolved_id(old(self)@.node_meta.prop_names(is_static), prop@)
                && final(self)@ == (GraphView {
                node_meta: old(self)@.node_meta.with_prop(prop@, dtype, is_static),
                ..old(self)@
            }),
            r matches Err(e) ==> final(self)@ == old(self)@ && (e matches GraphError::PropertyTypeError {
                name,
                expected,
                actual,
            } && name@ == prop@ && expected == old(self)@.node_meta.prop_dtypes(
                is_static,
            )[old(self)@.node_meta.prop_names(is_static).index_of(prop@)] && actual == dtype),
    {
        let ghost before = self@;
        let r = self.node_meta.resolve_prop_id(prop, dtype, is_static);
        proof {
            before.lemma_same_links(self@);
        }
        r
    }

    /// The id of the edge property `prop` of kind `dtype`. A new name is
    /// registered with that kind; a known name keeps its id, and if it was
    /// declared with another kind the call fails and nothing changes.
    pub fn resolve_edge_property(&mut self, prop: &str, dtype: PropType, is_static: bool) -> (r:
        Result<usize, GraphError>)
        requires
            old(self).wf(),
        ensures
            final(self).wf(),
            old(self)@.ids_kept(final(self)@),
            r is Ok <==> old(self)@.edge_meta.admits(prop@, dtype, is_static),
            r matches Ok(id) ==> id == resolved_id(old(self)@.edge_meta.prop_names(is_static), prop@)
                && final(self)@ == (GraphView {
                edge_meta: old(self)@.edge_meta.with_prop(prop@, dtype, is_static),
                ..old(self)@
            }),
            r matches Err(e) ==> final(self)@ == old(self)@ && (e matches GraphError::PropertyTypeError {
                name,
                expected,
                actual,
            } && name@ == prop@ && expected == old(self)@.edge_meta.prop_dtypes(
                is_static,
            )[old(self)@.edge_meta.prop_names(is_static).index_of(prop@)] && actual == dtype),
    {
        let ghost before = self@;
        let r = self.edge_meta.resolve_prop_id(prop, dtype, is_static);
        proof {
            before.lemma_same_links(self@);
        }
        r
    }

    /// The value as the graph stores it: the value itself.
    pub fn process_prop_value(&self, prop: Prop) -> (r: Prop)
        ensures
            r == prop,
    {
        prop
    }

    /// Adds node `v` at `t`: touches it at `t`, assigns the type
    /// `node_type_id` unless the node has one, and records the properties
    /// `props` in order. The first property that is refused ends the call;
    /// what was done before it stays.
    pub fn internal_add_node(
        &mut self,
        t: TimeIndexEntry,
        v: VID,
        props: Vec<(usize, Prop)>,
        node_type_id: usize,
    ) -> (r: Result<(), GraphError>)
        requires
            old(self).wf(),
            v.0 < old(self)@.nodes.len(),
        ensures
            final(self).wf(),
            old(self)@.ids_kept(final(self)@),
            final(self)@ == old(self)@.with_added_node(t, v, props@, node_type_id),
            r is Ok <==> apply_props(old(self)@.nodes[v.0 as int].props, t, props@).1,
            r is Err ==> r == Err::<(), GraphError>(GraphError::IncorrectPropertyType),
    {
        let ghost before = self@;
        assert(self.nodes@[v.0 as int].wf());
        assert(before.nodes[v.0 as int] == self.nodes@[v.0 as int]@);
        self.nodes[v.0].update_time(t);
        self.nodes[v.0].update_node_type(node_type_id);
        let r = self.nodes[v.0].add_props(t, &props);
        proof {
            self.lemma_one_node_changed(old(self), v.0 as int);
            assert(self@.nodes =~= before.with_added_node(t, v, props@, node_type_id).nodes);
            before.lemma_same_links(self@);
        }
        r
    }

    /// Adds the edge from `src` to `dst` in layer `layer` at `t` with the
    /// properties `props`, and returns its id.
    ///
    /// An edge between these nodes, in whichever layer, keeps its id; a
    /// new edge gets the next free one. The edge record takes the time
    /// and the properties; `src` gets the outgoing entry and `dst` the
    /// incoming one, with the same edge id, unless they have it, and both
    /// are touched at `t`. If a property is refused the endpoints stay as
    /// they are and a new edge is not stored.
    pub fn internal_add_edge(
        &mut self,
        t: TimeIndexEntry,
        src: VID,
        dst: VID,
        props: Vec<(usize, Prop)>,
        layer: usize,
    ) -> (r: Result<EID, GraphError>)
        requires
            old(self).wf(),
            src.0 < old(self)@.nodes.len(),
            dst.0 < old(self)@.nodes.len(),
        ensures
            final(self).wf(),
            old(self)@.ids_kept(final(self)@),
            final(self)@ == old(self)@.with_edge(t, src, dst, props@, layer),
            r is Ok <==> old(self)@.edge_props_accepted(t, src, dst, props@, layer),
            r matches Ok(e) ==> e == old(self)@.edge_id(src, dst) && final(self)@.out_entry(
                src.0 as int,
                layer as int,
                dst,
                e,
            ) && final(self)@.in_entry(dst.0 as int, layer as int, src, e),
            r is Err ==> r == Err::<EID, GraphError>(GraphError::IncorrectPropertyType),
    {
        let ghost before = self@;
        proof {
            before.lemma_edge_between(src, dst);
        }
        let stored = self.store_edge(t, src, dst, &props, layer);
        match stored {
            Err(e) => {
                proof {
                    self.lemma_edges_wf();
                    before.lemma_same_links(self@);
                }
                Err(e)
            },
            Ok(eid) => {
                let ghost mid = self@;
                self.link(t, src, dst, layer, eid);
                let count = self.edges.len();
                proof {
                    self.lemma_edges_wf();
                    before.lemma_link(self@, t.0, src, dst, layer, eid);
                }
                Ok(eid)
            },
        }
    }

    /// Stores what an addition of the edge from `src` to `dst` does to its
    /// edge record, and returns the id of the edge.
    fn store_edge(
        &mut self,
        t: TimeIndexEntry,
        src: VID,
        dst: VID,
        props: &Vec<(usize, Prop)>,
        layer: usize,
    ) -> (r: Result<EID, GraphError>)
        requires
            old(self).wf(),
            src.0 < old(self)@.nodes.len(),
            dst.0 < old(self)@.nodes.len(),
        ensures
            final(self).parts_wf(),
            final(self)@ == (GraphView {
                edges: old(self)@.with_edge(t, src, dst, props@, layer).edges,
                ..old(self)@
            }),
            r is Ok <==> old(self)@.edge_props_accepted(t, src, dst, props@, layer),
            r matches Ok(e) ==> e == old(self)@.edge_id(src, dst),
            r is Err ==> r == Err::<EID, GraphError>(GraphError::IncorrectPropertyType),
    {
        let ghost before = self@;
        assert(self.nodes@[src.0 as int].wf());
        assert(before.nodes[src.0 as int] == self.nodes@[src.0 as int]@);
        proof {
            before.lemma_edge_between(src, dst);
        }
        let count = self.edges.len();
        let found = self.nodes[src.0].find_edge_eid(dst, &LayerIds::All);
        match found {
            Some(e) => {
                assert(self.edges@[e.0 as int].wf());
                assert(before.edges[e.0 as int] == self.edges@[e.0 as int]@);
                self.edges[e.0].update_time(layer, t);
                let r = self.edges[e.0].add_props(t, layer, props);
                proof {
                    assert(self@.edges =~= before.with_edge(t, src, dst, props@, layer).edges);
                    assert forall|i: int| 0 <= i < self.edges@.len() implies (
                    #[trigger] self.edges@[i]).wf() by {
                        if i != e.0 {
                            assert(self.edges@[i] == old(self).edges@[i]);
                        }
                    }
                }
                match r {
                    Ok(()) => Ok(e),
                    Err(_) => Err(GraphError::IncorrectPropertyType),
                }
            },
            None => {
                let e = EID(count);
                let mut record = EdgeStore::new(e, src, dst);
                record.update_time(layer, t);
                let r = record.add_props(t, layer, props);
                match r {
                    Ok(()) => {
                        self.edges.push(record);
                        proof {
                            assert(self@.edges =~= before.with_edge(
                                t,
                                src,
                                dst,
                                props@,
                                layer,
                            ).edges);
                            assert forall|i: int| 0 <= i < self.edges@.len() implies (
                            #[trigger] self.edges@[i]).wf() by {
                                if i < count {
                                    assert(self.edges@[i] == old(self).edges@[i]);
                                }
                            }
                        }
                        Ok(e)
                    },
                    Err(_) => {
                        assert(self@.edges =~= before.with_edge(t, src, dst, props@, layer).edges);
                        Err(GraphError::IncorrectPropertyType)
                    },
                }
            },
        }
    }

    /// Links the edge `eid` from `src` to `dst` in layer `layer` at both
    /// endpoints and touches them at `t`.
    fn link(&mut self, t: TimeIndexEntry, src: VID, dst: VID, layer: usize, eid: EID)
        requires
            old(self).parts_wf(),
            src.0 < old(self)@.nodes.len(),
            dst.0 < old(self)@.nodes.len(),
        ensures
            final(self).parts_wf(),
            final(self)@ == (GraphView {
                nodes: GraphView::linked(old(self)@.nodes, t.0, src, dst, layer, eid),
                ..old(self)@
            }),
    {
        let ghost before = self@;
        assert(self.nodes@[src.0 as int].wf());
        assert(self.nodes@[dst.0 as int].wf());
        assert(before.nodes[src.0 as int] == self.nodes@[src.0 as int]@);
        assert(before.nodes[dst.0 as int] == self.nodes@[dst.0 as int]@);
        self.nodes[src.0].add_edge(dst, Direction::OUT, layer, eid);
        self.nodes[src.0].update_time(t);
        let ghost half = *self;
        proof {
            assert(self.nodes@[dst.0 as int].wf()) by {
                if src.0 != dst.0 {
                    assert(self.nodes@[dst.0 as int] == old(self).nodes@[dst.0 as int]);
                }
            }
            assert(half@.nodes =~= before.nodes.update(
                src.0 as int,
                GraphView::touched(
                    before.nodes[src.0 as int].with_edge(dst, Direction::OUT, layer, eid),
                    t.0,
                ),
            ));
        }
        self.nodes[dst.0].add_edge(src, Direction::IN, layer, eid);
        self.nodes[dst.0].update_time(t);
        proof {
            assert forall|i: int| 0 <= i < self.nodes@.len() implies (#[trigger] self.nodes@[i]).wf() by {
                if i != src.0 && i != dst.0 {
                    assert(self.nodes@[i] == old(self).nodes@[i]);
                } else if i != dst.0 {
                    assert(self.nodes@[i] == half.nodes@[i]);
                }
            }
            assert(self@.nodes =~= GraphView::linked(before.nodes, t.0, src, dst, layer, eid));
        }
    }

    /// The view of every well-formed edge record is well formed.
    proof fn lemma_edges_wf(&self)
        requires
            forall|e: int| 0 <= e < self.edges@.len() ==> (#[trigger] self.edges@[e]).wf(),
        ensures
            forall|e: int| 0 <= e < self@.edges.len() ==> (#[trigger] self@.edges[e]).wf(),
    {
        assert forall|e: int| 0 <= e < self@.edges.len() implies (#[trigger] self@.edges[e]).wf() by {
            self.edges@[e].lemma_wf();
        }
    }
}

impl GraphView {
    /// The graph with the properties of node `v` replaced by `props`.
    pub open spec fn with_node_props(self, v: VID, props: PropsView) -> GraphView {
        GraphView {
            nodes: self.nodes.update(v.0 as int, NodeView { props, ..self.nodes[v.0 as int] }),
            ..self
        }
    }

    /// The graph with the properties of edge `e` in layer `layer` replaced
    /// by `props`.
    pub open spec fn with_edge_props(self, e: EID, layer: usize, props: PropsView) -> GraphView {
        GraphView {
            edges: self.edges.update(
                e.0 as int,
                self.edges[e.0 as int].with_props(layer, props),
            ),
            ..self
        }
    }
}

impl InternalGraph {
    /// Records `prop` at `t` in the history of the temporal property
    /// `prop_id` of node `v`.
    ///
    /// A node that does not exist and a value of another kind than the
    /// history are errors, and nothing changes.
    pub fn add_node_prop(&mut self, v: VID, t: TimeIndexEntry, prop_id: usize, prop: Prop) -> (r:
        Result<(), GraphError>)
        requires
            old(self).wf(),
        ensures
            final(self).wf(),
            old(self)@.ids_kept(final(self)@),
            if v.0 >= old(self)@.nodes.len() {
                r == Err::<(), GraphError>(GraphError::InvalidIdentifier) && final(self)@ == old(self)@
            } else if !old(self)@.nodes[v.0 as int].props.accepts(prop_id, prop.spec_dtype()) {
                r == Err::<(), GraphError>(GraphError::IncorrectPropertyType) && final(self)@
                    == old(self)@
            } else {
                r is Ok && final(self)@ == old(self)@.with_node_props(
                    v,
                    old(self)@.nodes[v.0 as int].props.with_write(t, prop_id, prop),
                )
            },
    {
        if v.0 >= self.nodes.len() {
            return Err(GraphError::InvalidIdentifier);
        }
        let ghost before = self@;
        assert(self.nodes@[v.0 as int].wf());
        assert(before.nodes[v.0 as int] == self.nodes@[v.0 as int]@);
        let r = self.nodes[v.0].add_prop(t, prop_id, prop);
        proof {
            self.lemma_one_node_changed(old(self), v.0 as int);
            if r is Ok {
                assert(self@.nodes =~= before.with_node_props(
                    v,
                    before.nodes[v.0 as int].props.with_write(t, prop_id, prop),
                ).nodes);
            } else {
                assert(self@.nodes =~= before.nodes);
            }
            before.lemma_same_links(self@);
        }
        r
    }

    /// Sets the constant `prop_id` of node `v`, which must not have a
    /// value yet.
    ///
    /// A node that does not exist and a constant that has a value are
    /// errors, and nothing changes.
    pub fn add_node_constant_prop(&mut self, v: VID, prop_id: usize, prop: Prop) -> (r: Result<
        (),
        GraphError,
    >)
        requires
            old(self).wf(),
        ensures
            final(self).wf(),
            old(self)@.ids_kept(final(self)@),
            if v.0 >= old(self)@.nodes.len() {
                r == Err::<(), GraphError>(GraphError::InvalidIdentifier) && final(self)@ == old(self)@
            } else if old(self)@.nodes[v.0 as int].props.constant.contains_key(prop_id) {
                r == Err::<(), GraphError>(GraphError::ConstantPropertyMutationError { prop_id })
                    && final(self)@ == old(self)@
            } else {
                r is Ok && final(self)@ == old(self)@.with_node_props(
                    v,
                    old(self)@.nodes[v.0 as int].props.with_constant(prop_id, prop),
                )
            },
    {
        if v.0 >= self.nodes.len() {
            return Err(GraphError::InvalidIdentifier);
        }
        let ghost before = self@;
        assert(self.nodes@[v.0 as int].wf());
        assert(before.nodes[v.0 as int] == self.nodes@[v.0 as int]@);
        let r = self.nodes[v.0].add_constant_prop(prop_id, prop);
        proof {
            self.lemma_one_node_changed(old(self), v.0 as int);
            if r is Ok {
                assert(self@.nodes =~= before.with_node_props(
                    v,
                    before.nodes[v.0 as int].props.with_constant(prop_id, prop),
                ).nodes);
            } else {
                assert(self@.nodes =~= before.nodes);
            }
            before.lemma_same_links(self@);
        }
        match r {
            Ok(()) => Ok(()),
            Err(refused) => Err(GraphError::ConstantPropertyMutationError { prop_id: refused.index }),
        }
    }

    /// Records `prop` at `t` in the history of the temporal property
    /// `prop_id` of edge `e` in layer `layer`.
    ///
    /// An edge that does not exist and a value of another kind than the
    /// history are errors; the properties stay as they are.
    pub fn add_edge_prop(
        &mut self,
        e: EID,
        layer: usize,
        t: TimeIndexEntry,
        prop_id: usize,
        prop: Prop,
    ) -> (r: Result<(), GraphError>)
        requires
            old(self).wf(),
        ensures
            final(self).wf(),
            old(self)@.ids_kept(final(self)@),
            if e.0 >= old(self)@.edges.len() {
                r == Err::<(), GraphError>(GraphError::InvalidIdentifier) && final(self)@ == old(self)@
            } else if !old(self)@.edges[e.0 as int].layer(layer as int).props.accepts(
                prop_id,
                prop.spec_dtype(),
            ) {
                r == Err::<(), GraphError>(GraphError::IncorrectPropertyType) && final(self)@
                    == old(self)@.with_edge_props(
                    e,
                    layer,
                    old(self)@.edges[e.0 as int].layer(layer as int).props,
                )
            } else {
                r is Ok && final(self)@ == old(self)@.with_edge_props(
                    e,
                    layer,
                    old(self)@.edges[e.0 as int].layer(layer as int).props.with_write(
                        t,
                        prop_id,
                        prop,
                    ),
                )
            },
    {
        if e.0 >= self.edges.len() {
            return Err(GraphError::InvalidIdentifier);
        }
        let ghost before = self@;
        assert(self.edges@[e.0 as int].wf());
        assert(before.edges[e.0 as int] == self.edges@[e.0 as int]@);
        let r = self.edges[e.0].add_prop(t, layer, prop_id, prop);
        proof {
            self.lemma_one_edge_changed(old(self), e.0 as int);
            assert(self@.edges =~= before.edges.update(e.0 as int, self@.edges[e.0 as int]));
            before.lemma_same_links(self@);
        }
        r
    }

    /// Sets the constant `prop_id` of edge `e` in layer `layer`, which
    /// must not have a value yet.
    ///
    /// An edge that does not exist and a constant that has a value are
    /// errors; the properties stay as they are.
    pub fn add_edge_constant_prop(&mut self, e: EID, layer: usize, prop_id: usize, prop: Prop) -> (r:
        Result<(), GraphError>)
        requires
            old(self).wf(),
        ensures
            final(self).wf(),
            old(self)@.ids_kept(final(self)@),
            if e.0 >= old(self)@.edges.len() {
                r == Err::<(), GraphError>(GraphError::InvalidIdentifier) && final(self)@ == old(self)@
            } else if old(self)@.edges[e.0 as int].layer(layer as int).props.constant.contains_key(
                prop_id,
            ) {
                r == Err::<(), GraphError>(GraphError::ConstantPropertyMutationError { prop_id })
                    && final(self)@ == old(self)@.with_edge_props(
                    e,
                    layer,
                    old(self)@.edges[e.0 as int].layer(layer as int).props,
                )
            } else {
                r is Ok && final(self)@ == old(self)@.with_edge_props(
                    e,
                    layer,
                    old(self)@.edges[e.0 as int].layer(layer as int).props.with_constant(
                        prop_id,
                        prop,
                    ),
                )
            },
    {
        if e.0 >= self.edges.len() {
            return Err(GraphError::InvalidIdentifier);
        }
        let ghost before = self@;
        assert(self.edges@[e.0 as int].wf());
        assert(before.edges[e.0 as int] == self.edges@[e.0 as int]@);
        let r = self.edges[e.0].add_constant_prop(layer, prop_id, prop);
        proof {
            self.lemma_one_edge_changed(old(self), e.0 as int);
            assert(self@.edges =~= before.edges.update(e.0 as int, self@.edges[e.0 as int]));
            before.lemma_same_links(self@);
        }
        match r {
            Ok(()) => Ok(()),
            Err(refused) => Err(GraphError::ConstantPropertyMutationError { prop_id: refused.index }),
        }
    }

    /// If the edge vectors of two graphs differ in one record at most, and
    /// that record is well formed with the same identity, every record of
    /// the later one is well formed with the same identity.
    proof fn lemma_one_edge_changed(&self, earlier: &InternalGraph, e: int)
        requires
            earlier.wf(),
            0 <= e < self.edges@.len(),
            self.edges@.len() == earlier.edges@.len(),
            forall|i: int| 0 <= i < self.edges@.len() && i != e ==> self.edges@[i] == earlier.edges@[i],
            self.edges@[e].wf(),
        ensures
            forall|i: int| 0 <= i < self.edges@.len() ==> (#[trigger] self.edges@[i]).wf(),
            forall|i: int| 0 <= i < self.edges@.len() ==> (#[trigger] self@.edges[i]).wf(),
            forall|i: int|
                0 <= i < self.edges@.len() && i != e ==> self@.edges[i] == earlier@.edges[i],
            self@.edges.len() == earlier@.edges.len(),
    {
        assert forall|i: int| 0 <= i < self.edges@.len() implies (#[trigger] self.edges@[i]).wf() by {
            if i != e {
                assert(earlier.edges@[i].wf());
            }
        }
        assert forall|i: int| 0 <= i < self.edges@.len() implies (#[trigger] self@.edges[i]).wf() by {
            self.edges@[i].lemma_wf();
        }
    }
}

} // verus!
