//! The node record: identity, timestamps, per-layer adjacency and
//! properties of one node.

use crate::adj::{has_neighbour, lemma_add_entries, neighbours_of, Adj, AdjView};
use crate::entities::{Dir, Direction, EdgeRef, LayerIds, EID, VID};
use crate::errors::GraphError;
use crate::merging::{
    ascending, ascending_by_remote, dedup_edges, deduped, kmerge_by_remote, kmerge_by_remote_order,
    lemma_deduped, lemma_filter_by_remote, lemma_flatten_contains, lemma_merged_by_remote,
    lemma_same_multiset_same_elements, list_views,
    lemma_deduped_strict, merge_by_remote, merge_two_unique, merge_unique, merged_by_remote,
    strictly_ascending, strictly_ascending_by_remote,
};
use crate::prop::Prop;
use crate::props::{apply_props, IllegalSet, Props, PropsView};
use crate::tcell::{cell_window, logical_times};
use crate::timeindex::{increasing, index_insert, TimeIndex, TimeIndexEntry};
use crate::tprop::TProp;
use std::ops::Range;
use vstd::prelude::*;

verus! {

/// The first value that is there, in sequence order.
pub open spec fn first_some<T>(s: Seq<Option<T>>) -> Option<T>
    decreases s.len(),
{
    if s.len() == 0 {
        None
    } else if s[0] is Some {
        s[0]
    } else {
        first_some(s.drop_first())
    }
}

/// `first_some` is the value at the first position that holds one.
pub proof fn lemma_first_some<T>(s: Seq<Option<T>>, k: int)
    requires
        0 <= k <= s.len(),
        forall|i: int| 0 <= i < k ==> s[i] is None,
        k < s.len() ==> s[k] is Some,
    ensures
        first_some(s) == if k < s.len() {
            s[k]
        } else {
            None
        },
    decreases s.len(),
{
    if s.len() == 0 {
    } else if k == 0 {
    } else {
        let r = s.drop_first();
        assert forall|i: int| 0 <= i < k - 1 implies r[i] is None by {
            assert(r[i] == s[i + 1]);
        }
        if k < s.len() {
            assert(r[k - 1] == s[k]);
        }
        lemma_first_some(r, k - 1);
    }
}

/// `first_some` gives a value of the sequence if there is one, and none
/// only if there is none.
pub proof fn lemma_first_some_cases<T>(s: Seq<Option<T>>)
    ensures
        first_some(s) is Some ==> exists|k: int| 0 <= k < s.len() && #[trigger] s[k] == first_some(s),
        first_some(s) is None ==> forall|k: int| 0 <= k < s.len() ==> (#[trigger] s[k]) is None,
    decreases s.len(),
{
    if s.len() == 0 {
    } else if s[0] is Some {
        assert(s[0] == first_some(s));
    } else {
        let r = s.drop_first();
        lemma_first_some_cases(r);
        if first_some(s) is Some {
            let k = choose|k: int| 0 <= k < r.len() && #[trigger] r[k] == first_some(r);
            assert(s[k + 1] == first_some(s));
        } else {
            assert forall|k: int| 0 <= k < s.len() implies (#[trigger] s[k]) is None by {
                if k > 0 {
                    assert(r[k - 1] == s[k]);
                }
            }
        }
    }
}

/// Turns an outgoing adjacency entry of node `self_id` into an edge
/// reference.
pub open spec fn out_ref(self_id: VID) -> spec_fn((VID, EID)) -> EdgeRef {
    |p: (VID, EID)| EdgeRef::outgoing(p.1, self_id, p.0)
}

/// Turns an incoming adjacency entry of node `self_id` into an edge
/// reference.
pub open spec fn in_ref(self_id: VID) -> spec_fn((VID, EID)) -> EdgeRef {
    |p: (VID, EID)| EdgeRef::incoming(p.1, p.0, self_id)
}

/// The edges of one layer of node `self_id` in direction `d`, in neighbour
/// order. In direction `BOTH` a single layer hands out nothing.
pub open spec fn edge_refs(adj: AdjView, d: Direction, self_id: VID) -> Seq<EdgeRef> {
    match d {
        Direction::OUT => adj.out.map_values(out_ref(self_id)),
        Direction::IN => adj.into.map_values(in_ref(self_id)),
        Direction::BOTH => Seq::empty(),
    }
}

/// Selects the edges that are no self-loops.
pub open spec fn not_loop() -> spec_fn(EdgeRef) -> bool {
    |e: EdgeRef| e.src_pid != e.dst_pid
}

/// The edges of one sorted layer come out in ascending order of their
/// remote endpoint; the remote endpoint is the neighbour.
pub proof fn lemma_edge_refs_ascending(adj: AdjView, d: Direction, self_id: VID)
    requires
        adj.wf(),
    ensures
        ascending_by_remote(edge_refs(adj, d, self_id)),
{
    let r = edge_refs(adj, d, self_id);
    assert forall|i: int, j: int| 0 <= i < j < r.len() implies r[i].spec_remote().0
        <= r[j].spec_remote().0 by {
        match d {
            Direction::OUT => {
                assert(adj.out[i].0.0 < adj.out[j].0.0);
            },
            Direction::IN => {
                assert(adj.into[i].0.0 < adj.into[j].0.0);
            },
            Direction::BOTH => {},
        }
    }
}

/// The edges of one sorted layer come out in strictly ascending order of
/// their remote endpoint.
pub proof fn lemma_edge_refs_strict(adj: AdjView, d: Direction, self_id: VID)
    requires
        adj.wf(),
    ensures
        strictly_ascending_by_remote(edge_refs(adj, d, self_id)),
{
    let r = edge_refs(adj, d, self_id);
    assert forall|i: int, j: int| 0 <= i < j < r.len() implies r[i].spec_remote().0
        < r[j].spec_remote().0 by {
        match d {
            Direction::OUT => {
                assert(adj.out[i].0.0 < adj.out[j].0.0);
            },
            Direction::IN => {
                assert(adj.into[i].0.0 < adj.into[j].0.0);
            },
            Direction::BOTH => {},
        }
    }
}

/// What a node record holds.
pub struct NodeView {
    /// The identifier that the outside world knows the node by.
    pub global_id: u64,
    /// The display name, once it has been given.
    pub name: Option<Seq<char>>,
    /// The dense identifier.
    pub vid: VID,
    /// The logical times at which the node was touched, increasing.
    pub times: Seq<i64>,
    /// The adjacency of each layer, by layer id.
    pub layers: Seq<AdjView>,
    /// The properties.
    pub props: PropsView,
    /// The type tag; `0` as long as none has been assigned.
    pub node_type: usize,
}

impl NodeView {
    /// The times are increasing and every layer is sorted by neighbour.
    pub open spec fn wf(self) -> bool {
        &&& increasing(self.times)
        &&& forall|l: int| 0 <= l < self.layers.len() ==> (#[trigger] self.layers[l]).wf()
    }

    /// Whether `v` is a neighbour in direction `d` in one of the selected
    /// layers.
    pub open spec fn has_neighbour(self, layers: LayerIds, d: Direction, v: VID) -> bool {
        exists|l: int|
            0 <= l < self.layers.len() && layers.selects(l as usize) && (
            #[trigger] self.layers[l]).has_neighbour_in(d, v)
    }

    /// The neighbours in direction `d` over the selected layers.
    pub open spec fn neighbour_set(self, layers: LayerIds, d: Direction) -> Set<VID> {
        Set::new(|v: VID| self.has_neighbour(layers, d, v))
    }

    /// The outgoing edge to `dst` in layer `l`; none if the layer does not
    /// exist.
    pub open spec fn out_edge_in(self, l: int, dst: VID) -> Option<EID> {
        if 0 <= l < self.layers.len() {
            self.layers[l].get_edge(dst, Direction::OUT)
        } else {
            None
        }
    }

    /// The outgoing edge to `dst` in the first selected layer that has
    /// one: layers are tried by ascending id under `All`, and in the order
    /// of the list under `Multiple`.
    pub open spec fn find_edge(self, dst: VID, layers: LayerIds) -> Option<EID> {
        match layers {
            LayerIds::Empty => None,
            LayerIds::All => first_some(
                Seq::new(self.layers.len(), |l: int| self.out_edge_in(l, dst)),
            ),
            LayerIds::One(id) => self.out_edge_in(id as int, dst),
            LayerIds::Multiple(ids) => first_some(
                Seq::new(ids@.len(), |i: int| self.out_edge_in(ids@[i] as int, dst)),
            ),
        }
    }

    /// Selects the layer ids that the node has.
    pub open spec fn in_range(self) -> spec_fn(usize) -> bool {
        |id: usize| id < self.layers.len()
    }

    /// The ids of the layers that a multi-layer read merges, in the order
    /// in which it takes them: every layer under `All`, the layers of the
    /// list that exist under `Multiple`.
    pub open spec fn merge_ids(self, layers: LayerIds) -> Seq<usize> {
        match layers {
            LayerIds::Empty => Seq::empty(),
            LayerIds::All => Seq::new(self.layers.len(), |l: int| l as usize),
            LayerIds::One(id) => if id < self.layers.len() {
                seq![id]
            } else {
                Seq::empty()
            },
            LayerIds::Multiple(ids) => ids@.filter(self.in_range()),
        }
    }

    /// The edge lists, one per merged layer, that a multi-layer read of
    /// direction `d` merges, as node `self_id` sees the edges.
    pub open spec fn edge_lists(self, layers: LayerIds, d: Direction, self_id: VID) -> Seq<
        Seq<EdgeRef>,
    > {
        self.merge_ids(layers).map_values(
            |id: usize| edge_refs(self.layers[id as int], d, self_id),
        )
    }

    /// Whether `e` is an edge of direction `d` in one of the selected
    /// layers, as node `self_id` sees the edges.
    pub open spec fn has_edge(self, layers: LayerIds, d: Direction, self_id: VID, e: EdgeRef) -> bool {
        exists|l: int|
            0 <= l < self.layers.len() && layers.selects(l as usize) && edge_refs(
                #[trigger] self.layers[l],
                d,
                self_id,
            ).contains(e)
    }

    /// Whether two edges of direction `d` in selected layers that lead to
    /// the same neighbour are always the same edge.
    pub open spec fn one_edge_per_neighbour(self, layers: LayerIds, d: Direction, self_id: VID) -> bool {
        forall|a: EdgeRef, b: EdgeRef|
            #![trigger self.has_edge(layers, d, self_id, a), self.has_edge(layers, d, self_id, b)]
            self.has_edge(layers, d, self_id, a) && self.has_edge(layers, d, self_id, b)
                && a.spec_remote() == b.spec_remote() ==> a == b
    }

    /// The edges of direction `d` over the selected layers: those of the
    /// one layer under `One`; else the merge of the layers' lists by
    /// remote endpoint, with every run of equal references cut down to one.
    pub open spec fn merged_edges(self, layers: LayerIds, d: Direction, self_id: VID) -> Seq<
        EdgeRef,
    > {
        match layers {
            LayerIds::Empty => Seq::empty(),
            LayerIds::One(id) => if id < self.layers.len() {
                edge_refs(self.layers[id as int], d, self_id)
            } else {
                Seq::empty()
            },
            _ => deduped(kmerge_by_remote_order(self.edge_lists(layers, d, self_id))),
        }
    }

    /// The edges in direction `d` over the selected layers. Under `BOTH`
    /// the outgoing edges that are no self-loops are merged with the
    /// incoming ones by remote endpoint, incoming first on a tie.
    pub open spec fn edge_tuples(self, layers: LayerIds, d: Direction) -> Seq<EdgeRef> {
        match d {
            Direction::OUT => self.merged_edges(layers, Direction::OUT, self.vid),
            Direction::IN => self.merged_edges(layers, Direction::IN, self.vid),
            Direction::BOTH => merged_by_remote(
                self.merged_edges(layers, Direction::OUT, self.vid).filter(not_loop()),
                self.merged_edges(layers, Direction::IN, self.vid),
            ),
        }
    }

    /// The layers after room is made for layer `layer`: new layers start
    /// without edges.
    pub open spec fn grown(layers: Seq<AdjView>, layer: usize) -> Seq<AdjView> {
        if layer < layers.len() {
            layers
        } else {
            layers + Seq::new((layer + 1 - layers.len()) as nat, |i: int| AdjView::solo())
        }
    }

    /// The record after the edge `e` to or from `v` is added in layer
    /// `layer`. Direction `BOTH` only makes room for the layer.
    pub open spec fn with_edge(self, v: VID, d: Direction, layer: usize, e: EID) -> NodeView {
        let g = NodeView::grown(self.layers, layer);
        let layers = match d {
            Direction::OUT => g.update(layer as int, g[layer as int].with_out(v, e)),
            Direction::IN => g.update(layer as int, g[layer as int].with_into(v, e)),
            Direction::BOTH => g,
        };
        NodeView { layers, ..self }
    }
}

/// A neighbour that several layers lead to is reported once: in a
/// strictly ascending sequence that holds the neighbours over the selected
/// layers, which is what `NodeStore::neighbours` returns, it occurs
/// exactly once, however many of the selected layers hold it.
pub proof fn lemma_neighbour_reported_once(
    n: NodeView,
    layers: LayerIds,
    d: Direction,
    reported: Seq<VID>,
    v: VID,
    l1: int,
    l2: int,
)
    requires
        strictly_ascending(reported),
        forall|x: VID| reported.contains(x) <==> n.has_neighbour(layers, d, x),
        0 <= l1 < n.layers.len() && layers.selects(l1 as usize) && n.layers[l1].has_neighbour_in(
            d,
            v,
        ),
        0 <= l2 < n.layers.len() && layers.selects(l2 as usize) && n.layers[l2].has_neighbour_in(
            d,
            v,
        ),
    ensures
        reported.to_multiset().count(v) == 1,
        n.neighbour_set(layers, d).contains(v),
{
    assert(n.has_neighbour(layers, d, v));
    assert(reported.contains(v));
    assert(reported.no_duplicates());
    reported.lemma_multiset_has_no_duplicates();
    reported.to_multiset_ensures();
}

/// Under `BOTH` the neighbours of a layer are those of either side, as a
/// set: a neighbour with an edge each way is one neighbour, and the
/// degree, the size of the set, counts it once.
pub proof fn lemma_both_directions_once(a: AdjView, v: VID)
    ensures
        a.neighbour_set(Direction::BOTH) == a.neighbour_set(Direction::OUT).union(
            a.neighbour_set(Direction::IN),
        ),
        a.has_neighbour_in(Direction::OUT, v) && a.has_neighbour_in(Direction::IN, v)
            ==> a.neighbour_set(Direction::BOTH).contains(v),
{
    assert(a.neighbour_set(Direction::BOTH) =~= a.neighbour_set(Direction::OUT).union(
        a.neighbour_set(Direction::IN),
    ));
}

/// Over several layers the neighbours under `BOTH` are those of either
/// side, as a set.
pub proof fn lemma_both_directions_once_over_layers(n: NodeView, layers: LayerIds)
    ensures
        n.neighbour_set(layers, Direction::BOTH) == n.neighbour_set(layers, Direction::OUT).union(
            n.neighbour_set(layers, Direction::IN),
        ),
{
    assert forall|v: VID|
        n.has_neighbour(layers, Direction::BOTH, v) <==> (n.has_neighbour(
            layers,
            Direction::OUT,
            v,
        ) || n.has_neighbour(layers, Direction::IN, v)) by {
        if n.has_neighbour(layers, Direction::BOTH, v) {
            let l = choose|l: int|
                0 <= l < n.layers.len() && layers.selects(l as usize) && (
                #[trigger] n.layers[l]).has_neighbour_in(Direction::BOTH, v);
            if n.layers[l].has_neighbour_in(Direction::OUT, v) {
                assert(n.has_neighbour(layers, Direction::OUT, v));
            } else {
                assert(n.layers[l].has_neighbour_in(Direction::IN, v));
                assert(n.has_neighbour(layers, Direction::IN, v));
            }
        }
        if n.has_neighbour(layers, Direction::OUT, v) {
            let l = choose|l: int|
                0 <= l < n.layers.len() && layers.selects(l as usize) && (
                #[trigger] n.layers[l]).has_neighbour_in(Direction::OUT, v);
            assert(n.layers[l].has_neighbour_in(Direction::BOTH, v));
        }
        if n.has_neighbour(layers, Direction::IN, v) {
            let l = choose|l: int|
                0 <= l < n.layers.len() && layers.selects(l as usize) && (
                #[trigger] n.layers[l]).has_neighbour_in(Direction::IN, v);
            assert(n.layers[l].has_neighbour_in(Direction::BOTH, v));
        }
    }
    assert(n.neighbour_set(layers, Direction::BOTH) =~= n.neighbour_set(
        layers,
        Direction::OUT,
    ).union(n.neighbour_set(layers, Direction::IN)));
}

/// What adding an edge does to the entries of a record: every layer keeps
/// what it held, the layer of the edge gets the new entry on the side of
/// the edge unless the neighbour was there, and layers made on the way are
/// empty.
pub proof fn lemma_with_edge_entries(n: NodeView, v: VID, d: Direction, layer: usize, e: EID)
    requires
        n.wf(),
    ensures
        n.with_edge(v, d, layer, e).wf(),
        n.with_edge(v, d, layer, e).layers.len() == if layer < n.layers.len() {
            n.layers.len() as int
        } else {
            layer + 1
        },
        forall|l: int|
            0 <= l < n.with_edge(v, d, layer, e).layers.len() && !(d == Direction::IN && l == layer)
                ==> (#[trigger] n.with_edge(v, d, layer, e).layers[l]).into == (if l
                < n.layers.len() {
                n.layers[l].into
            } else {
                Seq::empty()
            }),
        forall|l: int|
            0 <= l < n.with_edge(v, d, layer, e).layers.len() && !(d == Direction::OUT && l
                == layer) ==> (#[trigger] n.with_edge(v, d, layer, e).layers[l]).out == (if l
                < n.layers.len() {
                n.layers[l].out
            } else {
                Seq::empty()
            }),
        forall|l: int, p: (VID, EID)|
            0 <= l < n.with_edge(v, d, layer, e).layers.len() ==> (#[trigger] n.with_edge(
                v,
                d,
                layer,
                e,
            ).layers[l].out.contains(p) <==> ((l < n.layers.len() && n.layers[l].out.contains(p))
                || (d == Direction::OUT && l == layer && p == (v, e) && !(l < n.layers.len()
                && has_neighbour(n.layers[l].out, v))))),
        forall|l: int, p: (VID, EID)|
            0 <= l < n.with_edge(v, d, layer, e).layers.len() ==> (#[trigger] n.with_edge(
                v,
                d,
                layer,
                e,
            ).layers[l].into.contains(p) <==> ((l < n.layers.len() && n.layers[l].into.contains(p))
                || (d == Direction::IN && l == layer && p == (v, e) && !(l < n.layers.len()
                && has_neighbour(n.layers[l].into, v))))),
{
    let g = NodeView::grown(n.layers, layer);
    let r = n.with_edge(v, d, layer, e);
    assert forall|l: int| 0 <= l < g.len() implies (#[trigger] g[l]).wf() && (l < n.layers.len()
        ==> g[l] == n.layers[l]) && (l >= n.layers.len() ==> g[l] == AdjView::solo()) by {
        if l < n.layers.len() {
            assert(n.layers[l].wf());
        }
    }
    g[layer as int].lemma_add_keeps_wf(v, e);
    lemma_add_entries(g[layer as int].out, v, e);
    lemma_add_entries(g[layer as int].into, v, e);
    assert forall|l: int| 0 <= l < r.layers.len() implies (#[trigger] r.layers[l]).wf() by {
        assert(g[l].wf());
    }
    assert forall|l: int|
        0 <= l < r.layers.len() && !(d == Direction::IN && l == layer) implies (
    #[trigger] r.layers[l]).into == (if l < n.layers.len() {
        n.layers[l].into
    } else {
        Seq::empty()
    }) by {
        assert(g[l].wf());
    }
    assert forall|l: int|
        0 <= l < r.layers.len() && !(d == Direction::OUT && l == layer) implies (
    #[trigger] r.layers[l]).out == (if l < n.layers.len() {
        n.layers[l].out
    } else {
        Seq::empty()
    }) by {
        assert(g[l].wf());
    }
    assert forall|l: int, p: (VID, EID)| 0 <= l < r.layers.len() implies (
    #[trigger] r.layers[l].out.contains(p) <==> ((l < n.layers.len() && n.layers[l].out.contains(p))
        || (d == Direction::OUT && l == layer && p == (v, e) && !(l < n.layers.len()
        && has_neighbour(n.layers[l].out, v))))) by {
        assert(g[l].wf());
        if l >= n.layers.len() {
            assert(!g[l].out.contains(p));
            assert(!has_neighbour(g[l].out, v));
        }
    }
    assert forall|l: int, p: (VID, EID)| 0 <= l < r.layers.len() implies (
    #[trigger] r.layers[l].into.contains(p) <==> ((l < n.layers.len() && n.layers[l].into.contains(
        p,
    )) || (d == Direction::IN && l == layer && p == (v, e) && !(l < n.layers.len()
        && has_neighbour(n.layers[l].into, v))))) by {
        assert(g[l].wf());
        if l >= n.layers.len() {
            assert(!g[l].into.contains(p));
            assert(!has_neighbour(g[l].into, v));
        }
    }
}

/// One node: its identifiers, the times at which it was touched, its
/// adjacency in every layer, its properties and its type.
#[derive(Debug, PartialEq)]
pub struct NodeStore {
    global_id: u64,
    name: Option<String>,
    vid: VID,
    timestamps: TimeIndex,
    layers: Vec<Adj>,
    props: Option<Props>,
    node_type: usize,
}

impl View for NodeStore {
    type V = NodeView;

    closed spec fn view(&self) -> NodeView {
        NodeView {
            global_id: self.global_id,
            name: match self.name {
                Some(n) => Some(n@),
                None => None,
            },
            vid: self.vid,
            times: self.timestamps@,
            layers: self.layers@.map_values(|a: Adj| a@),
            props: match self.props {
                Some(p) => p@,
                None => PropsView::empty(),
            },
            node_type: self.node_type,
        }
    }
}

impl NodeStore {
    /// The record is well formed: its view is, and so is its property
    /// table.
    pub closed spec fn wf(&self) -> bool {
        &&& self@.wf()
        &&& self.props matches Some(p) ==> p.wf()
    }

    /// A well-formed record has a well-formed view.
    pub proof fn lemma_wf(&self)
        requires
            self.wf(),
        ensures
            self@.wf(),
    {
    }

    /// The record of a node first seen at `t`: one layer, no edges, no
    /// properties, no name, no type.
    pub fn new(global_id: u64, t: TimeIndexEntry) -> (r: NodeStore)
        ensures
            r.wf(),
            r@ == (NodeView {
                global_id,
                name: None,
                vid: VID(0),
                times: seq![t.0],
                layers: seq![AdjView::solo()],
                props: PropsView::empty(),
                node_type: 0,
            }),
    {
        let mut layers: Vec<Adj> = Vec::with_capacity(1);
        layers.push(Adj::Solo);
        let r = NodeStore {
            global_id,
            name: None,
            vid: VID(0),
            timestamps: TimeIndex::one(t.t()),
            layers,
            props: None,
            node_type: 0,
        };
        assert(r@.layers =~= seq![AdjView::solo()]);
        r
    }

    /// The record of a node that has not been touched yet.
    pub fn empty(global_id: u64, name: Option<String>) -> (r: NodeStore)
        ensures
            r.wf(),
            r@ == (NodeView {
                global_id,
                name: match name {
                    Some(n) => Some(n@),
                    None => None,
                },
                vid: VID(0),
                times: Seq::empty(),
                layers: seq![AdjView::solo()],
                props: PropsView::empty(),
                node_type: 0,
            }),
    {
        let mut layers: Vec<Adj> = Vec::with_capacity(1);
        layers.push(Adj::Solo);
        let r = NodeStore {
            global_id,
            name,
            vid: VID(0),
            timestamps: TimeIndex::Empty,
            layers,
            props: None,
            node_type: 0,
        };
        assert(r@.layers =~= seq![AdjView::solo()]);
        r
    }

    pub fn global_id(&self) -> (id: u64)
        ensures
            id == self@.global_id,
    {
        self.global_id
    }

    pub fn vid(&self) -> (v: VID)
        ensures
            v == self@.vid,
    {
        self.vid
    }

    /// Gives the record its dense identifier.
    pub fn set_vid(&mut self, vid: VID)
        requires
            old(self).wf(),
        ensures
            final(self).wf(),
            final(self)@ == (NodeView { vid, ..old(self)@ }),
    {
        self.vid = vid;
    }

    pub fn name(&self) -> (n: Option<&String>)
        ensures
            match n {
                Some(s) => self@.name == Some(s@),
                None => self@.name.is_none(),
            },
    {
        self.name.as_ref()
    }

    pub fn node_type(&self) -> (t: usize)
        ensures
            t == self@.node_type,
    {
        self.node_type
    }

    /// The number of layers that the record has room for.
    pub fn num_layers(&self) -> (n: usize)
        ensures
            n == self@.layers.len(),
    {
        self.layers.len()
    }

    /// The adjacency of layer `layer`.
    pub fn layer(&self, layer: usize) -> (r: Option<&Adj>)
        requires
            self.wf(),
        ensures
            match r {
                Some(a) => layer < self@.layers.len() && a@ == self@.layers[layer as int] && a.wf(),
                None => layer >= self@.layers.len(),
            },
    {
        if layer < self.layers.len() {
            assert(self@.layers[layer as int] == self.layers@[layer as int]@);
            Some(&self.layers[layer])
        } else {
            None
        }
    }

    /// The adjacency of layer `layer`, which the record has.
    pub(crate) fn layer_at(&self, layer: usize) -> (r: &Adj)
        requires
            self.wf(),
            layer < self@.layers.len(),
        ensures
            r@ == self@.layers[layer as int],
            r.wf(),
    {
        assert(self@.layers[layer as int] == self.layers@[layer as int]@);
        &self.layers[layer]
    }

    /// The logical times at which the node was touched.
    pub fn timestamps(&self) -> (r: &TimeIndex)
        requires
            self.wf(),
        ensures
            r@ == self@.times,
            r.wf(),
    {
        &self.timestamps
    }

    /// Records that the node was touched at `t`.
    pub fn update_time(&mut self, t: TimeIndexEntry)
        requires
            old(self).wf(),
        ensures
            final(self).wf(),
            final(self)@ == (NodeView { times: index_insert(old(self)@.times, t.0), ..old(self)@ }),
    {
        self.timestamps.insert(t.t());
    }

    /// Assigns the type `node_type` unless the node already has a type;
    /// the first assignment stays. Returns the type that the node has
    /// afterwards.
    pub fn update_node_type(&mut self, node_type: usize) -> (r: usize)
        requires
            old(self).wf(),
        ensures
            final(self).wf(),
            r == if old(self)@.node_type == 0 {
                node_type
            } else {
                old(self)@.node_type
            },
            final(self)@ == (NodeView { node_type: r, ..old(self)@ }),
    {
        if self.node_type == 0 {
            self.node_type = node_type;
        }
        self.node_type
    }

    /// Gives the node the name `name` unless it already has one; the first
    /// name stays.
    pub fn update_name(&mut self, name: &str)
        requires
            old(self).wf(),
        ensures
            final(self).wf(),
            final(self)@ == (NodeView {
                name: if old(self)@.name is None {
                    Some(name@)
                } else {
                    old(self)@.name
                },
                ..old(self)@
            }),
    {
        if self.name.is_none() {
            self.name = Some(name.to_owned());
        }
    }

    /// Records `prop` at `t` in the history of the temporal property
    /// `prop_id`. A value of another kind than the history is refused and
    /// the record stays as it is.
    pub fn add_prop(&mut self, t: TimeIndexEntry, prop_id: usize, prop: Prop) -> (r: Result<
        (),
        GraphError,
    >)
        requires
            old(self).wf(),
        ensures
            final(self).wf(),
            r is Ok <==> old(self)@.props.accepts(prop_id, prop.spec_dtype()),
            r is Ok ==> final(self)@ == (NodeView {
                props: old(self)@.props.with_write(t, prop_id, prop),
                ..old(self)@
            }),
            r is Err ==> r == Err::<(), GraphError>(GraphError::IncorrectPropertyType) && final(self)@
                == old(self)@,
    {
        let mut props = match self.props.take() {
            Some(p) => p,
            None => Props::new(),
        };
        let r = props.add_prop(t, prop_id, prop);
        self.props = Some(props);
        r
    }

    /// Records every value of `props` at `t`, in order, each in the
    /// history of its property. The first value that is refused ends the
    /// call; the values before it stay recorded.
    pub fn add_props(&mut self, t: TimeIndexEntry, props: &Vec<(usize, Prop)>) -> (r: Result<
        (),
        GraphError,
    >)
        requires
            old(self).wf(),
        ensures
            final(self).wf(),
            final(self)@ == (NodeView {
                props: apply_props(old(self)@.props, t, props@).0,
                ..old(self)@
            }),
            r is Ok <==> apply_props(old(self)@.props, t, props@).1,
            r is Err ==> r == Err::<(), GraphError>(GraphError::IncorrectPropertyType),
    {
        let mut table = match self.props.take() {
            Some(p) => p,
            None => Props::new(),
        };
        let r = table.add_props(t, props);
        self.props = Some(table);
        r
    }

    /// Sets the constant `prop_id`, which must not have a value yet; if it
    /// has one, the write is refused and the record stays as it is.
    pub fn add_constant_prop(&mut self, prop_id: usize, prop: Prop) -> (r: Result<
        (),
        IllegalSet<Option<Prop>>,
    >)
        requires
            old(self).wf(),
        ensures
            final(self).wf(),
            r is Ok <==> !old(self)@.props.constant.contains_key(prop_id),
            r is Ok ==> final(self)@ == (NodeView {
                props: old(self)@.props.with_constant(prop_id, prop),
                ..old(self)@
            }),
            r matches Err(e) ==> e.index == prop_id && e.previous_value == Some(
                old(self)@.props.constant[prop_id],
            ) && e.new_value == Some(prop) && final(self)@ == old(self)@,
    {
        let mut props = match self.props.take() {
            Some(p) => p,
            None => Props::new(),
        };
        let r = props.add_constant_prop(prop_id, prop);
        self.props = Some(props);
        r
    }

    /// Sets the constant `prop_id`, whether or not it has a value.
    pub fn update_constant_prop(&mut self, prop_id: usize, prop: Prop) -> (r: Result<
        (),
        GraphError,
    >)
        requires
            old(self).wf(),
        ensures
            final(self).wf(),
            r is Ok,
            final(self)@ == (NodeView {
                props: old(self)@.props.with_constant(prop_id, prop),
                ..old(self)@
            }),
    {
        let mut props = match self.props.take() {
            Some(p) => p,
            None => Props::new(),
        };
        let r = props.update_constant_prop(prop_id, prop);
        self.props = Some(props);
        r
    }

    /// The history of the temporal property `prop_id` by logical time, in
    /// timestamp order; with a window, the part of it whose logical time
    /// lies in `[window.start, window.end)`.
    pub fn temporal_properties(&self, prop_id: usize, window: Option<Range<i64>>) -> (r: Vec<
        (i64, Prop),
    >)
        requires
            self.wf(),
        ensures
            r@ == match window {
                Some(w) => logical_times(
                    cell_window(
                        self@.props.history(prop_id),
                        TimeIndexEntry::spec_start(w.start),
                        TimeIndexEntry::spec_start(w.end),
                    ),
                ),
                None => logical_times(self@.props.history(prop_id)),
            },
    {
        match &self.props {
            Some(ps) => match window {
                Some(w) => ps.temporal_props_window(prop_id, w.start, w.end),
                None => ps.temporal_props(prop_id),
            },
            None => {
                let out: Vec<(i64, Prop)> = Vec::new();
                proof {
                    let e = Seq::<(TimeIndexEntry, Prop)>::empty();
                    assert(self@.props.history(prop_id) =~= e);
                    assert(out@ =~= logical_times(e));
                    if window is Some {
                        let w = window->Some_0;
                        assert(cell_window(
                            e,
                            TimeIndexEntry::spec_start(w.start),
                            TimeIndexEntry::spec_start(w.end),
                        ) =~= e);
                    }
                }
                out
            },
        }
    }

    /// The value of the constant `prop_id`.
    pub fn const_prop(&self, prop_id: usize) -> (r: Option<&Prop>)
        ensures
            match r {
                Some(p) => self@.props.constant.contains_key(prop_id)
                    && self@.props.constant[prop_id] == *p,
                None => !self@.props.constant.contains_key(prop_id),
            },
    {
        match &self.props {
            Some(ps) => ps.const_prop(prop_id),
            None => None,
        }
    }

    /// The temporal property `prop_id`, if it has been written.
    pub fn temporal_property(&self, prop_id: usize) -> (r: Option<&TProp>)
        requires
            self.wf(),
        ensures
            match r {
                Some(p) => self@.props.temporal.contains_key(prop_id) && p@
                    == self@.props.temporal[prop_id] && p.wf(),
                None => !self@.props.temporal.contains_key(prop_id),
            },
    {
        match &self.props {
            Some(ps) => ps.temporal_prop(prop_id),
            None => None,
        }
    }

    /// The ids of the constants that have a value, in ascending order.
    pub fn const_prop_ids(&self) -> (r: Vec<usize>)
        ensures
            forall|i: int, j: int| 0 <= i < j < r@.len() ==> r@[i] < r@[j],
            forall|id: usize| r@.contains(id) <==> self@.props.constant.contains_key(id),
    {
        match &self.props {
            Some(ps) => ps.const_prop_ids(),
            None => Vec::new(),
        }
    }

    /// The ids of the temporal properties that have been written, in
    /// ascending order.
    pub fn temporal_prop_ids(&self) -> (r: Vec<usize>)
        ensures
            forall|i: int, j: int| 0 <= i < j < r@.len() ==> r@[i] < r@[j],
            forall|id: usize| r@.contains(id) <==> self@.props.temporal.contains_key(id),
    {
        match &self.props {
            Some(ps) => ps.temporal_prop_ids(),
            None => Vec::new(),
        }
    }
}

/// Cutting runs down keeps the order by remote endpoint.
pub proof fn lemma_deduped_by_remote(s: Seq<EdgeRef>)
    requires
        ascending_by_remote(s),
    ensures
        ascending_by_remote(deduped(s)),
    decreases s.len(),
{
    if s.len() <= 1 {
    } else {
        let r = s.drop_last();
        assert(ascending_by_remote(r)) by {
            assert forall|i: int, j: int| 0 <= i < j < r.len() implies r[i].spec_remote().0
                <= r[j].spec_remote().0 by {
                assert(r[i] == s[i] && r[j] == s[j]);
            }
        }
        lemma_deduped_by_remote(r);
        lemma_deduped(r);
        let d = deduped(r);
        let ds = deduped(s);
        if s[s.len() - 1] != s[s.len() - 2] {
            assert forall|i: int, j: int| 0 <= i < j < ds.len() implies ds[i].spec_remote().0
                <= ds[j].spec_remote().0 by {
                if j < d.len() {
                    assert(ds[i] == d[i] && ds[j] == d[j]);
                } else {
                    assert(ds[i] == d[i]);
                    assert(d.contains(d[i]));
                    assert(r.contains(d[i]));
                    let m = choose|m: int| 0 <= m < r.len() && r[m] == d[i];
                    assert(s[m] == d[i]);
                    assert(s[m].spec_remote().0 <= s[s.len() - 1].spec_remote().0);
                }
            }
        }
    }
}

impl NodeStore {
    /// The outgoing edge to `dst` in the first selected layer that has
    /// one.
    pub fn find_edge_eid(&self, dst: VID, layer_id: &LayerIds) -> (r: Option<EID>)
        requires
            self.wf(),
        ensures
            r == self@.find_edge(dst, *layer_id),
    {
        match layer_id {
            LayerIds::Empty => None,
            LayerIds::All => {
                let ghost hits = Seq::new(self@.layers.len(), |l: int| self@.out_edge_in(l, dst));
                let mut i: usize = 0;
                while i < self.layers.len()
                    invariant
                        i <= self.layers.len(),
                        self.wf(),
                        *layer_id == LayerIds::All,
                        hits == Seq::new(self@.layers.len(), |l: int| self@.out_edge_in(l, dst)),
                        forall|j: int| 0 <= j < i ==> hits[j] is None,
                    decreases self.layers.len() - i,
                {
                    assert(self@.layers[i as int] == self.layers@[i as int]@);
                    let e = self.layers[i].get_edge(dst, Direction::OUT);
                    assert(e == hits[i as int]);
                    if e.is_some() {
                        proof {
                            lemma_first_some(hits, i as int);
                        }
                        return e;
                    }
                    i += 1;
                }
                proof {
                    lemma_first_some(hits, hits.len() as int);
                }
                None
            },
            LayerIds::One(id) => {
                if *id < self.layers.len() {
                    assert(self@.layers[*id as int] == self.layers@[*id as int]@);
                    self.layers[*id].get_edge(dst, Direction::OUT)
                } else {
                    None
                }
            },
            LayerIds::Multiple(ids) => {
                let ghost hits = Seq::new(
                    ids@.len(),
                    |i: int| self@.out_edge_in(ids@[i] as int, dst),
                );
                let mut i: usize = 0;
                while i < ids.len()
                    invariant
                        i <= ids.len(),
                        self.wf(),
                        *layer_id == LayerIds::Multiple(*ids),
                        hits == Seq::new(
                            ids@.len(),
                            |i: int| self@.out_edge_in(ids@[i] as int, dst),
                        ),
                        forall|j: int| 0 <= j < i ==> hits[j] is None,
                    decreases ids.len() - i,
                {
                    let id = ids[i];
                    let e = if id < self.layers.len() {
                        assert(self@.layers[id as int] == self.layers@[id as int]@);
                        self.layers[id].get_edge(dst, Direction::OUT)
                    } else {
                        None
                    };
                    assert(e == hits[i as int]);
                    if e.is_some() {
                        proof {
                            lemma_first_some(hits, i as int);
                        }
                        return e;
                    }
                    i += 1;
                }
                proof {
                    lemma_first_some(hits, hits.len() as int);
                }
                None
            },
        }
    }

    /// Adds the edge `edge_id` to `v_id` (`OUT`) or from `v_id` (`IN`) in
    /// layer `layer`, making room for the layer first; the layers made on
    /// the way start without edges. A neighbour that already has an edge
    /// in that layer and direction keeps it. `BOTH` only makes room.
    pub fn add_edge(&mut self, v_id: VID, dir: Direction, layer: usize, edge_id: EID)
        requires
            old(self).wf(),
        ensures
            final(self).wf(),
            final(self)@ == old(self)@.with_edge(v_id, dir, layer, edge_id),
    {
        let ghost before = old(self)@;
        while self.layers.len() <= layer
            invariant
                self.wf(),
                self.layers@.len() >= before.layers.len(),
                self.layers@.len() == before.layers.len() || self.layers@.len() <= layer + 1,
                self@ == (NodeView {
                    layers: before.layers + Seq::new(
                        (self.layers@.len() - before.layers.len()) as nat,
                        |i: int| AdjView::solo(),
                    ),
                    ..before
                }),
            decreases layer + 1 - self.layers.len(),
        {
            let ghost prev = self@.layers;
            self.layers.push(Adj::Solo);
            assert(self@.layers =~= prev.push(AdjView::solo()));
            assert(self@.layers =~= before.layers + Seq::new(
                (self.layers@.len() - before.layers.len()) as nat,
                |i: int| AdjView::solo(),
            ));
        }
        let ghost g = self@.layers;
        assert(g =~= NodeView::grown(before.layers, layer)) by {
            if layer < before.layers.len() {
                assert(self.layers@.len() == before.layers.len());
            }
        }
        proof {
            assert(g[layer as int] == self.layers@[layer as int]@);
            g[layer as int].lemma_add_keeps_wf(v_id, edge_id);
        }
        match dir {
            Direction::IN => {
                self.layers[layer].add_edge_into(v_id, edge_id);
                assert(self@.layers =~= g.update(
                    layer as int,
                    g[layer as int].with_into(v_id, edge_id),
                ));
            },
            Direction::OUT => {
                self.layers[layer].add_edge_out(v_id, edge_id);
                assert(self@.layers =~= g.update(
                    layer as int,
                    g[layer as int].with_out(v_id, edge_id),
                ));
            },
            Direction::BOTH => {},
        }
    }

    /// The edges of `layer` in direction `d`, in neighbour order, as node
    /// `self_id` sees them. In direction `BOTH` there are none.
    pub fn iter_adj(&self, layer: &Adj, d: Direction, self_id: VID) -> (r: Vec<EdgeRef>)
        ensures
            r@ == edge_refs(layer@, d, self_id),
    {
        let mut out: Vec<EdgeRef> = Vec::new();
        match d {
            Direction::IN => {
                let entries = layer.iter(Dir::Into);
                let mut i: usize = 0;
                while i < entries.len()
                    invariant
                        i <= entries.len(),
                        out@ == entries@.take(i as int).map_values(in_ref(self_id)),
                    decreases entries.len() - i,
                {
                    let (src_pid, e_id) = entries[i];
                    out.push(EdgeRef::new_incoming(e_id, src_pid, self_id));
                    assert(out@ =~= entries@.take(i + 1).map_values(in_ref(self_id)));
                    i += 1;
                }
                assert(entries@.take(entries@.len() as int) =~= entries@);
            },
            Direction::OUT => {
                let entries = layer.iter(Dir::Out);
                let mut i: usize = 0;
                while i < entries.len()
                    invariant
                        i <= entries.len(),
                        out@ == entries@.take(i as int).map_values(out_ref(self_id)),
                    decreases entries.len() - i,
                {
                    let (dst_pid, e_id) = entries[i];
                    out.push(EdgeRef::new_outgoing(e_id, self_id, dst_pid));
                    assert(out@ =~= entries@.take(i + 1).map_values(out_ref(self_id)));
                    i += 1;
                }
                assert(entries@.take(entries@.len() as int) =~= entries@);
            },
            Direction::BOTH => {},
        }
        out
    }

    /// The neighbours in `layer` in direction `d`, each once, in ascending
    /// order.
    pub fn neighbours_from_adj(&self, layer: &Adj, d: Direction) -> (r: Vec<VID>)
        requires
            layer.wf(),
        ensures
            strictly_ascending(r@),
            r@.no_duplicates(),
            forall|v: VID| r@.contains(v) <==> layer@.has_neighbour_in(d, v),
    {
        match d {
            Direction::IN => layer.node_iter(Direction::IN),
            Direction::OUT => layer.node_iter(Direction::OUT),
            Direction::BOTH => merge_two_unique(
                self.neighbours_from_adj_one(layer, Dir::Out),
                self.neighbours_from_adj_one(layer, Dir::Into),
            ),
        }
    }

    /// The neighbours in `layer` on one side, in ascending order.
    fn neighbours_from_adj_one(&self, layer: &Adj, d: Dir) -> (r: Vec<VID>)
        requires
            layer.wf(),
        ensures
            strictly_ascending(r@),
            forall|v: VID| r@.contains(v) <==> layer@.has_neighbour_in(d.direction(), v),
    {
        layer.node_iter(d.as_direction())
    }

    /// The ids of the layers that a multi-layer read merges, in the order
    /// in which it takes them.
    pub fn merge_ids(&self, layers: &LayerIds) -> (r: Vec<usize>)
        ensures
            r@ == self@.merge_ids(*layers),
            forall|i: int| 0 <= i < r@.len() ==> r@[i] < self@.layers.len(),
            forall|l: usize| r@.contains(l) <==> (l < self@.layers.len() && layers.selects(l)),
    {
        let mut out: Vec<usize> = Vec::new();
        match layers {
            LayerIds::Empty => {},
            LayerIds::All => {
                let mut i: usize = 0;
                while i < self.layers.len()
                    invariant
                        i <= self.layers.len(),
                        out@ == Seq::new(i as nat, |l: int| l as usize),
                    decreases self.layers.len() - i,
                {
                    out.push(i);
                    assert(out@ =~= Seq::new((i + 1) as nat, |l: int| l as usize));
                    i += 1;
                }
                assert forall|l: usize| out@.contains(l) <==> l < self@.layers.len() by {
                    if l < self@.layers.len() {
                        assert(out@[l as int] == l);
                    }
                }
            },
            LayerIds::One(id) => {
                if *id < self.layers.len() {
                    out.push(*id);
                    assert(out@ =~= seq![*id]);
                    assert(out@[0] == *id);
                }
            },
            LayerIds::Multiple(ids) => {
                let ghost p = self@.in_range();
                let mut i: usize = 0;
                assert(ids@.take(0).filter(p) =~= Seq::<usize>::empty());
                while i < ids.len()
                    invariant
                        i <= ids.len(),
                        p == self@.in_range(),
                        out@ == ids@.take(i as int).filter(p),
                    decreases ids.len() - i,
                {
                    let id = ids[i];
                    proof {
                        assert(ids@.take(i + 1) =~= ids@.take(i as int).push(id));
                        ids@.take(i as int).lemma_filter_push(id, p);
                    }
                    if id < self.layers.len() {
                        out.push(id);
                    }
                    i += 1;
                }
                assert(ids@.take(ids@.len() as int) =~= ids@);
                proof {
                    broadcast use vstd::seq_lib::group_filter_ensures;

                    assert forall|l: usize|
                        out@.contains(l) <==> (l < self@.layers.len() && ids@.contains(l)) by {
                        if out@.contains(l) {
                            let k = choose|k: int| 0 <= k < out@.len() && out@[k] == l;
                            assert(p(out@[k]));
                            ids@.lemma_filter_contains_rev(p, out@[k]);
                        }
                        if l < self@.layers.len() && ids@.contains(l) {
                            let k = choose|k: int| 0 <= k < ids@.len() && ids@[k] == l;
                            assert(p(ids@[k]));
                            assert(out@.contains(ids@[k]));
                        }
                    }
                    assert forall|i: int| 0 <= i < out@.len() implies out@[i] < self@.layers.len() by {
                        assert(p(out@[i]));
                    }
                }
            },
        }
        out
    }

    /// The neighbours in direction `d` over the selected layers, each
    /// once, in ascending order. A neighbour that several layers or both
    /// directions lead to comes once.
    pub fn neighbours(&self, layers: &LayerIds, d: Direction) -> (r: Vec<VID>)
        requires
            self.wf(),
        ensures
            strictly_ascending(r@),
            r@.no_duplicates(),
            forall|v: VID| r@.contains(v) <==> self@.has_neighbour(*layers, d, v),
            r@.to_set() == self@.neighbour_set(*layers, d),
    {
        let ids = self.merge_ids(layers);
        let mut lists: Vec<Vec<VID>> = Vec::new();
        let mut i: usize = 0;
        while i < ids.len()
            invariant
                i <= ids.len(),
                self.wf(),
                lists@.len() == i,
                forall|k: int| 0 <= k < ids@.len() ==> ids@[k] < self@.layers.len(),
                forall|k: int| 0 <= k < i ==> ascending(#[trigger] lists@[k]@),
                forall|k: int, v: VID|
                    0 <= k < i ==> (#[trigger] lists@[k]@.contains(v) <==> self@.layers[ids@[k] as int].has_neighbour_in(
                        d,
                        v,
                    )),
            decreases ids.len() - i,
        {
            let id = ids[i];
            assert(self@.layers[id as int] == self.layers@[id as int]@);
            let list = self.neighbours_from_adj(&self.layers[id], d);
            lists.push(list);
            i += 1;
        }
        let r = merge_unique(lists);
        proof {
            assert(self@.layers.len() == self.layers.len());
            assert forall|v: VID| r@.contains(v) <==> self@.has_neighbour(*layers, d, v) by {
                if r@.contains(v) {
                    let k = choose|k: int| 0 <= k < lists@.len() && (#[trigger] lists@[k])@.contains(v);
                    let l = ids@[k];
                    assert(ids@.contains(l));
                    assert(self@.layers[l as int].has_neighbour_in(d, v));
                }
                if self@.has_neighbour(*layers, d, v) {
                    let l = choose|l: int|
                        0 <= l < self@.layers.len() && layers.selects(l as usize) && (
                        #[trigger] self@.layers[l]).has_neighbour_in(d, v);
                    assert(ids@.contains(l as usize));
                    let k = choose|k: int| 0 <= k < ids@.len() && ids@[k] == l as usize;
                    assert(ids@[k] as int == l);
                    assert(self@.layers[ids@[k] as int].has_neighbour_in(d, v));
                    assert(lists@[k]@.contains(v));
                }
            }
            assert(r@.to_set() =~= self@.neighbour_set(*layers, d));
        }
        r
    }

    /// The number of distinct neighbours in direction `d` over the
    /// selected layers: a neighbour counts once, however many layers lead
    /// to it, and once under `BOTH` if there is an edge each way.
    pub fn degree(&self, layers: &LayerIds, d: Direction) -> (n: usize)
        requires
            self.wf(),
        ensures
            self@.neighbour_set(*layers, d).finite(),
            n == self@.neighbour_set(*layers, d).len(),
    {
        let vs = self.neighbours(layers, d);
        proof {
            vs@.unique_seq_to_set();
        }
        vs.len()
    }

    /// The edges of direction `d` over the selected layers, in ascending
    /// order of their remote endpoint, as node `self_id` sees them.
    pub fn merge_layers(&self, layers: &LayerIds, d: Direction, self_id: VID) -> (r: Vec<EdgeRef>)
        requires
            self.wf(),
        ensures
            r@ == self@.merged_edges(*layers, d, self_id),
            ascending_by_remote(r@),
            forall|e: EdgeRef| r@.contains(e) <==> self@.has_edge(*layers, d, self_id, e),
            self@.one_edge_per_neighbour(*layers, d, self_id) ==> strictly_ascending_by_remote(r@),
    {
        match layers {
            LayerIds::Empty => Vec::new(),
            LayerIds::One(id) => {
                if *id < self.layers.len() {
                    assert(self@.layers[*id as int] == self.layers@[*id as int]@);
                    proof {
                        lemma_edge_refs_ascending(self@.layers[*id as int], d, self_id);
                        lemma_edge_refs_strict(self@.layers[*id as int], d, self_id);
                    }
                    self.iter_adj(&self.layers[*id], d, self_id)
                } else {
                    Vec::new()
                }
            },
            _ => {
                let ids = self.merge_ids(layers);
                let mut lists: Vec<Vec<EdgeRef>> = Vec::new();
                let mut i: usize = 0;
                while i < ids.len()
                    invariant
                        i <= ids.len(),
                        self.wf(),
                        lists@.len() == i,
                        forall|k: int| 0 <= k < ids@.len() ==> ids@[k] < self@.layers.len(),
                        forall|k: int|
                            0 <= k < i ==> (#[trigger] lists@[k])@ == edge_refs(
                                self@.layers[ids@[k] as int],
                                d,
                                self_id,
                            ),
                    decreases ids.len() - i,
                {
                    let id = ids[i];
                    assert(self@.layers[id as int] == self.layers@[id as int]@);
                    let list = self.iter_adj(&self.layers[id], d, self_id);
                    lists.push(list);
                    i += 1;
                }
                let ghost views = list_views(lists@);
                proof {
                    assert(views =~= self@.edge_lists(*layers, d, self_id));
                    assert forall|k: int| 0 <= k < lists@.len() implies ascending_by_remote(
                        #[trigger] lists@[k]@,
                    ) by {
                        lemma_edge_refs_ascending(self@.layers[ids@[k] as int], d, self_id);
                    }
                }
                let all = kmerge_by_remote(lists);
                let r = dedup_edges(all);
                proof {
                    assert(self@.layers.len() == self.layers.len());
                    lemma_deduped_by_remote(all@);
                    lemma_deduped(all@);
                    if self@.one_edge_per_neighbour(*layers, d, self_id) {
                        assert forall|i: int, j: int|
                            0 <= i < all@.len() && 0 <= j < all@.len() && (
                            #[trigger] all@[i]).spec_remote() == (#[trigger] all@[j]).spec_remote()
                            implies all@[i] == all@[j] by {
                            assert(all@.contains(all@[i]) && all@.contains(all@[j]));
                            assert(r@.contains(all@[i]) && r@.contains(all@[j]));
                            lemma_same_multiset_same_elements(all@, views.flatten(), all@[i]);
                            lemma_same_multiset_same_elements(all@, views.flatten(), all@[j]);
                            lemma_flatten_contains(views, all@[i]);
                            lemma_flatten_contains(views, all@[j]);
                            let ki = choose|k: int|
                                0 <= k < views.len() && (#[trigger] views[k]).contains(all@[i]);
                            let kj = choose|k: int|
                                0 <= k < views.len() && (#[trigger] views[k]).contains(all@[j]);
                            assert(ids@.contains(ids@[ki]) && ids@.contains(ids@[kj]));
                            assert(edge_refs(
                                self@.layers[ids@[ki] as int],
                                d,
                                self_id,
                            ).contains(all@[i]));
                            assert(edge_refs(
                                self@.layers[ids@[kj] as int],
                                d,
                                self_id,
                            ).contains(all@[j]));
                            assert(self@.has_edge(*layers, d, self_id, all@[i]));
                            assert(self@.has_edge(*layers, d, self_id, all@[j]));
                        }
                        lemma_deduped_strict(all@);
                    }
                    assert forall|e: EdgeRef|
                        r@.contains(e) <==> self@.has_edge(*layers, d, self_id, e) by {
                        lemma_same_multiset_same_elements(all@, views.flatten(), e);
                        lemma_flatten_contains(views, e);
                        if r@.contains(e) {
                            let k = choose|k: int|
                                0 <= k < views.len() && (#[trigger] views[k]).contains(e);
                            let l = ids@[k];
                            assert(ids@.contains(l));
                            assert(edge_refs(self@.layers[l as int], d, self_id).contains(e));
                        }
                        if self@.has_edge(*layers, d, self_id, e) {
                            let l = choose|l: int|
                                0 <= l < self@.layers.len() && layers.selects(l as usize)
                                    && edge_refs(#[trigger] self@.layers[l], d, self_id).contains(e);
                            assert(ids@.contains(l as usize));
                            let k = choose|k: int| 0 <= k < ids@.len() && ids@[k] == l as usize;
                            assert(ids@[k] as int == l);
                            assert(views[k] == lists@[k]@);
                            assert(views[k].contains(e));
                        }
                    }
                }
                r
            },
        }
    }

    /// The edges in direction `d` over the selected layers, in ascending
    /// order of their remote endpoint. Under `BOTH` a self-loop comes once,
    /// as an incoming edge.
    pub fn edge_tuples(&self, layers: &LayerIds, d: Direction) -> (r: Vec<EdgeRef>)
        requires
            self.wf(),
        ensures
            r@ == self@.edge_tuples(*layers, d),
            ascending_by_remote(r@),
            d != Direction::BOTH && self@.one_edge_per_neighbour(*layers, d, self@.vid)
                ==> strictly_ascending_by_remote(r@),
            forall|e: EdgeRef| #[trigger]
                r@.contains(e) <==> ((d != Direction::IN && self@.has_edge(
                    *layers,
                    Direction::OUT,
                    self@.vid,
                    e,
                ) && (d == Direction::BOTH ==> e.src_pid != e.dst_pid)) || (d != Direction::OUT
                    && self@.has_edge(*layers, Direction::IN, self@.vid, e))),
    {
        let self_id = self.vid;
        match d {
            Direction::OUT => self.merge_layers(layers, Direction::OUT, self_id),
            Direction::IN => self.merge_layers(layers, Direction::IN, self_id),
            Direction::BOTH => {
                let outs = self.merge_layers(layers, Direction::OUT, self_id);
                let ins = self.merge_layers(layers, Direction::IN, self_id);
                let mut kept: Vec<EdgeRef> = Vec::new();
                let mut i: usize = 0;
                assert(outs@.take(0).filter(not_loop()) =~= Seq::<EdgeRef>::empty());
                while i < outs.len()
                    invariant
                        i <= outs.len(),
                        kept@ == outs@.take(i as int).filter(not_loop()),
                    decreases outs.len() - i,
                {
                    let e = outs[i];
                    proof {
                        assert(outs@.take(i + 1) =~= outs@.take(i as int).push(e));
                        outs@.take(i as int).lemma_filter_push(e, not_loop());
                    }
                    if e.src() != e.dst() {
                        kept.push(e);
                    }
                    i += 1;
                }
                assert(outs@.take(outs@.len() as int) =~= outs@);
                proof {
                    lemma_filter_by_remote(outs@, not_loop());
                    lemma_merged_by_remote(kept@, ins@);
                }
                let r = merge_by_remote(kept, ins);
                assert forall|e: EdgeRef| #[trigger]
                    r@.contains(e) <==> ((self@.has_edge(*layers, Direction::OUT, self@.vid, e)
                        && e.src_pid != e.dst_pid) || self@.has_edge(
                        *layers,
                        Direction::IN,
                        self@.vid,
                        e,
                    )) by {
                    assert(r@.contains(e) <==> (kept@.contains(e) || ins@.contains(e)));
                    assert(kept@.contains(e) <==> (outs@.contains(e) && not_loop()(e)));
                }
                r
            },
        }
    }
}

} // verus!
