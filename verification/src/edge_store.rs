//! The edge record: endpoints and, for each layer, the times at which the
//! edge was added there and its properties.

use crate::entities::{LayerIds, EID, VID};
use crate::errors::GraphError;
use crate::prop::Prop;
use crate::props::{apply_props, IllegalSet, Props, PropsView};
use crate::tcell::{cell_window, logical_times};
use crate::timeindex::{increasing, index_insert, lemma_index_insert, TimeIndex, TimeIndexEntry};
use std::ops::Range;
use vstd::prelude::*;

verus! {

/// What an edge holds in one layer.
pub struct EdgeLayerView {
    /// The logical times at which the edge was added in the layer,
    /// increasing.
    pub times: Seq<i64>,
    /// The properties of the edge in the layer.
    pub props: PropsView,
}

impl EdgeLayerView {
    /// The layer in which the edge has not been seen.
    pub open spec fn empty() -> EdgeLayerView {
        EdgeLayerView { times: Seq::empty(), props: PropsView::empty() }
    }
}

/// What an edge record holds.
pub struct EdgeView {
    pub eid: EID,
    pub src: VID,
    pub dst: VID,
    /// What the edge holds in each layer, by layer id.
    pub layers: Seq<EdgeLayerView>,
}

impl EdgeView {
    /// The times of every layer are increasing.
    pub open spec fn wf(self) -> bool {
        forall|l: int| 0 <= l < self.layers.len() ==> increasing((#[trigger] self.layers[l]).times)
    }

    /// What the edge holds in layer `l`; nothing if it has no such layer.
    pub open spec fn layer(self, l: int) -> EdgeLayerView {
        if 0 <= l < self.layers.len() {
            self.layers[l]
        } else {
            EdgeLayerView::empty()
        }
    }

    /// The layers after room is made for layer `layer`.
    pub open spec fn grown(layers: Seq<EdgeLayerView>, layer: usize) -> Seq<EdgeLayerView> {
        if layer < layers.len() {
            layers
        } else {
            layers + Seq::new((layer + 1 - layers.len()) as nat, |i: int| EdgeLayerView::empty())
        }
    }

    /// The record with layer `layer` replaced by `with`.
    pub open spec fn with_layer(self, layer: usize, with: EdgeLayerView) -> EdgeView {
        EdgeView { layers: EdgeView::grown(self.layers, layer).update(layer as int, with), ..self }
    }

    /// The record after the edge is added in layer `layer` at time `t`.
    pub open spec fn with_time(self, layer: usize, t: i64) -> EdgeView {
        self.with_layer(
            layer,
            EdgeLayerView {
                times: index_insert(self.layer(layer as int).times, t),
                ..self.layer(layer as int)
            },
        )
    }

    /// The record with the properties of layer `layer` replaced by `props`.
    pub open spec fn with_props(self, layer: usize, props: PropsView) -> EdgeView {
        self.with_layer(layer, EdgeLayerView { props, ..self.layer(layer as int) })
    }

    /// Whether the edge was added at some time in `[start, end)` in one of
    /// the selected layers.
    pub open spec fn active(self, layers: LayerIds, start: i64, end: i64) -> bool {
        exists|l: int, i: int|
            0 <= l < self.layers.len() && layers.selects(l as usize) && 0 <= i
                < self.layers[l].times.len() && start <= #[trigger] self.layers[l].times[i] < end
    }

    /// Whether the edge was added at `t` in one of the selected layers.
    pub open spec fn added_at(self, layers: LayerIds, t: i64) -> bool {
        exists|l: int|
            0 <= l < self.layers.len() && layers.selects(l as usize) && (
            #[trigger] self.layers[l]).times.contains(t)
    }

    /// Whether `t` is the last time at which the edge was added in one of
    /// the selected layers.
    pub open spec fn is_latest(self, layers: LayerIds, t: i64) -> bool {
        self.added_at(layers, t) && forall|x: i64| self.added_at(layers, x) ==> x <= t
    }

    /// Whether `t` is the first time at which the edge was added in one of
    /// the selected layers.
    pub open spec fn is_earliest(self, layers: LayerIds, t: i64) -> bool {
        self.added_at(layers, t) && forall|x: i64| self.added_at(layers, x) ==> t <= x
    }

    /// The last time at which the edge was added in one of the selected
    /// layers.
    pub open spec fn latest_time(self, layers: LayerIds) -> Option<i64> {
        if exists|t: i64| self.is_latest(layers, t) {
            Some(choose|t: i64| self.is_latest(layers, t))
        } else {
            None
        }
    }

    /// The first time at which the edge was added in one of the selected
    /// layers.
    pub open spec fn earliest_time(self, layers: LayerIds) -> Option<i64> {
        if exists|t: i64| self.is_earliest(layers, t) {
            Some(choose|t: i64| self.is_earliest(layers, t))
        } else {
            None
        }
    }

    /// Whether the edge was added at all in one of the selected layers.
    pub open spec fn has_layer(self, layers: LayerIds) -> bool {
        exists|l: int|
            0 <= l < self.layers.len() && layers.selects(l as usize) && (
            #[trigger] self.layers[l]).times.len() > 0
    }
}

/// What an edge holds in one layer.
#[derive(Debug, PartialEq)]
struct EdgeLayer {
    additions: TimeIndex,
    props: Props,
}

impl EdgeLayer {
    spec fn wf(&self) -> bool {
        self.additions.wf() && self.props.wf()
    }

    spec fn layer_view(&self) -> EdgeLayerView {
        EdgeLayerView { times: self.additions@, props: self.props@ }
    }

    fn new() -> (r: EdgeLayer)
        ensures
            r.wf(),
            r.layer_view() == EdgeLayerView::empty(),
    {
        EdgeLayer { additions: TimeIndex::new(), props: Props::new() }
    }
}

/// One edge: its identifier, its endpoints and what it holds per layer.
#[derive(Debug, PartialEq)]
pub struct EdgeStore {
    eid: EID,
    src: VID,
    dst: VID,
    layers: Vec<EdgeLayer>,
}

impl View for EdgeStore {
    type V = EdgeView;

    closed spec fn view(&self) -> EdgeView {
        EdgeView {
            eid: self.eid,
            src: self.src,
            dst: self.dst,
            layers: self.layers@.map_values(|l: EdgeLayer| l.layer_view()),
        }
    }
}

impl EdgeStore {
    pub closed spec fn wf(&self) -> bool {
        forall|l: int| 0 <= l < self.layers@.len() ==> (#[trigger] self.layers@[l]).wf()
    }

    /// A well-formed record has a well-formed view.
    pub proof fn lemma_wf(&self)
        requires
            self.wf(),
        ensures
            self@.wf(),
    {
        assert forall|l: int| 0 <= l < self@.layers.len() implies increasing(
            (#[trigger] self@.layers[l]).times,
        ) by {
            assert(self.layers@[l].wf());
        }
    }

    /// The record of the edge `eid` from `src` to `dst`, not yet seen in
    /// any layer.
    pub fn new(eid: EID, src: VID, dst: VID) -> (r: EdgeStore)
        ensures
            r.wf(),
            r@ == (EdgeView { eid, src, dst, layers: Seq::empty() }),
    {
        let r = EdgeStore { eid, src, dst, layers: Vec::new() };
        assert(r@.layers =~= Seq::empty());
        r
    }

    pub fn eid(&self) -> (e: EID)
        ensures
            e == self@.eid,
    {
        self.eid
    }

    pub fn src(&self) -> (v: VID)
        ensures
            v == self@.src,
    {
        self.src
    }

    pub fn dst(&self) -> (v: VID)
        ensures
            v == self@.dst,
    {
        self.dst
    }

    pub fn num_layers(&self) -> (n: usize)
        ensures
            n == self@.layers.len(),
    {
        self.layers.len()
    }

    /// Makes room for layer `layer`.
    fn reserve(&mut self, layer: usize)
        requires
            old(self).wf(),
        ensures
            final(self).wf(),
            final(self)@ == (EdgeView {
                layers: EdgeView::grown(old(self)@.layers, layer),
                ..old(self)@
            }),
            final(self).layers@.len() > layer,
    {
        let ghost before = self@;
        while self.layers.len() <= layer
            invariant
                self.wf(),
                self.layers@.len() >= before.layers.len(),
                self.layers@.len() == before.layers.len() || self.layers@.len() <= layer + 1,
                self@ == (EdgeView {
                    layers: before.layers + Seq::new(
                        (self.layers@.len() - before.layers.len()) as nat,
                        |i: int| EdgeLayerView::empty(),
                    ),
                    ..before
                }),
            decreases layer + 1 - self.layers.len(),
        {
            let ghost prev = self@.layers;
            self.layers.push(EdgeLayer::new());
            assert(self@.layers =~= prev.push(EdgeLayerView::empty()));
            assert(self@.layers =~= before.layers + Seq::new(
                (self.layers@.len() - before.layers.len()) as nat,
                |i: int| EdgeLayerView::empty(),
            ));
        }
        assert(self@.layers =~= EdgeView::grown(before.layers, layer));
    }

    /// Records that the edge was added in layer `layer` at `t`.
    pub fn update_time(&mut self, layer: usize, t: TimeIndexEntry)
        requires
            old(self).wf(),
        ensures
            final(self).wf(),
            final(self)@ == old(self)@.with_time(layer, t.0),
    {
        let ghost before = self@;
        self.reserve(layer);
        let ghost g = self@.layers;
        assert(g[layer as int] == self.layers@[layer as int].layer_view());
        assert(g[layer as int] == before.layer(layer as int));
        self.layers[layer].additions.insert(t.t());
        assert(self@.layers =~= g.update(
            layer as int,
            EdgeLayerView { times: index_insert(g[layer as int].times, t.0), ..g[layer as int] },
        ));
    }

    /// Records `prop` at `t` in the history of the temporal property
    /// `prop_id` of layer `layer`. A value of another kind than the
    /// history is refused and the properties stay as they are.
    pub fn add_prop(&mut self, t: TimeIndexEntry, layer: usize, prop_id: usize, prop: Prop) -> (r:
        Result<(), GraphError>)
        requires
            old(self).wf(),
        ensures
            final(self).wf(),
            r is Ok <==> old(self)@.layer(layer as int).props.accepts(prop_id, prop.spec_dtype()),
            r is Ok ==> final(self)@ == old(self)@.with_props(
                layer,
                old(self)@.layer(layer as int).props.with_write(t, prop_id, prop),
            ),
            r is Err ==> r == Err::<(), GraphError>(GraphError::IncorrectPropertyType) && final(self)@
                == old(self)@.with_props(layer, old(self)@.layer(layer as int).props),
    {
        let ghost before = self@;
        self.reserve(layer);
        let ghost g = self@.layers;
        assert(g[layer as int] == self.layers@[layer as int].layer_view());
        assert(g[layer as int] == before.layer(layer as int));
        let r = self.layers[layer].props.add_prop(t, prop_id, prop);
        assert(self@.layers =~= g.update(
            layer as int,
            EdgeLayerView { props: self.layers@[layer as int].props@, ..g[layer as int] },
        ));
        r
    }

    /// Records every value of `props` at `t`, in order, each in the
    /// history of its property in layer `layer`. The first value that is
    /// refused ends the call; the values before it stay recorded.
    pub fn add_props(&mut self, t: TimeIndexEntry, layer: usize, props: &Vec<(usize, Prop)>) -> (r:
        Result<(), GraphError>)
        requires
            old(self).wf(),
        ensures
            final(self).wf(),
            final(self)@ == old(self)@.with_props(
                layer,
                apply_props(old(self)@.layer(layer as int).props, t, props@).0,
            ),
            r is Ok <==> apply_props(old(self)@.layer(layer as int).props, t, props@).1,
            r is Err ==> r == Err::<(), GraphError>(GraphError::IncorrectPropertyType),
    {
        let ghost before = self@;
        self.reserve(layer);
        let ghost g = self@.layers;
        assert(g[layer as int] == self.layers@[layer as int].layer_view());
        assert(g[layer as int] == before.layer(layer as int));
        let r = self.layers[layer].props.add_props(t, props);
        assert(self@.layers =~= g.update(
            layer as int,
            EdgeLayerView { props: self.layers@[layer as int].props@, ..g[layer as int] },
        ));
        r
    }

    /// Sets the constant `prop_id` of layer `layer`, which must not have a
    /// value yet; if it has one, the write is refused.
    pub fn add_constant_prop(&mut self, layer: usize, prop_id: usize, prop: Prop) -> (r: Result<
        (),
        IllegalSet<Option<Prop>>,
    >)
        requires
            old(self).wf(),
        ensures
            final(self).wf(),
            r is Ok <==> !old(self)@.layer(layer as int).props.constant.contains_key(prop_id),
            r is Ok ==> final(self)@ == old(self)@.with_props(
                layer,
                old(self)@.layer(layer as int).props.with_constant(prop_id, prop),
            ),
            r matches Err(e) ==> e.index == prop_id && e.previous_value == Some(
                old(self)@.layer(layer as int).props.constant[prop_id],
            ) && e.new_value == Some(prop) && final(self)@ == old(self)@.with_props(
                layer,
                old(self)@.layer(layer as int).props,
            ),
    {
        let ghost before = self@;
        self.reserve(layer);
        let ghost g = self@.layers;
        assert(g[layer as int] == self.layers@[layer as int].layer_view());
        assert(g[layer as int] == before.layer(layer as int));
        let r = self.layers[layer].props.add_constant_prop(prop_id, prop);
        assert(self@.layers =~= g.update(
            layer as int,
            EdgeLayerView { props: self.layers@[layer as int].props@, ..g[layer as int] },
        ));
        r
    }

    /// Sets the constant `prop_id` of layer `layer`, whether or not it has
    /// a value.
    pub fn update_constant_prop(&mut self, layer: usize, prop_id: usize, prop: Prop) -> (r: Result<
        (),
        GraphError,
    >)
        requires
            old(self).wf(),
        ensures
            final(self).wf(),
            r is Ok,
            final(self)@ == old(self)@.with_props(
                layer,
                old(self)@.layer(layer as int).props.with_constant(prop_id, prop),
            ),
    {
        let ghost before = self@;
        self.reserve(layer);
        let ghost g = self@.layers;
        assert(g[layer as int] == self.layers@[layer as int].layer_view());
        assert(g[layer as int] == before.layer(layer as int));
        let r = self.layers[layer].props.update_constant_prop(prop_id, prop);
        assert(self@.layers =~= g.update(
            layer as int,
            EdgeLayerView { props: self.layers@[layer as int].props@, ..g[layer as int] },
        ));
        r
    }

    /// The logical times at which the edge was added in layer `layer`, in
    /// increasing order.
    pub fn additions(&self, layer: usize) -> (r: Vec<i64>)
        ensures
            r@ == self@.layer(layer as int).times,
    {
        if layer < self.layers.len() {
            assert(self@.layers[layer as int] == self.layers@[layer as int].layer_view());
            self.layers[layer].additions.iter()
        } else {
            Vec::new()
        }
    }

    /// The history of the temporal property `prop_id` in layer `layer` by
    /// logical time; with a window, the part of it in the window.
    pub fn temporal_properties(&self, layer: usize, prop_id: usize, window: Option<Range<i64>>) -> (r:
        Vec<(i64, Prop)>)
        requires
            self.wf(),
        ensures
            r@ == match window {
                Some(w) => logical_times(
                    cell_window(
                        self@.layer(layer as int).props.history(prop_id),
                        TimeIndexEntry::spec_start(w.start),
                        TimeIndexEntry::spec_start(w.end),
                    ),
                ),
                None => logical_times(self@.layer(layer as int).props.history(prop_id)),
            },
    {
        if layer < self.layers.len() {
            assert(self@.layers[layer as int] == self.layers@[layer as int].layer_view());
            assert(self.layers@[layer as int].wf());
            match window {
                Some(w) => self.layers[layer].props.temporal_props_window(prop_id, w.start, w.end),
                None => self.layers[layer].props.temporal_props(prop_id),
            }
        } else {
            let out: Vec<(i64, Prop)> = Vec::new();
            proof {
                let e = Seq::<(TimeIndexEntry, Prop)>::empty();
                assert(self@.layer(layer as int).props.history(prop_id) =~= e);
                assert(out@ =~= logical_times(e));
                if window is Some {
                    let w = window->Some_0;
                    assert(cell_window(
                        e,
                        TimeIndexEntry::spec_start(w.start),
                        TimeIndexEntry::spec_start(w.end),
                    ) =~= e);
                }
            }
            out
        }
    }

    /// The value of the constant `prop_id` in layer `layer`.
    pub fn const_prop(&self, layer: usize, prop_id: usize) -> (r: Option<&Prop>)
        ensures
            match r {
                Some(p) => self@.layer(layer as int).props.constant.contains_key(prop_id)
                    && self@.layer(layer as int).props.constant[prop_id] == *p,
                None => !self@.layer(layer as int).props.constant.contains_key(prop_id),
            },
    {
        if layer < self.layers.len() {
            assert(self@.layers[layer as int] == self.layers@[layer as int].layer_view());
            self.layers[layer].props.const_prop(prop_id)
        } else {
            None
        }
    }

    /// Whether the edge was added at some time in `[w.start, w.end)` in one
    /// of the selected layers.
    pub fn active(&self, layers: &LayerIds, w: Range<i64>) -> (b: bool)
        requires
            self.wf(),
        ensures
            b == self@.active(*layers, w.start, w.end),
    {
        let mut l: usize = 0;
        while l < self.layers.len()
            invariant
                l <= self.layers.len(),
                self.wf(),
                forall|k: int, i: int|
                    0 <= k < l && layers.selects(k as usize) && 0 <= i < self@.layers[k].times.len()
                        ==> !(w.start <= #[trigger] self@.layers[k].times[i] < w.end),
            decreases self.layers.len() - l,
        {
            assert(self@.layers[l as int] == self.layers@[l as int].layer_view());
            assert(self.layers@[l as int].wf());
            if layers.contains(l) {
                let hit = self.layers[l].additions.active(w.start..w.end);
                if hit {
                    proof {
                        let i = choose|i: int|
                            0 <= i < self.layers@[l as int].additions@.len() && w.start
                                <= #[trigger] self.layers@[l as int].additions@[i] < w.end;
                        assert(w.start <= self@.layers[l as int].times[i] < w.end);
                    }
                    return true;
                }
            }
            l += 1;
        }
        false
    }

    /// Whether the edge was added at all in one of the selected layers.
    pub fn has_layer(&self, layers: &LayerIds) -> (b: bool)
        ensures
            b == self@.has_layer(*layers),
    {
        let mut l: usize = 0;
        while l < self.layers.len()
            invariant
                l <= self.layers.len(),
                forall|k: int|
                    0 <= k < l && layers.selects(k as usize) ==> (#[trigger] self@.layers[k]).times.len()
                        == 0,
            decreases self.layers.len() - l,
        {
            assert(self@.layers[l as int] == self.layers@[l as int].layer_view());
            if layers.contains(l) && !self.layers[l].additions.is_empty() {
                return true;
            }
            l += 1;
        }
        false
    }
}

/// Adds every time of `times` to `index`.
fn insert_all(index: &mut TimeIndex, times: &Vec<i64>)
    requires
        old(index).wf(),
    ensures
        final(index).wf(),
        forall|t: i64| #[trigger]
            final(index)@.contains(t) <==> (old(index)@.contains(t) || (*times)@.contains(t)),
{
    let mut i: usize = 0;
    while i < times.len()
        invariant
            i <= times.len(),
            index.wf(),
            forall|t: i64|
                index@.contains(t) <==> (old(index)@.contains(t) || exists|k: int|
                    0 <= k < i && #[trigger] times@[k] == t),
        decreases times.len() - i,
    {
        proof {
            lemma_index_insert(index@, times@[i as int]);
        }
        let ghost before = index@;
        index.insert(times[i]);
        proof {
            assert forall|t: i64|
                index@.contains(t) <==> (old(index)@.contains(t) || exists|k: int|
                    0 <= k < i + 1 && #[trigger] times@[k] == t) by {
                if index@.contains(t) && t != times@[i as int] {
                    assert(before.contains(t));
                    if !old(index)@.contains(t) {
                        let k = choose|k: int| 0 <= k < i && #[trigger] times@[k] == t;
                        assert(times@[k] == t);
                    }
                }
                if exists|k: int| 0 <= k < i + 1 && #[trigger] times@[k] == t {
                    let k = choose|k: int| 0 <= k < i + 1 && #[trigger] times@[k] == t;
                    if k < i {
                        assert(before.contains(t));
                    }
                }
            }
        }
        i += 1;
    }
    proof {
        assert forall|t: i64|
            index@.contains(t) <==> (old(index)@.contains(t) || (*times)@.contains(t)) by {
            if times@.contains(t) {
                let k = choose|k: int| 0 <= k < times@.len() && times@[k] == t;
                assert(times@[k] == t);
            }
        }
    }
}

impl EdgeStore {
    /// The times at which the edge was added in one of the selected
    /// layers, each once, in increasing order.
    pub fn times(&self, layers: &LayerIds) -> (r: Vec<i64>)
        requires
            self.wf(),
        ensures
            increasing(r@),
            forall|t: i64| r@.contains(t) <==> self@.added_at(*layers, t),
    {
        let mut index = TimeIndex::new();
        let mut l: usize = 0;
        while l < self.layers.len()
            invariant
                l <= self.layers.len(),
                self.wf(),
                index.wf(),
                forall|t: i64|
                    index@.contains(t) <==> exists|k: int|
                        0 <= k < l && layers.selects(k as usize) && (
                        #[trigger] self@.layers[k]).times.contains(t),
            decreases self.layers.len() - l,
        {
            assert(self@.layers[l as int] == self.layers@[l as int].layer_view());
            let ghost before = index@;
            let ghost here = self@.layers[l as int].times;
            let selected = layers.contains(l);
            if selected {
                let times = self.layers[l].additions.iter();
                let listed = &times;
                assert((*listed)@ == here);
                insert_all(&mut index, listed);
                assert forall|t: i64|
                    index@.contains(t) <==> (before.contains(t) || here.contains(t)) by {
                    assert(index@.contains(t) <==> (before.contains(t) || (*listed)@.contains(t)));
                }
            }
            assert forall|t: i64|
                index@.contains(t) <==> (before.contains(t) || (selected && here.contains(
                    t,
                ))) by {
                if selected {
                    assert(index@.contains(t) <==> (before.contains(t) || here.contains(t)));
                }
            }
            proof {
                assert forall|t: i64|
                    index@.contains(t) <==> exists|k: int|
                        0 <= k < l + 1 && layers.selects(k as usize) && (
                        #[trigger] self@.layers[k]).times.contains(t) by {
                    if index@.contains(t) {
                        if before.contains(t) {
                            let k = choose|k: int|
                                0 <= k < l && layers.selects(k as usize) && (
                                #[trigger] self@.layers[k]).times.contains(t);
                            assert(self@.layers[k].times.contains(t));
                        } else {
                            assert(selected && here.contains(t));
                            assert(layers.selects(l) && self@.layers[l as int].times.contains(t));
                        }
                    }
                    if exists|k: int|
                        0 <= k < l + 1 && layers.selects(k as usize) && (
                        #[trigger] self@.layers[k]).times.contains(t) {
                        let k = choose|k: int|
                            0 <= k < l + 1 && layers.selects(k as usize) && (
                            #[trigger] self@.layers[k]).times.contains(t);
                        if k < l {
                            assert(before.contains(t));
                        } else {
                            assert(k == l);
                            assert(selected && here.contains(t));
                        }
                    }
                }
            }
            l += 1;
        }
        index.iter()
    }

    /// The last time at which the edge was added in one of the selected
    /// layers.
    pub fn latest_time(&self, layers: &LayerIds) -> (r: Option<i64>)
        requires
            self.wf(),
        ensures
            r == self@.latest_time(*layers),
    {
        let times = self.times(layers);
        if times.len() == 0 {
            proof {
                if exists|t: i64| self@.is_latest(*layers, t) {
                    let t = choose|t: i64| self@.is_latest(*layers, t);
                    assert(times@.contains(t));
                }
            }
            None
        } else {
            let last = times[times.len() - 1];
            proof {
                assert(times@.contains(last));
                assert forall|x: i64| self@.added_at(*layers, x) implies x <= last by {
                    assert(times@.contains(x));
                    let k = choose|k: int| 0 <= k < times@.len() && times@[k] == x;
                    if k < times@.len() - 1 {
                        assert(times@[k] < times@[times@.len() - 1]);
                    }
                }
                assert(self@.is_latest(*layers, last));
                let c = choose|t: i64| self@.is_latest(*layers, t);
                assert(self@.is_latest(*layers, c));
                assert(c <= last && last <= c);
            }
            Some(last)
        }
    }

    /// The first time at which the edge was added in one of the selected
    /// layers.
    pub fn earliest_time(&self, layers: &LayerIds) -> (r: Option<i64>)
        requires
            self.wf(),
        ensures
            r == self@.earliest_time(*layers),
    {
        let times = self.times(layers);
        if times.len() == 0 {
            proof {
                if exists|t: i64| self@.is_earliest(*layers, t) {
                    let t = choose|t: i64| self@.is_earliest(*layers, t);
                    assert(times@.contains(t));
                }
            }
            None
        } else {
            let first = times[0];
            proof {
                assert(times@.contains(first));
                assert forall|x: i64| self@.added_at(*layers, x) implies first <= x by {
                    assert(times@.contains(x));
                    let k = choose|k: int| 0 <= k < times@.len() && times@[k] == x;
                    if k > 0 {
                        assert(times@[0] < times@[k]);
                    }
                }
                assert(self@.is_earliest(*layers, first));
                let c = choose|t: i64| self@.is_earliest(*layers, t);
                assert(self@.is_earliest(*layers, c));
                assert(c <= first && first <= c);
            }
            Some(first)
        }
    }
}

} // verus!
