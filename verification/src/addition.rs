//! The addition interface: nodes, edges and properties come in under
//! their external names and are resolved before they are stored.

use crate::entities::{EID, VID};
use crate::errors::GraphError;
use crate::graph::{GraphView, InternalGraph};
use crate::meta::{id_of, resolved_id, MetaView};
use crate::prop::Prop;
use crate::timeindex::TimeIndexEntry;
use vstd::prelude::*;

verus! {

/// The registries after the temporal properties `props` are resolved in
/// order, each with the kind of its value, up to the first that is not
/// admitted; the properties by id; and whether all were admitted.
pub open spec fn resolve_props(meta: MetaView, props: Seq<(String, Prop)>) -> (
    MetaView,
    Seq<(usize, Prop)>,
    bool,
)
    decreases props.len(),
{
    if props.len() == 0 {
        (meta, Seq::empty(), true)
    } else {
        let name = props[0].0@;
        let value = props[0].1;
        if meta.admits(name, value.spec_dtype(), false) {
            let id = resolved_id(meta.prop_names(false), name);
            let rest = resolve_props(
                meta.with_prop(name, value.spec_dtype(), false),
                props.drop_first(),
            );
            (rest.0, seq![(id, value)] + rest.1, rest.2)
        } else {
            (meta, Seq::empty(), false)
        }
    }
}

/// The timestamp of an event at logical time `t` in the graph `g`: it
/// takes the sequence number that is next.
pub open spec fn event_time(g: GraphView, t: i64) -> TimeIndexEntry {
    TimeIndexEntry(t, g.events)
}

/// The graph after the next sequence number is taken.
pub open spec fn after_event(g: GraphView) -> GraphView {
    GraphView {
        events: if g.events == usize::MAX {
            0usize
        } else {
            (g.events + 1) as usize
        },
        ..g
    }
}

/// The id of the layer that an edge is added in: that of the name, which
/// gets the next free one if it is new; without a name, that of the
/// default layer.
pub open spec fn layer_id_of(layers: Seq<Seq<char>>, layer: Option<&str>) -> usize {
    match layer {
        Some(name) => resolved_id(layers, name@),
        None => 0,
    }
}

/// The name, if any, as a sequence of characters.
pub open spec fn name_view(name: Option<&str>) -> Option<Seq<char>> {
    match name {
        Some(n) => Some(n@),
        None => None,
    }
}

/// The graph after the type named `node_type`, if any, is assigned to node
/// `v`: the name gets an id if it is new, and the node takes the type
/// unless it has one.
pub open spec fn after_node_type(g: GraphView, v: VID, node_type: Option<&str>) -> GraphView {
    match node_type {
        Some(name) => {
            let id = resolved_id(g.node_meta.node_types, name@);
            GraphView {
                node_meta: MetaView {
                    node_types: crate::meta::with_name(g.node_meta.node_types, name@),
                    ..g.node_meta
                },
                nodes: g.nodes.update(
                    v.0 as int,
                    crate::node_store::NodeView {
                        node_type: GraphView::assigned_type(g.nodes[v.0 as int], id),
                        ..g.nodes[v.0 as int]
                    },
                ),
                ..g
            }
        },
        None => g,
    }
}

/// The graph after `add_node`.
pub open spec fn after_add_node(
    g: GraphView,
    t: i64,
    id: u64,
    name: Option<&str>,
    props: Seq<(String, Prop)>,
    node_type: Option<&str>,
) -> GraphView {
    let resolved = resolve_props(g.node_meta, props);
    let g1 = GraphView { node_meta: resolved.0, ..g };
    if !resolved.2 {
        g1
    } else {
        let ti = event_time(g1, t);
        let g2 = after_event(g1).with_node(id, name_view(name));
        let v = g2.ids[id];
        let g3 = after_node_type(g2, v, node_type);
        g3.with_added_node(ti, v, resolved.1, g3.nodes[v.0 as int].node_type)
    }
}

/// Whether `add_node` succeeds: every property name is admitted with the
/// kind of its value, and every value has the kind of the history that it
/// goes to.
pub open spec fn add_node_succeeds(
    g: GraphView,
    t: i64,
    id: u64,
    name: Option<&str>,
    props: Seq<(String, Prop)>,
    node_type: Option<&str>,
) -> bool {
    let resolved = resolve_props(g.node_meta, props);
    let g1 = GraphView { node_meta: resolved.0, ..g };
    let g2 = after_event(g1).with_node(id, name_view(name));
    let v = g2.ids[id];
    let g3 = after_node_type(g2, v, node_type);
    resolved.2 && crate::props::apply_props(
        g3.nodes[v.0 as int].props,
        event_time(g1, t),
        resolved.1,
    ).1
}

/// Whether `add_edge` succeeds: every property name is admitted with the
/// kind of its value, and every value has the kind of the history that it
/// goes to.
pub open spec fn add_edge_succeeds(
    g: GraphView,
    t: i64,
    src: u64,
    dst: u64,
    props: Seq<(String, Prop)>,
    layer: Option<&str>,
) -> bool {
    let g1 = after_event(g).with_node(src, None).with_node(dst, None);
    let g2 = match layer {
        Some(name) => GraphView {
            edge_meta: MetaView {
                layers: crate::meta::with_name(g1.edge_meta.layers, name@),
                ..g1.edge_meta
            },
            ..g1
        },
        None => g1,
    };
    let resolved = resolve_props(g2.edge_meta, props);
    let g3 = GraphView { edge_meta: resolved.0, ..g2 };
    resolved.2 && g3.edge_props_accepted(
        event_time(g, t),
        g3.ids[src],
        g3.ids[dst],
        resolved.1,
        layer_id_of(g.edge_meta.layers, layer),
    )
}

/// The id of the edge that `add_edge` adds: the one that the edge between
/// the two nodes has, or else the next free one.
pub open spec fn added_edge_id(g: GraphView, src: u64, dst: u64) -> EID {
    let g1 = g.with_node(src, None).with_node(dst, None);
    g1.edge_id(g1.ids[src], g1.ids[dst])
}

/// The graph after `add_edge`.
pub open spec fn after_add_edge(
    g: GraphView,
    t: i64,
    src: u64,
    dst: u64,
    props: Seq<(String, Prop)>,
    layer: Option<&str>,
) -> GraphView {
    let ti = event_time(g, t);
    let g1 = after_event(g).with_node(src, None).with_node(dst, None);
    let g2 = match layer {
        Some(name) => GraphView {
            edge_meta: MetaView {
                layers: crate::meta::with_name(g1.edge_meta.layers, name@),
                ..g1.edge_meta
            },
            ..g1
        },
        None => g1,
    };
    let resolved = resolve_props(g2.edge_meta, props);
    let g3 = GraphView { edge_meta: resolved.0, ..g2 };
    if !resolved.2 {
        g3
    } else {
        g3.with_edge(
            ti,
            g3.ids[src],
            g3.ids[dst],
            resolved.1,
            layer_id_of(g.edge_meta.layers, layer),
        )
    }
}

impl InternalGraph {
    /// Resolves the node properties `props` in order. The first name
    /// that was declared with another kind than its value has ends the
    /// call with the error; the names before it stay registered.
    pub fn resolve_node_props(&mut self, props: &Vec<(String, Prop)>) -> (r: Result<
        Vec<(usize, Prop)>,
        GraphError,
    >)
        requires
            old(self).wf(),
        ensures
            final(self).wf(),
            old(self)@.ids_kept(final(self)@),
            final(self)@ == (GraphView {
                node_meta: resolve_props(old(self)@.node_meta, props@).0,
                ..old(self)@
            }),
            r is Ok <==> resolve_props(old(self)@.node_meta, props@).2,
            r matches Ok(ids) ==> ids@ == resolve_props(old(self)@.node_meta, props@).1,
            r matches Err(e) ==> e is PropertyTypeError,
    {
        let mut out: Vec<(usize, Prop)> = Vec::new();
        let mut i: usize = 0;
        assert(props@.skip(0) =~= props@);
        while i < props.len()
            invariant
                i <= props.len(),
                self.wf(),
                old(self)@.ids_kept(self@),
                self@ == (GraphView { node_meta: self@.node_meta, ..old(self)@ }),
                resolve_props(old(self)@.node_meta, props@).0 == resolve_props(
                    self@.node_meta,
                    props@.skip(i as int),
                ).0,
                resolve_props(old(self)@.node_meta, props@).1 == out@ + resolve_props(
                    self@.node_meta,
                    props@.skip(i as int),
                ).1,
                resolve_props(old(self)@.node_meta, props@).2 == resolve_props(
                    self@.node_meta,
                    props@.skip(i as int),
                ).2,
            decreases props.len() - i,
        {
            let ghost rest = props@.skip(i as int);
            let ghost meta = self@.node_meta;
            assert(rest[0] == props@[i as int]);
            assert(rest.drop_first() =~= props@.skip(i + 1));
            let value = props[i].1.clone();
            let dtype = value.dtype();
            match self.resolve_node_property(props[i].0.as_str(), dtype, false) {
                Ok(id) => {
                    let ghost before = out@;
                    out.push((id, value));
                    proof {
                        let next = resolve_props(
                            meta.with_prop(rest[0].0@, dtype, false),
                            rest.drop_first(),
                        );
                        assert(before.push((id, value)) + next.1 =~= before + (seq![(id, value)]
                            + next.1));
                    }
                },
                Err(e) => {
                    assert(out@ + Seq::<(usize, Prop)>::empty() =~= out@);
                    return Err(e);
                },
            }
            i += 1;
        }
        assert(out@ + Seq::<(usize, Prop)>::empty() =~= out@);
        Ok(out)
    }

    /// Resolves the edge properties `props` in order. The first name
    /// that was declared with another kind than its value has ends the
    /// call with the error; the names before it stay registered.
    pub fn resolve_edge_props(&mut self, props: &Vec<(String, Prop)>) -> (r: Result<
        Vec<(usize, Prop)>,
        GraphError,
    >)
        requires
            old(self).wf(),
        ensures
            final(self).wf(),
            old(self)@.ids_kept(final(self)@),
            final(self)@ == (GraphView {
                edge_meta: resolve_props(old(self)@.edge_meta, props@).0,
                ..old(self)@
            }),
            r is Ok <==> resolve_props(old(self)@.edge_meta, props@).2,
            r matches Ok(ids) ==> ids@ == resolve_props(old(self)@.edge_meta, props@).1,
            r matches Err(e) ==> e is PropertyTypeError,
    {
        let mut out: Vec<(usize, Prop)> = Vec::new();
        let mut i: usize = 0;
        assert(props@.skip(0) =~= props@);
        while i < props.len()
            invariant
                i <= props.len(),
                self.wf(),
                old(self)@.ids_kept(self@),
                self@ == (GraphView { edge_meta: self@.edge_meta, ..old(self)@ }),
                resolve_props(old(self)@.edge_meta, props@).0 == resolve_props(
                    self@.edge_meta,
                    props@.skip(i as int),
                ).0,
                resolve_props(old(self)@.edge_meta, props@).1 == out@ + resolve_props(
                    self@.edge_meta,
                    props@.skip(i as int),
                ).1,
                resolve_props(old(self)@.edge_meta, props@).2 == resolve_props(
                    self@.edge_meta,
                    props@.skip(i as int),
                ).2,
            decreases props.len() - i,
        {
            let ghost rest = props@.skip(i as int);
            let ghost meta = self@.edge_meta;
            assert(rest[0] == props@[i as int]);
            assert(rest.drop_first() =~= props@.skip(i + 1));
            let value = props[i].1.clone();
            let dtype = value.dtype();
            match self.resolve_edge_property(props[i].0.as_str(), dtype, false) {
                Ok(id) => {
                    let ghost before = out@;
                    out.push((id, value));
                    proof {
                        let next = resolve_props(
                            meta.with_prop(rest[0].0@, dtype, false),
                            rest.drop_first(),
                        );
                        assert(before.push((id, value)) + next.1 =~= before + (seq![(id, value)]
                            + next.1));
                    }
                },
                Err(e) => {
                    assert(out@ + Seq::<(usize, Prop)>::empty() =~= out@);
                    return Err(e);
                },
            }
            i += 1;
        }
        assert(out@ + Seq::<(usize, Prop)>::empty() =~= out@);
        Ok(out)
    }

    /// Adds the node with the external id `id` at logical time `t`, and
    /// returns its dense id.
    ///
    /// The steps, in order: the properties are resolved; the event takes
    /// its sequence number; the external id is resolved, which makes the
    /// record if the node is new; the type is assigned unless the node has
    /// one; the node is touched at the timestamp and the properties are
    /// recorded. The first step that fails ends the call with its error;
    /// what the steps before it did stays. A node keeps the dense id that
    /// it got when it was first resolved.
    pub fn add_node(
        &mut self,
        t: i64,
        id: u64,
        name: Option<&str>,
        props: Vec<(String, Prop)>,
        node_type: Option<&str>,
    ) -> (r: Result<VID, GraphError>)
        requires
            old(self).wf(),
        ensures
            final(self).wf(),
            old(self)@.ids_kept(final(self)@),
            final(self)@ == after_add_node(old(self)@, t, id, name, props@, node_type),
            r is Ok <==> add_node_succeeds(old(self)@, t, id, name, props@, node_type),
            !resolve_props(old(self)@.node_meta, props@).2 ==> r is Err && final(self)@ == (
            GraphView { node_meta: resolve_props(old(self)@.node_meta, props@).0, ..old(self)@ }),
            resolve_props(old(self)@.node_meta, props@).2 ==> final(self)@.ids.contains_key(id)
                && final(self)@.ids[id] == old(self)@.node_id(id) && final(self)@.events
                == after_event(old(self)@).events,
            r matches Ok(v) ==> v == old(self)@.node_id(id) && v.0 < final(self)@.nodes.len()
                && final(self)@.nodes[v.0 as int].times.contains(t) && final(self)@.nodes[v.0 as int].global_id
                == id,
    {
        let resolved = self.resolve_node_props(&props);
        let properties = match resolved {
            Ok(p) => p,
            Err(e) => {
                return Err(e);
            },
        };
        let ghost g1 = self@;
        let seq = self.next_event_id();
        let ti = TimeIndexEntry::new(t, seq);
        let v = self.resolve_node(id, name);
        let ghost g2 = self@;
        let type_id = match self.resolve_node_type(v, node_type) {
            Ok(ty) => ty,
            Err(e) => {
                return Err(e);
            },
        };
        let ghost g3 = self@;
        proof {
            self.lemma_wf();
            assert(g3.nodes[v.0 as int].global_id == id);
            crate::timeindex::lemma_index_insert(g3.nodes[v.0 as int].times, t);
            assert forall|x: u64| #[trigger] old(self)@.ids.contains_key(x) implies g3.ids.contains_key(
                x,
            ) && g3.ids[x] == old(self)@.ids[x] by {
                assert(g1.ids.contains_key(x));
            }
        }
        let r = self.internal_add_node(ti, v, properties, type_id);
        match r {
            Ok(()) => Ok(v),
            Err(e) => Err(e),
        }
    }

    /// Adds the edge from the external id `src` to the external id `dst`
    /// in the layer `layer` at logical time `t`, and returns its id.
    ///
    /// The steps, in order: the event takes its sequence number; both
    /// external ids and the layer are resolved; the properties are
    /// resolved; the edge is stored and linked at both endpoints. The
    /// first step that fails ends the call with its error; what the steps
    /// before it did stays. Nodes keep the dense ids that they got when
    /// they were first resolved, and an edge between two nodes keeps its
    /// id whichever layers it is added in.
    pub fn add_edge(
        &mut self,
        t: i64,
        src: u64,
        dst: u64,
        props: Vec<(String, Prop)>,
        layer: Option<&str>,
    ) -> (r: Result<EID, GraphError>)
        requires
            old(self).wf(),
        ensures
            final(self).wf(),
            old(self)@.ids_kept(final(self)@),
            final(self)@ == after_add_edge(old(self)@, t, src, dst, props@, layer),
            r is Ok <==> add_edge_succeeds(old(self)@, t, src, dst, props@, layer),
            r matches Ok(e) ==> e == added_edge_id(old(self)@, src, dst),
            final(self)@.ids.contains_key(src) && final(self)@.ids[src] == old(self)@.node_id(src),
            final(self)@.ids.contains_key(dst),
            old(self)@.ids.contains_key(dst) ==> final(self)@.ids[dst] == old(self)@.ids[dst],
            final(self)@.events == after_event(old(self)@).events,
            r matches Ok(e) ==> final(self)@.out_entry(
                final(self)@.ids[src].0 as int,
                layer_id_of(old(self)@.edge_meta.layers, layer) as int,
                final(self)@.ids[dst],
                e,
            ) && final(self)@.in_entry(
                final(self)@.ids[dst].0 as int,
                layer_id_of(old(self)@.edge_meta.layers, layer) as int,
                final(self)@.ids[src],
                e,
            ),
    {
        let seq = self.next_event_id();
        let ti = TimeIndexEntry::new(t, seq);
        let ghost g1 = self@;
        let src_id = self.resolve_node(src, None);
        let ghost g2 = self@;
        let dst_id = self.resolve_node(dst, None);
        let ghost g3 = self@;
        let layer_id = self.resolve_layer(layer);
        let ghost g4 = self@;
        proof {
            assert(g2.ids.contains_key(src));
            assert(g3.ids.contains_key(src) && g3.ids[src] == src_id);
            assert(g4.ids.contains_key(src) && g4.ids[src] == src_id);
            assert(g4.ids.contains_key(dst) && g4.ids[dst] == dst_id);
            assert(src_id.0 < g3.nodes.len());
            assert(g4.nodes == g3.nodes);
            if old(self)@.ids.contains_key(dst) {
                assert(g1.ids.contains_key(dst));
                assert(g2.ids.contains_key(dst));
            }
            assert forall|x: u64| #[trigger] old(self)@.ids.contains_key(x) implies g4.ids.contains_key(
                x,
            ) && g4.ids[x] == old(self)@.ids[x] by {
                assert(g1.ids.contains_key(x));
                assert(g2.ids.contains_key(x));
                assert(g3.ids.contains_key(x));
            }
        }
        let resolved = self.resolve_edge_props(&props);
        let properties = match resolved {
            Ok(p) => p,
            Err(e) => {
                return Err(e);
            },
        };
        let ghost g5 = self@;
        let r = self.internal_add_edge(ti, src_id, dst_id, properties, layer_id);
        proof {
            assert forall|x: u64| #[trigger] old(self)@.ids.contains_key(x) implies self@.ids.contains_key(
                x,
            ) && self@.ids[x] == old(self)@.ids[x] by {
                assert(g4.ids.contains_key(x));
                assert(g5.ids.contains_key(x));
            }
            assert(g5.ids.contains_key(src));
            assert(g5.ids.contains_key(dst));
            if r is Ok {
                let e = r->Ok_0;
                assert(self@.in_entry(
                    self@.ids[dst].0 as int,
                    layer_id as int,
                    self@.ids[src],
                    e,
                ));
            }
        }
        r
    }
}

/// A node or an edge in one layer, by dense id.
#[derive(Copy, Clone, Debug, PartialEq, Eq, Structural)]
pub enum EntityRef {
    Node(VID),
    Edge(EID, usize),
}

/// The registries that hold the properties of the entity.
pub open spec fn meta_of(g: GraphView, entity: EntityRef) -> MetaView {
    match entity {
        EntityRef::Node(_) => g.node_meta,
        EntityRef::Edge(_, _) => g.edge_meta,
    }
}

/// Whether the entity exists.
pub open spec fn exists_in(g: GraphView, entity: EntityRef) -> bool {
    match entity {
        EntityRef::Node(v) => v.0 < g.nodes.len(),
        EntityRef::Edge(e, _) => e.0 < g.edges.len(),
    }
}

/// The properties of the entity.
pub open spec fn props_of(g: GraphView, entity: EntityRef) -> crate::props::PropsView {
    match entity {
        EntityRef::Node(v) => g.nodes[v.0 as int].props,
        EntityRef::Edge(e, layer) => g.edges[e.0 as int].layer(layer as int).props,
    }
}

/// The graph with the properties of the entity replaced by `props`.
pub open spec fn with_props_of(g: GraphView, entity: EntityRef, props: crate::props::PropsView) -> GraphView {
    match entity {
        EntityRef::Node(v) => g.with_node_props(v, props),
        EntityRef::Edge(e, layer) => g.with_edge_props(e, layer, props),
    }
}

/// The graph with the registries of the kind of the entity replaced by
/// `meta`.
pub open spec fn with_meta_of(g: GraphView, entity: EntityRef, meta: MetaView) -> GraphView {
    match entity {
        EntityRef::Node(_) => GraphView { node_meta: meta, ..g },
        EntityRef::Edge(_, _) => GraphView { edge_meta: meta, ..g },
    }
}

/// The id that the property `name` of the entity's kind has, or gets if
/// it is new.
pub open spec fn property_id(g: GraphView, entity: EntityRef, name: Seq<char>, is_constant: bool) -> usize {
    resolved_id(meta_of(g, entity).prop_names(is_constant), name)
}

/// The graph after `add_property`.
pub open spec fn after_add_property(
    g: GraphView,
    entity: EntityRef,
    t: i64,
    name: Seq<char>,
    value: Prop,
    is_constant: bool,
) -> GraphView {
    let meta = meta_of(g, entity);
    let id = resolved_id(meta.prop_names(is_constant), name);
    if !meta.admits(name, value.spec_dtype(), is_constant) {
        g
    } else {
        let g1 = with_meta_of(g, entity, meta.with_prop(name, value.spec_dtype(), is_constant));
        if is_constant {
            if !exists_in(g1, entity) || (entity is Node && props_of(
                g1,
                entity,
            ).constant.contains_key(id)) {
                g1
            } else if props_of(g1, entity).constant.contains_key(id) {
                with_props_of(g1, entity, props_of(g1, entity))
            } else {
                with_props_of(g1, entity, props_of(g1, entity).with_constant(id, value))
            }
        } else {
            let g2 = after_event(g1);
            let ti = event_time(g1, t);
            if !exists_in(g2, entity) || (entity is Node && !props_of(g2, entity).accepts(
                id,
                value.spec_dtype(),
            )) {
                g2
            } else if !props_of(g2, entity).accepts(id, value.spec_dtype()) {
                with_props_of(g2, entity, props_of(g2, entity))
            } else {
                with_props_of(g2, entity, props_of(g2, entity).with_write(ti, id, value))
            }
        }
    }
}

impl InternalGraph {
    /// Writes the property `name` of a node or of an edge in one layer: a
    /// constant, which must not have a value yet, or a temporal value at
    /// logical time `t`.
    ///
    /// The steps, in order: the name is resolved with the kind of the
    /// value; a temporal write takes its sequence number; the value is
    /// stored. The first step that fails ends the call with its error:
    /// a name that was declared with another kind, an entity that does not
    /// exist, a constant that has a value, a value of another kind than
    /// the history.
    pub fn add_property(
        &mut self,
        entity: EntityRef,
        t: i64,
        name: &str,
        value: Prop,
        is_constant: bool,
    ) -> (r: Result<(), GraphError>)
        requires
            old(self).wf(),
        ensures
            final(self).wf(),
            old(self)@.ids_kept(final(self)@),
            final(self)@ == after_add_property(old(self)@, entity, t, name@, value, is_constant),
            !meta_of(old(self)@, entity).admits(name@, value.spec_dtype(), is_constant) ==> (
            r matches Err(GraphError::PropertyTypeError { name: n, expected, actual }) && n@ == name@
                && expected == meta_of(old(self)@, entity).prop_dtypes(is_constant)[meta_of(
                old(self)@,
                entity,
            ).prop_names(is_constant).index_of(name@)] && actual == value.spec_dtype()),
            meta_of(old(self)@, entity).admits(name@, value.spec_dtype(), is_constant)
                && !exists_in(old(self)@, entity) ==> r == Err::<(), GraphError>(
                GraphError::InvalidIdentifier,
            ),
            meta_of(old(self)@, entity).admits(name@, value.spec_dtype(), is_constant) && exists_in(
                old(self)@,
                entity,
            ) && is_constant ==> (if props_of(old(self)@, entity).constant.contains_key(
                property_id(old(self)@, entity, name@, is_constant),
            ) {
                r == Err::<(), GraphError>(
                    GraphError::ConstantPropertyMutationError {
                        prop_id: property_id(old(self)@, entity, name@, is_constant),
                    },
                )
            } else {
                r is Ok
            }),
            meta_of(old(self)@, entity).admits(name@, value.spec_dtype(), is_constant) && exists_in(
                old(self)@,
                entity,
            ) && !is_constant ==> (if props_of(old(self)@, entity).accepts(
                property_id(old(self)@, entity, name@, is_constant),
                value.spec_dtype(),
            ) {
                r is Ok
            } else {
                r == Err::<(), GraphError>(GraphError::IncorrectPropertyType)
            }),
    {
        let ghost g = self@;
        let dtype = value.dtype();
        let resolved = match entity {
            EntityRef::Node(_) => self.resolve_node_property(name, dtype, is_constant),
            EntityRef::Edge(_, _) => self.resolve_edge_property(name, dtype, is_constant),
        };
        let id = match resolved {
            Ok(id) => id,
            Err(e) => {
                return Err(e);
            },
        };
        let ghost g1 = self@;
        assert(g1 == with_meta_of(
            g,
            entity,
            meta_of(g, entity).with_prop(name@, dtype, is_constant),
        ));
        if is_constant {
            match entity {
                EntityRef::Node(v) => self.add_node_constant_prop(v, id, value),
                EntityRef::Edge(e, layer) => self.add_edge_constant_prop(e, layer, id, value),
            }
        } else {
            let seq = self.next_event_id();
            let ti = TimeIndexEntry::new(t, seq);
            proof {
                let g2 = self@;
                assert forall|x: u64| #[trigger] g.ids.contains_key(x) implies g2.ids.contains_key(
                    x,
                ) && g2.ids[x] == g.ids[x] by {
                    assert(g1.ids.contains_key(x));
                }
            }
            match entity {
                EntityRef::Node(v) => self.add_node_prop(v, ti, id, value),
                EntityRef::Edge(e, layer) => self.add_edge_prop(e, layer, ti, id, value),
            }
        }
    }

    /// The id of the node property `name`, which must be registered.
    pub fn node_property_id(&self, name: &str, is_constant: bool) -> (r: Result<usize, GraphError>)
        requires
            self.wf(),
        ensures
            match id_of(self@.node_meta.prop_names(is_constant), name@) {
                Some(id) => r == Ok::<usize, GraphError>(id),
                None => r matches Err(GraphError::PropertyMissingError(n)) && n@ == name@,
            },
    {
        match self.node_meta().get_prop_id(name, is_constant) {
            Some(id) => Ok(id),
            None => Err(GraphError::PropertyMissingError(name.to_owned())),
        }
    }

    /// The id of the edge property `name`, which must be registered.
    pub fn edge_property_id(&self, name: &str, is_constant: bool) -> (r: Result<usize, GraphError>)
        requires
            self.wf(),
        ensures
            match id_of(self@.edge_meta.prop_names(is_constant), name@) {
                Some(id) => r == Ok::<usize, GraphError>(id),
                None => r matches Err(GraphError::PropertyMissingError(n)) && n@ == name@,
            },
    {
        match self.edge_meta().get_prop_id(name, is_constant) {
            Some(id) => Ok(id),
            None => Err(GraphError::PropertyMissingError(name.to_owned())),
        }
    }
}

} // verus!
