use raphtory::addition::EntityRef;
use raphtory::edge_store::EdgeStore;
use raphtory::entities::{Direction, EdgeRef, LayerIds, EID, VID};
use raphtory::errors::GraphError;
use raphtory::graph::InternalGraph;
use raphtory::meta::{DictMapper, Meta};
use raphtory::prop::{Prop, PropType};
use raphtory::timeindex::TimeIndexEntry;
use raphtory::views::Layer;

fn no_props() -> Vec<(String, Prop)> {
    vec![]
}

fn triangle_graph() -> InternalGraph {
    let mut graph = InternalGraph::new();
    let vs = vec![(1, 1, 2), (2, 1, 3), (3, 2, 1), (4, 3, 2), (5, 1, 4), (6, 4, 5)];
    for (t, src, dst) in &vs {
        graph.add_edge(*t, *src, *dst, no_props(), None).unwrap();
    }
    graph
}

#[test]
fn resolving_an_id_twice_gives_the_same_dense_id() {
    let mut graph = InternalGraph::new();
    let a = graph.resolve_node(77, None);
    let b = graph.resolve_node(5, Some("five"));
    let c = graph.resolve_node(1000, None);
    assert_eq!((a, b, c), (VID(0), VID(1), VID(2)));
    assert_eq!(graph.resolve_node(5, None), b);
    assert_eq!(graph.resolve_node(77, Some("late name")), a);
    assert_eq!(graph.resolve_node(1000, None), c);
    assert_eq!(graph.num_nodes(), 3);
    assert_eq!(graph.node_id(5), Some(VID(1)));
    assert_eq!(graph.node_id(6), None);
    assert_eq!(graph.node(b).unwrap().global_id(), 5);
    assert_eq!(graph.node(b).unwrap().name().map(|s| s.as_str()), Some("five"));
    assert_eq!(graph.node(a).unwrap().name().map(|s| s.as_str()), Some("late name"));
    assert_eq!(graph.node(b).unwrap().vid(), b);
}

#[test]
fn dense_ids_survive_interleaved_additions() {
    let mut graph = InternalGraph::new();
    let v9 = graph.add_node(1, 9, None, no_props(), None).unwrap();
    graph.add_edge(2, 3, 9, no_props(), None).unwrap();
    graph.add_edge(3, 9, 4, no_props(), Some("calls")).unwrap();
    graph.add_node(4, 4, Some("four"), no_props(), Some("person")).unwrap();
    assert_eq!(graph.add_node(5, 9, None, no_props(), None).unwrap(), v9);
    assert_eq!(graph.resolve_node(9, None), v9);
    assert_eq!(graph.node_id(3), Some(VID(1)));
    assert_eq!(graph.node_id(4), Some(VID(2)));
    assert_eq!(graph.num_nodes(), 3);
}

#[test]
fn event_ids_count_up() {
    let mut graph = InternalGraph::new();
    assert_eq!(graph.next_event_id(), 0);
    assert_eq!(graph.next_event_id(), 1);
    graph.add_node(1, 1, None, no_props(), None).unwrap();
    assert_eq!(graph.next_event_id(), 3);
}

#[test]
fn layers_are_resolved_once() {
    let mut graph = InternalGraph::new();
    assert_eq!(graph.resolve_layer(None), 0);
    assert_eq!(graph.resolve_layer(Some("calls")), 1);
    assert_eq!(graph.resolve_layer(Some("transfers")), 2);
    assert_eq!(graph.resolve_layer(Some("calls")), 1);
    assert_eq!(graph.resolve_layer(Some("_default")), 0);
    assert_eq!(graph.edge_meta().num_layers(), 3);
    assert_eq!(
        graph.edge_meta().get_layer_name_by_id(2).map(|s| s.as_str()),
        Some("transfers")
    );
}

#[test]
fn property_names_keep_their_declared_kind() {
    let mut graph = InternalGraph::new();
    assert_eq!(graph.resolve_node_property("weight", PropType::I64, false), Ok(0));
    assert_eq!(graph.resolve_node_property("colour", PropType::Str, false), Ok(1));
    assert_eq!(graph.resolve_node_property("weight", PropType::I64, false), Ok(0));
    // constants are numbered apart
    assert_eq!(graph.resolve_node_property("weight", PropType::Str, true), Ok(0));
    // edges have registries of their own
    assert_eq!(graph.resolve_edge_property("colour", PropType::Bool, false), Ok(0));
    assert_eq!(
        graph.resolve_node_property("weight", PropType::Str, false),
        Err(GraphError::PropertyTypeError {
            name: "weight".to_string(),
            expected: PropType::I64,
            actual: PropType::Str
        })
    );
    assert_eq!(graph.resolve_graph_property("version", true), 0);
    assert_eq!(graph.resolve_graph_property("version", false), 0);
    assert_eq!(graph.resolve_graph_property("author", true), 1);
}

#[test]
fn node_types_are_assigned_once() {
    let mut graph = InternalGraph::new();
    let v = graph.resolve_node(1, None);
    assert_eq!(graph.resolve_node_type(v, None), Ok(0));
    assert_eq!(graph.resolve_node_type(v, Some("person")), Ok(1));
    assert_eq!(graph.resolve_node_type(v, Some("company")), Ok(1));
    assert_eq!(graph.resolve_node_type(v, None), Ok(1));
    assert_eq!(graph.node_meta().get_node_type_id("company"), Some(2));
}

#[test]
fn add_node_records_time_type_and_properties() {
    let mut graph = InternalGraph::new();
    let v = graph
        .add_node(
            3,
            11,
            Some("Gandalf"),
            vec![
                ("type".to_string(), Prop::str("Character")),
                ("age".to_string(), Prop::U32(2019)),
            ],
            Some("wizard"),
        )
        .unwrap();
    graph
        .add_node(1, 11, None, vec![("age".to_string(), Prop::U32(2017))], None)
        .unwrap();
    let node = graph.node(v).unwrap();
    assert_eq!(node.timestamps().iter(), vec![1, 3]);
    assert_eq!(node.node_type(), 1);
    assert_eq!(node.name().map(|s| s.as_str()), Some("Gandalf"));
    assert_eq!(
        node.temporal_properties(1, None),
        vec![(1, Prop::U32(2017)), (3, Prop::U32(2019))]
    );
    assert_eq!(
        node.temporal_properties(0, None),
        vec![(3, Prop::str("Character"))]
    );
    let refused = graph.add_node(5, 11, None, vec![("age".to_string(), Prop::str("old"))], None);
    assert_eq!(
        refused,
        Err(GraphError::PropertyTypeError {
            name: "age".to_string(),
            expected: PropType::U32,
            actual: PropType::Str
        })
    );
    assert_eq!(graph.node(v).unwrap().timestamps().iter(), vec![1, 3]);
}

#[test]
fn add_edge_links_both_ends_with_one_id() {
    let mut graph = InternalGraph::new();
    let e = graph
        .add_edge(3, 10, 20, vec![("weight".to_string(), Prop::I64(5))], None)
        .unwrap();
    assert_eq!(e, EID(0));
    let src = graph.node_id(10).unwrap();
    let dst = graph.node_id(20).unwrap();
    assert_eq!(
        graph.edges(src, Direction::OUT, &LayerIds::All),
        vec![EdgeRef::new_outgoing(e, src, dst)]
    );
    assert_eq!(
        graph.edges(dst, Direction::IN, &LayerIds::All),
        vec![EdgeRef::new_incoming(e, src, dst)]
    );
    assert_eq!(graph.edges(dst, Direction::OUT, &LayerIds::All), vec![]);
    let record = graph.edge(e).unwrap();
    assert_eq!((record.src(), record.dst(), record.eid()), (src, dst, e));
    assert_eq!(record.additions(0), vec![3]);
    assert_eq!(record.temporal_properties(0, 0, None), vec![(3, Prop::I64(5))]);
    assert_eq!(graph.node(src).unwrap().timestamps().iter(), vec![3]);
    assert_eq!(graph.node(dst).unwrap().timestamps().iter(), vec![3]);
}

#[test]
fn an_edge_keeps_its_id_across_layers_and_times() {
    let mut graph = InternalGraph::new();
    let e1 = graph.add_edge(1, 1, 2, no_props(), None).unwrap();
    let e2 = graph.add_edge(2, 2, 1, no_props(), None).unwrap();
    let e3 = graph.add_edge(3, 1, 2, no_props(), Some("calls")).unwrap();
    let e4 = graph.add_edge(4, 1, 2, no_props(), None).unwrap();
    let e5 = graph.add_edge(5, 1, 1, no_props(), Some("calls")).unwrap();
    assert_eq!((e1, e2, e3, e4, e5), (EID(0), EID(1), EID(0), EID(0), EID(2)));
    assert_eq!(graph.num_edges(), 3);
    let record = graph.edge(e1).unwrap();
    assert_eq!(record.additions(0), vec![1, 4]);
    assert_eq!(record.additions(1), vec![3]);
    assert_eq!(record.times(&LayerIds::All), vec![1, 3, 4]);
    assert_eq!(record.latest_time(&LayerIds::All), Some(4));
    assert_eq!(record.earliest_time(&LayerIds::One(1)), Some(3));
    assert_eq!(record.earliest_time(&LayerIds::One(5)), None);
    assert!(record.has_layer(&LayerIds::One(1)));
    assert!(!record.has_layer(&LayerIds::One(2)));
    let v1 = graph.node_id(1).unwrap();
    let v2 = graph.node_id(2).unwrap();
    // the same edge in two layers comes once
    assert_eq!(
        graph.edges(v1, Direction::OUT, &LayerIds::All),
        vec![
            EdgeRef::new_outgoing(e5, v1, v1),
            EdgeRef::new_outgoing(e1, v1, v2),
        ]
    );
    assert_eq!(graph.degree(v1, Direction::OUT, &LayerIds::All), 2);
    assert_eq!(graph.degree(v1, Direction::BOTH, &LayerIds::All), 2);
    assert_eq!(graph.neighbours(v1, Direction::BOTH, &LayerIds::All), vec![v1, v2]);
    assert_eq!(graph.degree(VID(9), Direction::BOTH, &LayerIds::All), 0);
    assert_eq!(graph.edges(VID(9), Direction::BOTH, &LayerIds::All), vec![]);
}

#[test]
fn every_out_entry_has_its_in_entry() {
    let mut graph = InternalGraph::new();
    let adds = [
        (1, 1u64, 2u64, None),
        (2, 3, 1, Some("a")),
        (3, 1, 2, Some("a")),
        (4, 2, 3, Some("b")),
        (5, 3, 3, None),
        (6, 4, 1, Some("b")),
        (7, 1, 4, Some("b")),
    ];
    for (t, s, d, l) in adds {
        graph.add_edge(t, s, d, no_props(), l).unwrap();
    }
    for v in 0..graph.num_nodes() {
        let node = graph.node(VID(v)).unwrap();
        for l in 0..node.num_layers() {
            for e in node.edge_tuples(&LayerIds::One(l), Direction::OUT) {
                assert_eq!(e.src(), VID(v));
                let record = graph.edge(e.pid()).unwrap();
                assert_eq!((record.src(), record.dst()), (e.src(), e.dst()));
                let mut holders = vec![];
                for u in 0..graph.num_nodes() {
                    let other = graph.node(VID(u)).unwrap();
                    if other
                        .edge_tuples(&LayerIds::One(l), Direction::IN)
                        .iter()
                        .any(|i| i.pid() == e.pid())
                    {
                        holders.push(VID(u));
                    }
                }
                assert_eq!(holders, vec![e.dst()]);
            }
        }
    }
}

#[test]
fn refused_edge_property_leaves_the_ends_unlinked() {
    let mut graph = InternalGraph::new();
    graph
        .add_edge(1, 1, 2, vec![("w".to_string(), Prop::I64(1))], None)
        .unwrap();
    let refused = graph.add_edge(2, 1, 3, vec![("w".to_string(), Prop::Bool(true))], None);
    assert_eq!(
        refused,
        Err(GraphError::PropertyTypeError {
            name: "w".to_string(),
            expected: PropType::I64,
            actual: PropType::Bool
        })
    );
    assert_eq!(graph.num_edges(), 1);
    let v1 = graph.node_id(1).unwrap();
    assert_eq!(graph.degree(v1, Direction::OUT, &LayerIds::All), 1);
    // the ids were resolved before the properties were
    assert_eq!(graph.node_id(3), Some(VID(2)));
}

#[test]
fn internal_add_edge_refuses_a_value_of_another_kind_than_the_history() {
    let mut graph = InternalGraph::new();
    let a = graph.resolve_node(1, None);
    let b = graph.resolve_node(2, None);
    let e = graph
        .internal_add_edge(TimeIndexEntry::start(1), a, b, vec![(0, Prop::I64(1))], 0)
        .unwrap();
    let r = graph.internal_add_edge(
        TimeIndexEntry::start(2),
        a,
        b,
        vec![(1, Prop::U8(1)), (0, Prop::Bool(true)), (2, Prop::U8(2))],
        0,
    );
    assert_eq!(r, Err(GraphError::IncorrectPropertyType));
    let record = graph.edge(e).unwrap();
    assert_eq!(record.additions(0), vec![1, 2]);
    assert_eq!(record.temporal_properties(0, 1, None), vec![(2, Prop::U8(1))]);
    assert_eq!(record.temporal_properties(0, 2, None), vec![]);
    let r = graph.internal_add_node(
        TimeIndexEntry::start(3),
        a,
        vec![(0, Prop::U8(1)), (0, Prop::I32(2))],
        0,
    );
    assert_eq!(r, Err(GraphError::IncorrectPropertyType));
    assert_eq!(graph.node(a).unwrap().temporal_properties(0, None), vec![(3, Prop::U8(1))]);
}

#[test]
fn layers_by_name() {
    let mut graph = InternalGraph::new();
    graph.add_edge(1, 1, 2, no_props(), Some("a")).unwrap();
    graph.add_edge(1, 1, 2, no_props(), Some("b")).unwrap();
    assert_eq!(graph.layer_ids(), LayerIds::All);
    assert_eq!(graph.layer_ids_from_names(Layer::All), Ok(LayerIds::All));
    assert_eq!(graph.layer_ids_from_names(Layer::Default), Ok(LayerIds::One(0)));
    assert_eq!(
        graph.layer_ids_from_names(Layer::One("b".to_string())),
        Ok(LayerIds::One(2))
    );
    assert_eq!(
        graph.layer_ids_from_names(Layer::One("c".to_string())),
        Err(GraphError::InvalidLayer("c".to_string()))
    );
    assert_eq!(
        graph.layer_ids_from_names(Layer::Multiple(vec!["b".to_string(), "a".to_string()])),
        Ok(LayerIds::Multiple(vec![2, 1]))
    );
    assert_eq!(
        graph.layer_ids_from_names(Layer::Multiple(vec!["b".to_string()])),
        Ok(LayerIds::One(2))
    );
    assert_eq!(
        graph.layer_ids_from_names(Layer::Multiple(vec![])),
        Ok(LayerIds::Empty)
    );
    assert_eq!(
        graph.layer_ids_from_names(Layer::Multiple(vec![
            "b".to_string(),
            "x".to_string(),
            "y".to_string()
        ])),
        Err(GraphError::InvalidLayer("x".to_string()))
    );
    assert_eq!(
        graph.valid_layer_ids_from_names(Layer::Multiple(vec![
            "b".to_string(),
            "x".to_string(),
            "a".to_string()
        ])),
        LayerIds::Multiple(vec![2, 1])
    );
    assert_eq!(
        graph.valid_layer_ids_from_names(Layer::One("x".to_string())),
        LayerIds::Empty
    );
    assert_eq!(
        graph.valid_layer_ids_from_names(Layer::Multiple(vec!["x".to_string()])),
        LayerIds::Empty
    );
    assert_eq!(graph.valid_layer_ids_from_names(Layer::All), LayerIds::All);
    assert!(LayerIds::Multiple(vec![2, 1]).contains(1));
    assert!(!LayerIds::Multiple(vec![2, 1]).contains(0));
    assert!(LayerIds::All.contains(5));
    assert!(!LayerIds::Empty.contains(0));
}

#[test]
fn windowed_reads_see_only_edges_added_in_the_window() {
    let graph = triangle_graph();
    let v = |id: u64| graph.node_id(id).unwrap();
    let all = LayerIds::All;
    assert_eq!(
        graph.neighbours_window(v(1), Direction::OUT, &all, 0..7),
        vec![v(2), v(3), v(4)]
    );
    assert_eq!(graph.degree_window(v(1), Direction::OUT, &all, 0..7), 3);
    assert_eq!(
        graph.neighbours_window(v(1), Direction::OUT, &all, 2..5),
        vec![v(3)]
    );
    assert_eq!(
        graph.neighbours_window(v(1), Direction::BOTH, &all, 3..6),
        vec![v(2), v(4)]
    );
    assert_eq!(
        graph.neighbours_window(v(1), Direction::IN, &all, 0..3),
        vec![]
    );
    assert_eq!(graph.degree_window(VID(99), Direction::BOTH, &all, 0..7), 0);
    assert!(graph.has_edge_window(v(3), v(2), &all, 4..5));
    assert!(!graph.has_edge_window(v(3), v(2), &all, 0..4));
    assert!(!graph.has_edge_window(v(2), v(3), &all, 0..7));
    assert!(graph.has_edge(v(1), v(2), &all));
    assert!(!graph.has_edge(v(2), v(4), &all));
    assert!(!graph.has_edge(v(1), v(2), &LayerIds::One(1)));
}

#[test]
fn clusters_of_triangles() {
    let graph = triangle_graph();
    let expected = vec![0.33333334, 1.0, 1.0, 0.0, 0.0];
    let actual = (1..=5u64)
        .map(|id| {
            let v = graph.node_id(id).unwrap();
            let (triangles, degree) = graph.local_triangle_count(v, &LayerIds::All, 0..7).unwrap();
            let triangle_count = triangles as f32;
            let degree = degree as f32;
            if degree > 1.0 {
                (2.0 * triangle_count) / (degree * (degree - 1.0))
            } else {
                0.0
            }
        })
        .collect::<Vec<f32>>();
    assert_eq!(actual, expected);
}

#[test]
fn triangle_count_of_a_missing_node_is_none() {
    let graph = triangle_graph();
    assert_eq!(graph.local_triangle_count(VID(50), &LayerIds::All, 0..7), None);
    let v1 = graph.node_id(1).unwrap();
    assert_eq!(graph.local_triangle_count(v1, &LayerIds::All, 0..7), Some((1, 3)));
    // without the edge 3 -> 2 there is no triangle
    assert_eq!(graph.local_triangle_count(v1, &LayerIds::All, 0..4), Some((0, 2)));
    let everyone: Vec<VID> = (0..graph.num_nodes()).map(VID).collect();
    assert_eq!(graph.joined_pairs_among(&everyone, &LayerIds::All, 0..7), 5);
}

#[test]
fn what_one_edge_tells() {
    let mut graph = InternalGraph::new();
    graph.add_edge(2, 1, 2, no_props(), None).unwrap();
    graph.add_edge(5, 1, 2, no_props(), Some("calls")).unwrap();
    graph.add_edge(9, 1, 2, no_props(), None).unwrap();
    let v1 = graph.node_id(1).unwrap();
    let v2 = graph.node_id(2).unwrap();
    let e = graph.edge_ref(v1, v2, &LayerIds::All).unwrap();
    assert_eq!(graph.edge_ref(v2, v1, &LayerIds::All), None);
    assert_eq!(graph.edge_history(&e), vec![2, 5, 9]);
    assert_eq!(graph.edge_history(&e.at_layer(1)), vec![5]);
    assert_eq!(graph.edge_earliest_time(&e), Some(2));
    assert_eq!(graph.edge_latest_time(&e), Some(9));
    assert_eq!(graph.edge_latest_time(&e.at_layer(1)), Some(5));
    assert_eq!(graph.edge_latest_time(&e.at_layer(4)), None);
    // not pinned to an update: active at the times of its additions
    assert!(graph.edge_active(&e, 5));
    assert!(!graph.edge_active(&e, 6));
    assert!(!graph.edge_active(&e, i64::MAX));
    assert!(!graph.edge_active(&e.at_layer(1), 2));
    // pinned to an update: active from then to the last addition
    let pinned = e.at(TimeIndexEntry::start(5));
    assert!(!graph.edge_active(&pinned, 4));
    assert!(graph.edge_active(&pinned, 5));
    assert!(graph.edge_active(&pinned, 9));
    assert!(!graph.edge_active(&pinned, 10));
    assert_eq!(graph.edge_layer_name(&e), "default layer");
    assert_eq!(graph.edge_layer_name(&e.at_layer(0)), "default layer");
    assert_eq!(graph.edge_layer_name(&e.at_layer(1)), "calls");
    assert_eq!(graph.edge_layer_name(&e.at_layer(7)), "default layer");
    assert!(graph.edge_active_in(e.pid(), &LayerIds::One(1), 5..6));
    assert!(!graph.edge_active_in(EID(4), &LayerIds::All, 0..10));
    assert_eq!(graph.process_prop_value(Prop::str("s")), Prop::str("s"));
}

#[test]
fn edge_record_by_hand() {
    let mut record = EdgeStore::new(EID(3), VID(1), VID(2));
    assert_eq!(record.num_layers(), 0);
    record.update_time(2, TimeIndexEntry::start(7));
    assert_eq!(record.num_layers(), 3);
    assert_eq!(record.additions(2), vec![7]);
    assert_eq!(record.additions(0), vec![]);
    assert_eq!(record.additions(5), vec![]);
    record.add_prop(TimeIndexEntry::start(7), 1, 0, Prop::Bool(true)).unwrap();
    assert_eq!(
        record.add_prop(TimeIndexEntry::start(8), 1, 0, Prop::U8(1)),
        Err(GraphError::IncorrectPropertyType)
    );
    record.add_constant_prop(0, 1, Prop::U8(1)).unwrap();
    assert_eq!(record.add_constant_prop(0, 1, Prop::U8(2)).unwrap_err().index, 1);
    record.update_constant_prop(0, 1, Prop::U8(3)).unwrap();
    assert_eq!(record.const_prop(0, 1), Some(&Prop::U8(3)));
    assert_eq!(record.const_prop(1, 1), None);
    assert_eq!(record.const_prop(9, 1), None);
    assert!(record.active(&LayerIds::All, 7..8));
    assert!(!record.active(&LayerIds::One(1), 7..8));
    assert!(!record.active(&LayerIds::All, 8..20));
    assert_eq!(
        record.temporal_properties(1, 0, Some(0..8)),
        vec![(7, Prop::Bool(true))]
    );
}

#[test]
fn registries_by_hand() {
    let mut names = DictMapper::new();
    assert_eq!(names.get_or_create_id("a"), 0);
    assert_eq!(names.get_or_create_id("b"), 1);
    assert_eq!(names.get_or_create_id("a"), 0);
    assert_eq!(names.get_id("b"), Some(1));
    assert_eq!(names.get_id("c"), None);
    assert_eq!(names.get_name(1).map(|s| s.as_str()), Some("b"));
    assert_eq!(names.get_name(2), None);
    assert_eq!(names.len(), 2);

    let mut meta = Meta::new();
    assert_eq!(meta.get_layer_id("_default"), Some(0));
    assert_eq!(meta.get_node_type_id("_default"), Some(0));
    assert_eq!(meta.resolve_prop_id("p", PropType::Bool, true), Ok(0));
    assert_eq!(meta.get_prop_id("p", true), Some(0));
    assert_eq!(meta.get_prop_id("p", false), None);
    assert_eq!(meta.get_prop_name(0, true).map(|s| s.as_str()), Some("p"));
    assert_eq!(meta.get_prop_dtype(0, true), Some(PropType::Bool));
    assert_eq!(meta.get_prop_dtype(0, false), None);
    assert_eq!(
        meta.get_node_type_name_by_id(0).map(|s| s.as_str()),
        Some("_default")
    );
}

#[test]
fn add_property_reports_each_refusal() {
    let mut graph = InternalGraph::new();
    let e = graph.add_edge(1, 1, 2, no_props(), Some("calls")).unwrap();
    let v = graph.node_id(1).unwrap();
    // constants are written once
    assert_eq!(
        graph.add_property(EntityRef::Node(v), 0, "kind", Prop::str("a"), true),
        Ok(())
    );
    assert_eq!(
        graph.add_property(EntityRef::Node(v), 0, "kind", Prop::str("b"), true),
        Err(GraphError::ConstantPropertyMutationError { prop_id: 0 })
    );
    assert_eq!(graph.node(v).unwrap().const_prop(0), Some(&Prop::str("a")));
    // a name keeps its declared kind
    assert_eq!(
        graph.add_property(EntityRef::Node(v), 0, "kind", Prop::U8(1), true),
        Err(GraphError::PropertyTypeError {
            name: "kind".to_string(),
            expected: PropType::Str,
            actual: PropType::U8
        })
    );
    // temporal values
    assert_eq!(
        graph.add_property(EntityRef::Node(v), 7, "score", Prop::I64(70), false),
        Ok(())
    );
    assert_eq!(
        graph.add_property(EntityRef::Node(v), 3, "score", Prop::I64(30), false),
        Ok(())
    );
    assert_eq!(
        graph.node(v).unwrap().temporal_properties(0, None),
        vec![(3, Prop::I64(30)), (7, Prop::I64(70))]
    );
    // edges, by layer
    assert_eq!(
        graph.add_property(EntityRef::Edge(e, 1), 4, "weight", Prop::U32(4), false),
        Ok(())
    );
    assert_eq!(
        graph.add_property(EntityRef::Edge(e, 1), 0, "label", Prop::str("x"), true),
        Ok(())
    );
    assert_eq!(
        graph.add_property(EntityRef::Edge(e, 1), 0, "label", Prop::str("y"), true),
        Err(GraphError::ConstantPropertyMutationError { prop_id: 0 })
    );
    assert_eq!(
        graph.edge(e).unwrap().temporal_properties(1, 0, None),
        vec![(4, Prop::U32(4))]
    );
    assert_eq!(graph.edge(e).unwrap().temporal_properties(0, 0, None), vec![]);
    // entities that do not exist
    assert_eq!(
        graph.add_property(EntityRef::Node(VID(9)), 0, "kind", Prop::str("a"), true),
        Err(GraphError::InvalidIdentifier)
    );
    assert_eq!(
        graph.add_property(EntityRef::Edge(EID(9), 0), 0, "weight", Prop::U32(1), false),
        Err(GraphError::InvalidIdentifier)
    );
    // a history keeps its kind even if the registry is passed by
    assert_eq!(
        graph.add_node_prop(v, TimeIndexEntry::start(9), 0, Prop::Bool(true)),
        Err(GraphError::IncorrectPropertyType)
    );
    assert_eq!(
        graph.add_edge_prop(e, 1, TimeIndexEntry::start(9), 0, Prop::Bool(true)),
        Err(GraphError::IncorrectPropertyType)
    );
    assert_eq!(
        graph.add_node_constant_prop(VID(5), 0, Prop::Bool(true)),
        Err(GraphError::InvalidIdentifier)
    );
    assert_eq!(
        graph.add_edge_constant_prop(EID(5), 0, 0, Prop::Bool(true)),
        Err(GraphError::InvalidIdentifier)
    );
}

#[test]
fn strict_property_lookups() {
    let mut graph = InternalGraph::new();
    graph
        .add_node(1, 1, None, vec![("age".to_string(), Prop::U8(1))], None)
        .unwrap();
    assert_eq!(graph.node_property_id("age", false), Ok(0));
    assert_eq!(
        graph.node_property_id("age", true),
        Err(GraphError::PropertyMissingError("age".to_string()))
    );
    assert_eq!(
        graph.edge_property_id("age", false),
        Err(GraphError::PropertyMissingError("age".to_string()))
    );
}
