use raphtory::adj::{Adj, AdjSet};
use raphtory::entities::{Dir, Direction, EdgeRef, LayerIds, EID, VID};
use raphtory::errors::GraphError;
use raphtory::locked::ArcEntry;
use raphtory::merging::{merge_two_unique, merge_unique};
use raphtory::node_store::NodeStore;
use raphtory::prop::Prop;
use raphtory::timeindex::TimeIndexEntry;
use std::sync::Arc;

fn node_with_layers() -> NodeStore {
    // node 10 (dense id 0 until set) with edges in three layers
    let mut node = NodeStore::new(10, TimeIndexEntry::start(1));
    node.set_vid(VID(7));
    node.add_edge(VID(5), Direction::OUT, 0, EID(50));
    node.add_edge(VID(2), Direction::OUT, 0, EID(20));
    node.add_edge(VID(9), Direction::OUT, 0, EID(90));
    node.add_edge(VID(2), Direction::OUT, 1, EID(20));
    node.add_edge(VID(3), Direction::OUT, 1, EID(30));
    node.add_edge(VID(2), Direction::IN, 0, EID(21));
    node.add_edge(VID(4), Direction::IN, 2, EID(41));
    node.add_edge(VID(7), Direction::OUT, 2, EID(77));
    node.add_edge(VID(7), Direction::IN, 2, EID(77));
    node
}

fn vids(v: &[usize]) -> Vec<VID> {
    v.iter().map(|x| VID(*x)).collect()
}

#[test]
fn new_node_has_one_empty_layer_and_its_time() {
    let node = NodeStore::new(42, TimeIndexEntry::new(3, 8));
    assert_eq!(node.global_id(), 42);
    assert_eq!(node.vid(), VID(0));
    assert_eq!(node.timestamps().iter(), vec![3]);
    assert_eq!(node.num_layers(), 1);
    assert_eq!(node.degree(&LayerIds::All, Direction::BOTH), 0);
    assert_eq!(node.node_type(), 0);
    assert!(node.name().is_none());
}

#[test]
fn empty_node_has_no_time() {
    let node = NodeStore::empty(42, Some("forty-two".to_string()));
    assert_eq!(node.global_id(), 42);
    assert!(node.timestamps().is_empty());
    assert_eq!(node.name().map(|s| s.as_str()), Some("forty-two"));
}

#[test]
fn update_time_inserts_in_order_without_repeats() {
    let mut node = NodeStore::new(1, TimeIndexEntry::start(5));
    node.update_time(TimeIndexEntry::start(2));
    node.update_time(TimeIndexEntry::start(9));
    node.update_time(TimeIndexEntry::new(5, 3));
    node.update_time(TimeIndexEntry::start(2));
    assert_eq!(node.timestamps().iter(), vec![2, 5, 9]);
    assert_eq!(node.timestamps().first(), Some(2));
    assert_eq!(node.timestamps().last(), Some(9));
    assert!(node.timestamps().contains(5));
    assert!(!node.timestamps().contains(6));
    assert_eq!(node.timestamps().range(2..9), vec![2, 5]);
    assert_eq!(node.timestamps().range(3..4), Vec::<i64>::new());
    assert_eq!(node.timestamps().range(9..2), Vec::<i64>::new());
    assert!(node.timestamps().active(5..6));
    assert!(!node.timestamps().active(6..9));
}

#[test]
fn first_name_and_first_type_stay() {
    let mut node = NodeStore::new(1, TimeIndexEntry::start(5));
    node.update_name("a");
    node.update_name("b");
    assert_eq!(node.name().map(|s| s.as_str()), Some("a"));
    assert_eq!(node.update_node_type(3), 3);
    assert_eq!(node.update_node_type(4), 3);
    assert_eq!(node.node_type(), 3);
}

#[test]
fn add_edge_grows_layers_with_empty_ones() {
    let mut node = NodeStore::new(1, TimeIndexEntry::start(5));
    node.add_edge(VID(3), Direction::OUT, 4, EID(0));
    assert_eq!(node.num_layers(), 5);
    for l in 0..4 {
        assert_eq!(node.degree(&LayerIds::One(l), Direction::BOTH), 0);
    }
    assert_eq!(node.degree(&LayerIds::One(4), Direction::OUT), 1);
    // BOTH only makes room
    node.add_edge(VID(3), Direction::BOTH, 6, EID(1));
    assert_eq!(node.num_layers(), 7);
    assert_eq!(node.degree(&LayerIds::One(6), Direction::BOTH), 0);
}

#[test]
fn a_neighbour_keeps_its_first_edge_in_a_layer() {
    let mut node = NodeStore::new(1, TimeIndexEntry::start(5));
    node.add_edge(VID(3), Direction::OUT, 0, EID(8));
    node.add_edge(VID(3), Direction::OUT, 0, EID(9));
    assert_eq!(node.find_edge_eid(VID(3), &LayerIds::All), Some(EID(8)));
    assert_eq!(node.degree(&LayerIds::All, Direction::OUT), 1);
}

#[test]
fn find_edge_eid_takes_the_first_selected_layer_that_has_it() {
    let mut node = NodeStore::new(1, TimeIndexEntry::start(5));
    node.add_edge(VID(3), Direction::OUT, 1, EID(11));
    node.add_edge(VID(3), Direction::OUT, 2, EID(12));
    node.add_edge(VID(4), Direction::IN, 0, EID(13));
    assert_eq!(node.find_edge_eid(VID(3), &LayerIds::All), Some(EID(11)));
    assert_eq!(node.find_edge_eid(VID(3), &LayerIds::One(2)), Some(EID(12)));
    assert_eq!(node.find_edge_eid(VID(3), &LayerIds::One(0)), None);
    assert_eq!(node.find_edge_eid(VID(3), &LayerIds::One(7)), None);
    assert_eq!(
        node.find_edge_eid(VID(3), &LayerIds::Multiple(vec![9, 2, 1])),
        Some(EID(12))
    );
    assert_eq!(node.find_edge_eid(VID(3), &LayerIds::Multiple(vec![0, 5])), None);
    assert_eq!(node.find_edge_eid(VID(3), &LayerIds::Empty), None);
    // only outgoing edges are found
    assert_eq!(node.find_edge_eid(VID(4), &LayerIds::All), None);
}

#[test]
fn neighbours_over_all_layers_come_once_in_ascending_order() {
    let node = node_with_layers();
    assert_eq!(
        node.neighbours(&LayerIds::All, Direction::OUT),
        vids(&[2, 3, 5, 7, 9])
    );
    assert_eq!(
        node.neighbours(&LayerIds::All, Direction::IN),
        vids(&[2, 4, 7])
    );
    assert_eq!(
        node.neighbours(&LayerIds::All, Direction::BOTH),
        vids(&[2, 3, 4, 5, 7, 9])
    );
    assert_eq!(
        node.neighbours(&LayerIds::One(0), Direction::BOTH),
        vids(&[2, 5, 9])
    );
    assert_eq!(
        node.neighbours(&LayerIds::One(5), Direction::BOTH),
        vids(&[])
    );
    assert_eq!(
        node.neighbours(&LayerIds::Multiple(vec![1, 2, 8, 1]), Direction::OUT),
        vids(&[2, 3, 7])
    );
    assert_eq!(node.neighbours(&LayerIds::Empty, Direction::BOTH), vids(&[]));
}

#[test]
fn degree_counts_a_neighbour_once() {
    let node = node_with_layers();
    assert_eq!(node.degree(&LayerIds::All, Direction::OUT), 5);
    assert_eq!(node.degree(&LayerIds::All, Direction::IN), 3);
    assert_eq!(node.degree(&LayerIds::All, Direction::BOTH), 6);
    assert_eq!(node.degree(&LayerIds::One(0), Direction::OUT), 3);
    assert_eq!(node.degree(&LayerIds::One(0), Direction::IN), 1);
    // neighbour 2 is there both ways in layer 0
    assert_eq!(node.degree(&LayerIds::One(0), Direction::BOTH), 3);
    assert_eq!(node.degree(&LayerIds::One(9), Direction::BOTH), 0);
    assert_eq!(node.degree(&LayerIds::Empty, Direction::BOTH), 0);
    assert_eq!(
        node.degree(&LayerIds::Multiple(vec![0, 1]), Direction::OUT),
        4
    );
}

#[test]
fn same_neighbour_in_two_layers_is_reported_once() {
    let mut node = NodeStore::new(1, TimeIndexEntry::start(0));
    node.add_edge(VID(2), Direction::OUT, 0, EID(0));
    node.add_edge(VID(2), Direction::OUT, 1, EID(0));
    node.add_edge(VID(2), Direction::IN, 1, EID(1));
    assert_eq!(node.neighbours(&LayerIds::All, Direction::OUT), vids(&[2]));
    assert_eq!(node.neighbours(&LayerIds::All, Direction::BOTH), vids(&[2]));
    assert_eq!(node.degree(&LayerIds::All, Direction::BOTH), 1);
    assert_eq!(node.degree(&LayerIds::One(1), Direction::BOTH), 1);
}

#[test]
fn edge_tuples_of_one_direction_are_merged_by_remote_and_deduplicated() {
    let node = node_with_layers();
    let me = VID(7);
    assert_eq!(
        node.edge_tuples(&LayerIds::All, Direction::OUT),
        vec![
            EdgeRef::new_outgoing(EID(20), me, VID(2)),
            EdgeRef::new_outgoing(EID(30), me, VID(3)),
            EdgeRef::new_outgoing(EID(50), me, VID(5)),
            EdgeRef::new_outgoing(EID(77), me, VID(7)),
            EdgeRef::new_outgoing(EID(90), me, VID(9)),
        ]
    );
    assert_eq!(
        node.edge_tuples(&LayerIds::All, Direction::IN),
        vec![
            EdgeRef::new_incoming(EID(21), VID(2), me),
            EdgeRef::new_incoming(EID(41), VID(4), me),
            EdgeRef::new_incoming(EID(77), VID(7), me),
        ]
    );
    assert_eq!(
        node.edge_tuples(&LayerIds::One(1), Direction::OUT),
        vec![
            EdgeRef::new_outgoing(EID(20), me, VID(2)),
            EdgeRef::new_outgoing(EID(30), me, VID(3)),
        ]
    );
    assert_eq!(node.edge_tuples(&LayerIds::One(3), Direction::OUT), vec![]);
    assert_eq!(node.edge_tuples(&LayerIds::Empty, Direction::OUT), vec![]);
}

#[test]
fn edge_tuples_both_takes_incoming_first_on_a_tie_and_self_loops_once() {
    let node = node_with_layers();
    let me = VID(7);
    assert_eq!(
        node.edge_tuples(&LayerIds::All, Direction::BOTH),
        vec![
            EdgeRef::new_incoming(EID(21), VID(2), me),
            EdgeRef::new_outgoing(EID(20), me, VID(2)),
            EdgeRef::new_outgoing(EID(30), me, VID(3)),
            EdgeRef::new_incoming(EID(41), VID(4), me),
            EdgeRef::new_outgoing(EID(50), me, VID(5)),
            EdgeRef::new_incoming(EID(77), VID(7), me),
            EdgeRef::new_outgoing(EID(90), me, VID(9)),
        ]
    );
}

#[test]
fn edges_with_the_same_remote_and_other_ids_all_come_out() {
    let mut node = NodeStore::new(1, TimeIndexEntry::start(0));
    node.add_edge(VID(2), Direction::OUT, 0, EID(5));
    node.add_edge(VID(2), Direction::OUT, 1, EID(6));
    node.add_edge(VID(1), Direction::OUT, 1, EID(7));
    let got = node.edge_tuples(&LayerIds::All, Direction::OUT);
    assert_eq!(got.len(), 3);
    assert_eq!(got[0], EdgeRef::new_outgoing(EID(7), VID(0), VID(1)));
    let mut ids: Vec<usize> = got[1..].iter().map(|e| e.pid().0).collect();
    ids.sort();
    assert_eq!(ids, vec![5, 6]);
    assert!(got[1..].iter().all(|e| e.remote() == VID(2)));
}

#[test]
fn edge_ref_knows_its_ends() {
    let out = EdgeRef::new_outgoing(EID(1), VID(2), VID(3));
    assert_eq!((out.src(), out.dst(), out.pid()), (VID(2), VID(3), EID(1)));
    assert_eq!((out.local(), out.remote(), out.dir()), (VID(2), VID(3), Dir::Out));
    let into = EdgeRef::new_incoming(EID(1), VID(2), VID(3));
    assert_eq!((into.local(), into.remote(), into.dir()), (VID(3), VID(2), Dir::Into));
    assert_eq!(out.time(), None);
    assert_eq!(out.at(TimeIndexEntry::new(4, 1)).time_t(), Some(4));
    assert_eq!(out.at_layer(2).layer(), Some(2));
    assert!(EdgeRef::remote_before(&into, &out));
    assert!(!EdgeRef::remote_before(&out, &out));
    assert!(EdgeRef::same(&out, &out));
    assert!(!EdgeRef::same(&out, &into));
}

#[test]
fn iter_adj_hands_out_nothing_for_both() {
    let node = node_with_layers();
    let layer = node.layer(0).unwrap();
    assert_eq!(node.iter_adj(layer, Direction::BOTH, VID(7)), vec![]);
    assert_eq!(
        node.iter_adj(layer, Direction::IN, VID(7)),
        vec![EdgeRef::new_incoming(EID(21), VID(2), VID(7))]
    );
    assert_eq!(
        node.neighbours_from_adj(layer, Direction::BOTH),
        vids(&[2, 5, 9])
    );
    assert_eq!(node.merge_ids(&LayerIds::Multiple(vec![2, 9, 0, 2])), vec![2, 0, 2]);
    assert_eq!(node.merge_ids(&LayerIds::All), vec![0, 1, 2]);
}

#[test]
fn adjacency_is_sorted_whatever_the_order_of_additions() {
    let mut set = AdjSet::new();
    for v in [9usize, 1, 5, 3, 7, 5, 1] {
        set.push(VID(v), EID(v * 10));
    }
    assert_eq!(
        set.iter(),
        vec![
            (VID(1), EID(10)),
            (VID(3), EID(30)),
            (VID(5), EID(50)),
            (VID(7), EID(70)),
            (VID(9), EID(90))
        ]
    );
    assert_eq!(set.find(VID(5)), Some(EID(50)));
    assert_eq!(set.find(VID(4)), None);
    assert_eq!(set.len(), 5);
    assert_eq!(set.vertices(), vids(&[1, 3, 5, 7, 9]));
}

#[test]
fn adj_get_edge_prefers_outgoing_under_both() {
    let mut adj = Adj::new();
    assert_eq!(adj.get_edge(VID(1), Direction::BOTH), None);
    adj.add_edge_into(VID(1), EID(4));
    assert_eq!(adj.get_edge(VID(1), Direction::BOTH), Some(EID(4)));
    adj.add_edge_out(VID(1), EID(3));
    assert_eq!(adj.get_edge(VID(1), Direction::BOTH), Some(EID(3)));
    assert_eq!(adj.get_edge(VID(1), Direction::IN), Some(EID(4)));
    assert_eq!(adj.get_edge(VID(1), Direction::OUT), Some(EID(3)));
    assert_eq!(adj.degree(Direction::BOTH), 1);
    assert_eq!(adj.iter(Dir::Out), vec![(VID(1), EID(3))]);
}

#[test]
fn merges_keep_order_and_drop_repeats() {
    assert_eq!(
        merge_unique(vec![vids(&[1, 4, 9]), vids(&[]), vids(&[2, 4, 4, 10]), vids(&[0])]),
        vids(&[0, 1, 2, 4, 9, 10])
    );
    assert_eq!(merge_unique(vec![]), vids(&[]));
    assert_eq!(
        merge_two_unique(vids(&[1, 3, 3, 5]), vids(&[0, 3, 6])),
        vids(&[0, 1, 3, 5, 6])
    );
}

#[test]
fn node_properties_are_kept_by_kind() {
    let mut node = NodeStore::new(1, TimeIndexEntry::start(0));
    node.add_prop(TimeIndexEntry::start(3), 2, Prop::I64(30)).unwrap();
    node.add_prop(TimeIndexEntry::start(1), 2, Prop::I64(10)).unwrap();
    node.add_prop(TimeIndexEntry::start(1), 2, Prop::I64(11)).unwrap();
    assert_eq!(
        node.add_prop(TimeIndexEntry::start(4), 2, Prop::Bool(true)),
        Err(GraphError::IncorrectPropertyType)
    );
    assert_eq!(
        node.temporal_properties(2, None),
        vec![(1, Prop::I64(10)), (3, Prop::I64(30))]
    );
    assert_eq!(
        node.temporal_properties(2, Some(2..4)),
        vec![(3, Prop::I64(30))]
    );
    assert_eq!(node.temporal_properties(0, None), vec![]);
    assert_eq!(node.temporal_properties(7, Some(0..9)), vec![]);
    assert_eq!(node.temporal_prop_ids(), vec![2]);
    assert_eq!(node.temporal_property(2).unwrap().len(), 2);
    assert!(node.temporal_property(1).is_none());

    node.add_constant_prop(4, Prop::str("x")).unwrap();
    let refused = node.add_constant_prop(4, Prop::str("y")).unwrap_err();
    assert_eq!(refused.index, 4);
    assert_eq!(refused.previous_value, Some(Prop::str("x")));
    assert_eq!(refused.new_value, Some(Prop::str("y")));
    assert_eq!(node.const_prop(4), Some(&Prop::str("x")));
    node.update_constant_prop(4, Prop::str("z")).unwrap();
    assert_eq!(node.const_prop(4), Some(&Prop::str("z")));
    assert_eq!(node.const_prop(3), None);
    assert_eq!(node.const_prop_ids(), vec![4]);
}

#[test]
fn add_props_stops_at_the_first_refused_value() {
    let mut node = NodeStore::new(1, TimeIndexEntry::start(0));
    node.add_prop(TimeIndexEntry::start(1), 1, Prop::U8(1)).unwrap();
    let r = node.add_props(
        TimeIndexEntry::start(2),
        &vec![(0, Prop::U8(7)), (1, Prop::I32(5)), (2, Prop::U8(9))],
    );
    assert_eq!(r, Err(GraphError::IncorrectPropertyType));
    assert_eq!(node.temporal_prop_ids(), vec![0, 1]);
    assert_eq!(node.temporal_properties(0, None), vec![(2, Prop::U8(7))]);
}

#[test]
fn list_values_are_shared_not_lost() {
    let list = Prop::List(Arc::new(vec![Prop::I32(1), Prop::str("two")]));
    let copy = list.clone();
    assert_eq!(copy, list);
    let mut node = NodeStore::new(1, TimeIndexEntry::start(0));
    node.add_prop(TimeIndexEntry::start(1), 0, list.clone()).unwrap();
    assert_eq!(node.temporal_properties(0, None), vec![(1, list)]);
}

#[test]
fn handles_share_one_record() {
    let entry = ArcEntry::new(node_with_layers());
    let other = entry.clone();
    assert_eq!(entry.get().global_id(), 10);
    assert_eq!(other.get().degree(&LayerIds::All, Direction::OUT), 5);
    assert!(std::ptr::eq(entry.get(), other.get()));
}

#[test]
fn locked_iterators_walk_what_the_node_reports() {
    let node = node_with_layers();
    let expected_edges = node.edge_tuples(&LayerIds::All, Direction::BOTH);
    let expected_neighbours = node.neighbours(&LayerIds::All, Direction::BOTH);
    let entry = ArcEntry::new(node);

    let mut edges = entry.clone().into_edges(&LayerIds::All, Direction::BOTH);
    let mut got = vec![];
    while let Some(e) = edges.next() {
        got.push(e);
    }
    assert_eq!(got, expected_edges);
    assert_eq!(edges.next(), None);

    let mut neighbours = entry.clone().into_neighbours(&LayerIds::All, Direction::BOTH);
    let mut got = vec![];
    while let Some(v) = neighbours.next() {
        got.push(v);
    }
    assert_eq!(got, expected_neighbours);

    let mut layers = entry.clone().into_layers();
    assert_eq!(layers.size_hint(), (3, Some(3)));
    let mut offsets = vec![];
    while let Some(layer) = layers.next() {
        offsets.push((layer.offset(), layer.adj().degree(Direction::OUT)));
    }
    assert_eq!(offsets, vec![(0, 3), (1, 2), (2, 1)]);

    assert!(entry.clone().into_layer(3).is_none());
    assert_eq!(entry.into_layer(1).unwrap().offset(), 1);
}

fn big_node(n: usize) -> (NodeStore, Vec<(VID, EID)>) {
    let mut node = NodeStore::new(0, TimeIndexEntry::start(0));
    let mut all = vec![];
    for i in 0..n {
        // scattered insertion order, sorted result
        let v = (i * 7919) % n;
        node.add_edge(VID(v), Direction::OUT, 0, EID(v + 1000));
    }
    for v in 0..n {
        all.push((VID(v), EID(v + 1000)));
    }
    (node, all)
}

#[test]
fn paged_traversal_equals_the_unpaged_one() {
    for n in [0usize, 1, 255, 256, 257, 512, 600] {
        let (node, all) = big_node(n);
        let entry = ArcEntry::new(node);
        let layer = entry.into_layer(0).unwrap();
        let mut it = layer.into_tuples(Dir::Out);
        let mut got = vec![];
        while let Some(e) = it.next() {
            got.push(e);
        }
        assert_eq!(got, all);
        assert_eq!(it.next(), None);
    }
}

#[test]
fn paged_traversal_with_any_page_size_equals_the_unpaged_one() {
    let (node, all) = big_node(23);
    let entry = ArcEntry::new(node);
    assert_eq!(entry.clone().into_layer(0).unwrap().into_paged::<1>(Dir::Out).collect(), all);
    assert_eq!(entry.clone().into_layer(0).unwrap().into_paged::<2>(Dir::Out).collect(), all);
    assert_eq!(entry.clone().into_layer(0).unwrap().into_paged::<7>(Dir::Out).collect(), all);
    assert_eq!(entry.clone().into_layer(0).unwrap().into_paged::<23>(Dir::Out).collect(), all);
    assert_eq!(entry.clone().into_layer(0).unwrap().into_paged::<24>(Dir::Out).collect(), all);
    assert_eq!(entry.clone().into_layer(0).unwrap().into_paged::<500>(Dir::Out).collect(), all);
    assert_eq!(
        entry.into_layer(0).unwrap().into_paged::<5>(Dir::Into).collect(),
        vec![]
    );
}

#[test]
fn fill_page_resumes_after_the_cursor() {
    let (node, all) = big_node(10);
    let layer = node.layer(0).unwrap();
    let mut page = vec![(VID(99), EID(99))];
    assert_eq!(layer.fill_page(None, &mut page, 4, Dir::Out), 4);
    assert_eq!(page, all[0..4].to_vec());
    assert_eq!(layer.fill_page(Some(VID(3)), &mut page, 4, Dir::Out), 4);
    assert_eq!(page, all[4..8].to_vec());
    assert_eq!(layer.fill_page(Some(VID(7)), &mut page, 4, Dir::Out), 2);
    assert_eq!(page, all[8..10].to_vec());
    assert_eq!(layer.fill_page(Some(VID(9)), &mut page, 4, Dir::Out), 0);
    assert_eq!(page, vec![]);
    assert_eq!(layer.fill_page(None, &mut page, 0, Dir::Out), 0);
}
