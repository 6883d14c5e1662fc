use top_dag::cluster_table::ClusterTable;
use top_dag::flags_and_statistic::{Flags, MergeRule, Round, Statistic};
use top_dag::labels::LabelTable;
use top_dag::structs::{Cluster, Data, Edge, MergeType, Node, Target};
use top_dag::uninitialized::Uninitialized;

fn cluster(merge_type: MergeType, first_child: usize, second_child: usize) -> Cluster {
    Cluster { merge_type, first_child, second_child }
}

#[test]
fn the_same_cluster_gets_the_same_id() {
    let mut table = ClusterTable::new(3);
    let first = table.add_cluster(cluster(MergeType::AB, 1, 2));
    assert_eq!(first, 3);
    let again = table.add_cluster(cluster(MergeType::AB, 1, 2));
    assert_eq!(again, first);
    assert_eq!(table.len(), 1);
    let other = table.add_cluster(cluster(MergeType::CE, 1, 2));
    assert_eq!(other, 4);
    assert_eq!(table.add_cluster(cluster(MergeType::AB, 1, 2)), first);
    assert_eq!(table.add_cluster(cluster(MergeType::CE, 1, 2)), other);
    assert_eq!(table.len(), 2);
}

#[test]
fn different_clusters_get_different_ids() {
    let mut table = ClusterTable::new(2);
    let mut ids = Vec::new();
    for shape in [MergeType::AB, MergeType::CE, MergeType::DE] {
        for first in 0..2usize {
            for second in 0..2usize {
                ids.push(table.add_cluster(cluster(shape, first, second)));
            }
        }
    }
    assert_eq!(ids, (2..14).collect::<Vec<usize>>());
    // swapped children are another cluster
    let ab = table.add_cluster(cluster(MergeType::AB, 3, 2));
    let ba = table.add_cluster(cluster(MergeType::AB, 2, 3));
    assert_ne!(ab, ba);
    assert_eq!(table.len(), 14);
}

#[test]
fn lookup_does_not_add() {
    let mut table = ClusterTable::new(5);
    let wanted = cluster(MergeType::DE, 4, 4);
    assert_eq!(table.lookup(&wanted), None);
    assert_eq!(table.len(), 0);
    let id = table.add_cluster(wanted);
    assert_eq!(id, 5);
    assert_eq!(table.lookup(&wanted), Some(5));
    assert_eq!(table.lookup(&cluster(MergeType::CE, 4, 4)), None);
    assert_eq!(table.get(5), wanted);
    assert_eq!(table.to_vec(), vec![wanted]);
    assert_eq!(table.labels(), 5);
}

#[test]
fn sizes_add_up() {
    let mut table = ClusterTable::new(2);
    assert_eq!(table.size(0), 1);
    assert_eq!(table.size(1), 1);
    let pair = table.add_cluster(cluster(MergeType::DE, 0, 1));
    assert_eq!(table.size(pair), 3);
    let over = table.add_cluster(cluster(MergeType::AB, 1, pair));
    assert_eq!(table.size(over), 5);
    let twice = table.add_cluster(cluster(MergeType::CE, over, over));
    assert_eq!(table.size(twice), 11);
}

#[test]
fn large_children_do_not_collide() {
    let mut table = ClusterTable::new(usize::MAX / 2);
    let low = table.add_cluster(cluster(MergeType::AB, 0, usize::MAX / 4));
    let high = table.add_cluster(cluster(MergeType::AB, usize::MAX / 4, 0));
    let both = table.add_cluster(cluster(MergeType::AB, usize::MAX / 4, usize::MAX / 4));
    assert_eq!((low, high, both), (usize::MAX / 2, usize::MAX / 2 + 1, usize::MAX / 2 + 2));
    assert_eq!(table.lookup(&cluster(MergeType::AB, 0, usize::MAX / 4)), Some(low));
    assert_eq!(table.lookup(&cluster(MergeType::AB, usize::MAX / 4, 0)), Some(high));
}

#[test]
fn labels_keep_their_first_id() {
    let mut labels = LabelTable::new();
    assert_eq!(labels.insert_label(&"a".to_string()), 0);
    assert_eq!(labels.insert_label(&"b".to_string()), 1);
    assert_eq!(labels.insert_label(&"a".to_string()), 0);
    assert_eq!(labels.insert_label(&"".to_string()), 2);
    assert_eq!(labels.insert_label(&"b".to_string()), 1);
    assert_eq!(labels.len(), 3);
    assert_eq!(labels.find(&"b".to_string()), Some(1));
    assert_eq!(labels.find(&"c".to_string()), None);
    assert_eq!(labels.get(2), "");
    assert_eq!(labels.to_vec(), vec!["a".to_string(), "b".to_string(), "".to_string()]);
}

#[test]
fn a_label_table_from_a_list_keeps_positions() {
    let labels = LabelTable::from_vec(vec!["x".to_string(), "y".to_string(), "x".to_string()]);
    assert_eq!(labels.len(), 3);
    assert_eq!(labels.find(&"x".to_string()), Some(0));
    assert_eq!(labels.get(2), "x");
}

#[test]
fn merge_types_have_their_numbers() {
    assert_eq!(MergeType::from_usize(0), MergeType::AB);
    assert_eq!(MergeType::from_usize(1), MergeType::CE);
    assert_eq!(MergeType::from_usize(2), MergeType::DE);
    assert_eq!(MergeType::from_usize(3), MergeType::DE);
    assert_eq!(MergeType::from_usize(usize::MAX), MergeType::DE);
    assert_eq!(MergeType::AB.get_usize(), 0);
    assert_eq!(MergeType::CE.get_usize(), 1);
    assert_eq!(MergeType::DE.get_usize(), 2);
    for shape in [MergeType::AB, MergeType::CE, MergeType::DE] {
        assert_eq!(MergeType::from_usize(shape.get_usize()), shape);
    }
}

#[test]
fn a_new_node_is_live_and_has_no_children() {
    let node = Node::new(7);
    assert!(!node.deleted);
    assert_eq!(node.data, Data::Label(7));
    assert_eq!(node.first_child, 0);
    assert_eq!(node.last_child, 0);
    assert_eq!(node.data.get_id(), 7);
    assert_eq!(Data::Cluster(9).get_id(), 9);
}

#[test]
fn a_default_edge_is_vacant() {
    let edge = Edge::default();
    assert!(edge.deleted);
    assert_eq!(edge.index, Target::NodeRef(0));
    let vacant = Edge::vacant();
    assert!(vacant.deleted);
    assert_eq!(vacant.index, Target::NodeRef(0));
}

#[test]
fn an_uninitialized_slot_is_filled_once_set() {
    let mut slot: Uninitialized<usize> = Uninitialized::new();
    assert!(slot.is_uninitialized());
    assert!(!slot.is_initialized());
    assert_eq!(Uninitialized::<usize>::new().try_into_inner(), None);
    slot.set_value(5);
    assert!(slot.is_initialized());
    assert!(!slot.is_uninitialized());
    assert_eq!(*slot.get(), 5);
    slot.set_value(6);
    assert_eq!(slot.try_into_inner(), Some(6));
    let mut other: Uninitialized<String> = Uninitialized::new();
    other.set_value("x".to_string());
    assert_eq!(other.into_inner(), "x");
}

#[test]
fn a_new_statistic_is_all_zero() {
    let statistic = Statistic::new();
    assert_eq!(statistic.number_of_merge_rounds, 0);
    assert_eq!(statistic.number_of_nodes_in_io_tree, 0);
    assert_eq!(statistic.number_of_leafs_in_io_tree, 0);
    assert_eq!(statistic.number_of_edges_in_io_tree, 0);
    assert_eq!(statistic.number_of_leafs_in_top_dag, 0);
    assert_eq!(statistic.number_of_nodes_in_top_dag, 0);
}

#[test]
fn default_flags_do_not_throttle() {
    let flags = Flags::default();
    assert_eq!(flags.merge_rule, MergeRule::SimplifiedStandardRules);
    assert!(flags.slowing_down.is_empty());
    let round = flags.round(3);
    assert_eq!(round.step, 3);
    assert_eq!(round.ceiling, None);
    assert!(!round.is_throttled(usize::MAX, usize::MAX));
}

#[test]
fn the_throttle_holds_large_ids_back() {
    let flags = Flags { merge_rule: MergeRule::FastAdvancedRules, slowing_down: vec![1, 2, 4] };
    assert_eq!(flags.round(0).ceiling, Some(1));
    assert_eq!(flags.round(2).ceiling, Some(4));
    assert_eq!(flags.round(3).ceiling, None);
    let round: Round = flags.round(2);
    assert!(!round.is_throttled(4, 4));
    assert!(round.is_throttled(5, 0));
    assert!(round.is_throttled(0, 5));
    assert!(!round.is_throttled(0, 0));
}
