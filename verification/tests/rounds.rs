use top_dag::error::TopDagError;
use top_dag::flags_and_statistic::{Flags, MergeRule};
use top_dag::ingest::ingest;
use top_dag::io_tree::IO_Tree;
use top_dag::structs::{Child, Data, Leaf, MergeType, Node, NodeHandle, Target};

fn leaf(label: &str) -> IO_Tree {
    IO_Tree::leaf(label.to_string())
}

fn node(label: &str, children: Vec<IO_Tree>) -> IO_Tree {
    IO_Tree::node(label.to_string(), children.into())
}

fn grown(seed: &mut u64, depth: usize) -> IO_Tree {
    *seed = seed.wrapping_mul(6364136223846793005).wrapping_add(1442695040888963407);
    let label = format!("n{}", (*seed >> 33) % 3);
    if depth == 0 {
        return leaf(&label);
    }
    *seed = seed.wrapping_mul(6364136223846793005).wrapping_add(1442695040888963407);
    let fanout = 1 + ((*seed >> 33) % 3) as usize;
    let mut children = Vec::new();
    for _ in 0..fanout {
        children.push(grown(seed, depth - 1));
    }
    node(&label, children)
}

fn balanced(depth: usize) -> IO_Tree {
    if depth == 0 {
        leaf("l")
    } else {
        node("n", vec![balanced(depth - 1), balanced(depth - 1)])
    }
}

fn size(tree: &IO_Tree) -> usize {
    1 + tree.children.iter().map(size).sum::<usize>()
}

/// The numbers of live records before the first round and after each.
fn shrinking(tree: &IO_Tree, rule: MergeRule) -> Vec<usize> {
    let (mut arena, mut tables) = ingest(tree).unwrap();
    let flags = Flags { merge_rule: rule, slowing_down: Vec::new() };
    let mut live = vec![arena.live];
    let mut step = 0;
    while arena.root_cluster(&tables).is_none() {
        step += 1;
        let done = arena.merge_round(&mut tables, &flags, step);
        live.push(arena.live);
        if rule != MergeRule::SlowAdvancedRules || step % 5 == 0 {
            assert_eq!(done, Ok(()));
        }
        assert!(step < 10_000);
    }
    live
}

#[test]
fn the_arena_holds_one_record_per_node() {
    let tree = node("a", vec![node("b", vec![leaf("c"), leaf("d")]), leaf("e")]);
    let (arena, tables) = ingest(&tree).unwrap();
    assert_eq!(arena.live, 6);
    // the synthetic root, a and b
    assert_eq!(arena.nodes.len(), 3);
    assert_eq!(arena.leafs.len(), 3);
    assert_eq!(arena.edges.len(), 5);
    assert_eq!(tables.labels.len(), 6);
    assert_eq!(tables.clusters.len(), 0);
    assert_eq!(arena.nodes[0].data, Data::Label(0));
    assert_eq!((arena.nodes[0].first_child, arena.nodes[0].last_child), (0, 1));
    assert_eq!((arena.nodes[1].first_child, arena.nodes[1].last_child), (1, 3));
    assert_eq!((arena.nodes[2].first_child, arena.nodes[2].last_child), (3, 5));
    assert_eq!(arena.edges[0].index, Target::NodeRef(1));
    assert_eq!(arena.edges[1].index, Target::NodeRef(2));
    assert_eq!(arena.edges[2].index, Target::LeafRef(2));
    assert_eq!(arena.edges[3].index, Target::LeafRef(0));
    assert_eq!(arena.edges[4].index, Target::LeafRef(1));
    assert!(arena.edges.iter().all(|edge| !edge.deleted));
    assert_eq!(arena.root_cluster(&tables), None);
}

#[test]
fn ingest_refuses_the_reserved_label() {
    let tree = node("a", vec![leaf("Dummy_node")]);
    assert_eq!(ingest(&tree).err(), Some(TopDagError::ReservedLabelCollision));
}

#[test]
fn every_round_shrinks_the_arena() {
    for rule in [MergeRule::SimplifiedStandardRules, MergeRule::FastAdvancedRules] {
        for start in 1..40u64 {
            for depth in 1..7usize {
                let mut seed = start * 104729 + depth as u64;
                let tree = grown(&mut seed, depth);
                let live = shrinking(&tree, rule);
                assert_eq!(live[0], size(&tree) + 1);
                for pair in live.windows(2) {
                    assert!(pair[1] < pair[0]);
                }
                // the synthetic root and the last leaf are left
                assert_eq!(*live.last().unwrap(), 2);
            }
        }
    }
}

#[test]
fn the_slow_rules_never_grow_the_arena() {
    for start in 1..20u64 {
        for depth in 1..6usize {
            let mut seed = start * 31 + depth as u64;
            let tree = grown(&mut seed, depth);
            let live = shrinking(&tree, MergeRule::SlowAdvancedRules);
            for pair in live.windows(2) {
                assert!(pair[1] <= pair[0]);
            }
            for (round, pair) in live.windows(2).enumerate() {
                if (round + 1) % 5 == 0 {
                    assert!(pair[1] < pair[0]);
                }
            }
            assert_eq!(*live.last().unwrap(), 2);
        }
    }
}

#[test]
fn balanced_trees_take_few_rounds() {
    for depth in 1..11usize {
        let tree = balanced(depth);
        let nodes = size(&tree);
        let rounds = shrinking(&tree, MergeRule::SimplifiedStandardRules).len() - 1;
        let mut log = 0;
        while (1usize << log) < nodes {
            log += 1;
        }
        assert!(rounds <= 2 * (depth + log) + 2);
    }
}

#[test]
fn a_leaf_is_absorbed_to_the_right() {
    let tree = node("a", vec![node("b", vec![leaf("c")]), leaf("d"), leaf("e")]);
    let (mut arena, mut tables) = ingest(&tree).unwrap();
    let round = Flags::default().round(1);
    // labels: Dummy_node 0, a 1, b 2, c 3, d 4, e 5; the first cluster gets 6
    // edges: 0 -> a, 1 -> b, 2 -> d, 3 -> e, 4 -> c
    let d = NodeHandle { parent: 1, child: 2 };
    let e = NodeHandle { parent: 1, child: 3 };
    assert_eq!(arena.live, 6);
    assert!(!arena.try_merge(&tables, d, e, MergeType::DE));
    assert!(arena.merge(&mut tables, &round, d, e, MergeType::DE));
    assert_eq!(arena.live, 5);
    assert!(arena.edges[2].deleted);
    assert!(arena.leafs[1].deleted);
    assert!(!arena.edges[3].deleted);
    assert_eq!(arena.leafs[2].data, Data::Cluster(6));
    assert_eq!(tables.clusters.get(6).merge_type, MergeType::DE);
    assert_eq!(tables.clusters.get(6).first_child, 4);
    assert_eq!(tables.clusters.get(6).second_child, 5);
}

#[test]
fn a_leaf_is_absorbed_to_the_left() {
    let tree = node("a", vec![node("b", vec![leaf("c")]), leaf("d"), leaf("e")]);
    let (mut arena, mut tables) = ingest(&tree).unwrap();
    let round = Flags::default().round(1);
    let b = NodeHandle { parent: 1, child: 1 };
    let d = NodeHandle { parent: 1, child: 2 };
    assert!(arena.merge(&mut tables, &round, b, d, MergeType::CE));
    assert_eq!(arena.live, 5);
    assert!(arena.edges[2].deleted);
    assert!(arena.leafs[1].deleted);
    assert!(!arena.edges[1].deleted);
    assert_eq!(arena.nodes[2].data, Data::Cluster(6));
    assert_eq!(tables.clusters.get(6).merge_type, MergeType::CE);
    assert_eq!(tables.clusters.get(6).first_child, 2);
    assert_eq!(tables.clusters.get(6).second_child, 4);
}

#[test]
fn a_node_with_one_child_is_contracted() {
    let tree = node("a", vec![node("b", vec![leaf("c")]), leaf("d"), leaf("e")]);
    let (mut arena, mut tables) = ingest(&tree).unwrap();
    let round = Flags::default().round(1);
    let b = NodeHandle { parent: 1, child: 1 };
    let c = NodeHandle { parent: 2, child: 4 };
    assert!(arena.merge(&mut tables, &round, b, c, MergeType::AB));
    assert_eq!(arena.live, 5);
    assert!(arena.nodes[2].deleted);
    assert!(arena.edges[4].deleted);
    assert!(!arena.edges[1].deleted);
    assert_eq!(arena.edges[1].index, Target::LeafRef(0));
    assert_eq!(arena.leafs[0].data, Data::Cluster(6));
    assert_eq!(tables.clusters.get(6).merge_type, MergeType::AB);
    assert_eq!(tables.clusters.get(6).first_child, 2);
    assert_eq!(tables.clusters.get(6).second_child, 3);
    assert_eq!(arena.get_cluster_index(Target::LeafRef(0)), 6);
    assert_eq!(arena.get_cluster_index(Target::NodeRef(1)), 1);
}

#[test]
fn one_round_by_hand() {
    let tree = node("a", vec![node("b", vec![leaf("c")]), leaf("d"), leaf("e")]);
    let (mut arena, mut tables) = ingest(&tree).unwrap();
    let flags = Flags::default();
    // horizontally b takes in d, and e stays; vertically b goes into c
    assert_eq!(arena.merge_round(&mut tables, &flags, 1), Ok(()));
    assert_eq!(arena.live, 4);
    assert_eq!(tables.clusters.len(), 2);
    assert_eq!((arena.nodes[1].first_child, arena.nodes[1].last_child), (1, 3));
    assert_eq!(arena.edges[1].index, Target::LeafRef(0));
    assert_eq!(arena.edges[2].index, Target::LeafRef(2));
    assert_eq!(arena.leafs[0].data, Data::Cluster(7));
    assert_eq!(arena.root_cluster(&tables), None);
    assert_eq!(arena.merge_round(&mut tables, &flags, 2), Ok(()));
    assert_eq!(arena.live, 2);
    assert_eq!(arena.root_cluster(&tables), Some(9));
    // nothing is left to merge
    assert_eq!(arena.merge_round(&mut tables, &flags, 3), Err(TopDagError::NoProgress));
    assert_eq!(arena.live, 2);
}

#[test]
fn a_known_cluster_is_found_before_the_merge() {
    let tree = node("a", vec![leaf("d"), leaf("e"), leaf("d"), leaf("e")]);
    let (mut arena, mut tables) = ingest(&tree).unwrap();
    let round = Flags::default().round(1);
    let first = (NodeHandle { parent: 1, child: 1 }, NodeHandle { parent: 1, child: 2 });
    let second = (NodeHandle { parent: 1, child: 3 }, NodeHandle { parent: 1, child: 4 });
    assert!(!arena.try_merge(&tables, second.0, second.1, MergeType::DE));
    assert!(arena.merge(&mut tables, &round, first.0, first.1, MergeType::DE));
    assert!(arena.try_merge(&tables, second.0, second.1, MergeType::DE));
    assert!(!arena.try_merge(&tables, second.0, second.1, MergeType::CE));
    assert!(arena.merge(&mut tables, &round, second.0, second.1, MergeType::DE));
    assert_eq!(tables.clusters.len(), 1);
    assert_eq!(arena.leafs[1].data, Data::Cluster(4));
    assert_eq!(arena.leafs[3].data, Data::Cluster(4));
}

#[test]
fn a_throttled_merge_changes_nothing() {
    let tree = node("a", vec![leaf("b"), leaf("c")]);
    let (mut arena, mut tables) = ingest(&tree).unwrap();
    let flags = Flags { merge_rule: MergeRule::SimplifiedStandardRules, slowing_down: vec![0, 1, 2] };
    let b = NodeHandle { parent: 1, child: 1 };
    let c = NodeHandle { parent: 1, child: 2 };
    // b has the id 2, c the id 3
    assert!(!arena.merge(&mut tables, &flags.round(1), b, c, MergeType::DE));
    assert!(!arena.merge(&mut tables, &flags.round(2), b, c, MergeType::DE));
    assert_eq!(arena.live, 4);
    assert_eq!(tables.clusters.len(), 0);
    assert!(arena.merge(&mut tables, &flags.round(3), b, c, MergeType::DE));
    assert_eq!(arena.live, 3);
}

#[test]
fn pushing_a_child_fills_the_next_slot() {
    let tree = node("a", vec![leaf("b"), leaf("c")]);
    let (mut arena, _tables) = ingest(&tree).unwrap();
    assert_eq!((arena.nodes[1].first_child, arena.nodes[1].last_child), (1, 3));
    // the slots of the last node end where the edges end: the new edge
    // goes there, and the slots of the new node lie behind it
    let target = arena.push_child(1, Child::Node(Node::new(1), Some(2)));
    assert_eq!(target, Target::NodeRef(2));
    assert_eq!((arena.nodes[1].first_child, arena.nodes[1].last_child), (1, 4));
    assert_eq!(arena.edges[3].index, Target::NodeRef(2));
    assert!(!arena.edges[3].deleted);
    assert_eq!((arena.nodes[2].first_child, arena.nodes[2].last_child), (4, 4));
    assert_eq!(arena.edges.len(), 6);
    assert!(arena.edges[4].deleted && arena.edges[5].deleted);
    // a slot that was set aside is filled, and nothing moves
    let leaf_target = arena.push_child(2, Child::Leaf(Leaf { deleted: false, data: Data::Label(2) }));
    assert_eq!(leaf_target, Target::LeafRef(2));
    assert_eq!((arena.nodes[2].first_child, arena.nodes[2].last_child), (4, 5));
    assert_eq!(arena.edges[4].index, Target::LeafRef(2));
    assert!(!arena.edges[4].deleted && arena.edges[5].deleted);
    assert_eq!(arena.edges.len(), 6);
    assert_eq!((arena.nodes[1].first_child, arena.nodes[1].last_child), (1, 4));
    let single = arena.push_child(2, Child::Node(Node::new(2), None));
    assert_eq!(single, Target::NodeRef(3));
    assert_eq!(arena.edges[5].index, Target::NodeRef(3));
    assert_eq!((arena.nodes[3].first_child, arena.nodes[3].last_child), (6, 6));
    assert_eq!(arena.edges.len(), 7);
}

#[test]
fn a_child_is_squeezed_in_before_the_next_node() {
    let tree = node("a", vec![leaf("b"), leaf("c")]);
    let (mut arena, _tables) = ingest(&tree).unwrap();
    let below_a: Vec<Target> = (1..3).map(|slot| arena.edges[slot].index).collect();
    assert_eq!(below_a, vec![Target::LeafRef(0), Target::LeafRef(1)]);
    // the slot behind the one child of the synthetic root is the first
    // one of node 1: the new edge is put in between, node 1 moves on
    let target = arena.push_child(0, Child::Leaf(Leaf { deleted: false, data: Data::Label(1) }));
    assert_eq!(target, Target::LeafRef(2));
    assert_eq!((arena.nodes[0].first_child, arena.nodes[0].last_child), (0, 2));
    assert_eq!(arena.edges[0].index, Target::NodeRef(1));
    assert_eq!(arena.edges[1].index, Target::LeafRef(2));
    assert!(!arena.edges[1].deleted);
    assert_eq!((arena.nodes[1].first_child, arena.nodes[1].last_child), (2, 4));
    let moved: Vec<Target> = (2..4).map(|slot| arena.edges[slot].index).collect();
    assert_eq!(moved, below_a);
    assert!(!arena.edges[2].deleted && !arena.edges[3].deleted);
    assert_eq!(arena.edges.len(), 4);
    assert_eq!(arena.leafs.len(), 3);
    assert_eq!(arena.nodes.len(), 2);
}

#[test]
fn a_round_that_only_reuses_adds_no_cluster() {
    let mut seed = 3u64;
    let tree = grown(&mut seed, 4);
    let flags = Flags { merge_rule: MergeRule::SlowAdvancedRules, slowing_down: Vec::new() };
    let (mut arena, mut tables) = ingest(&tree).unwrap();
    for step in 1..5 {
        let clusters = tables.clusters.to_vec().len();
        let live = arena.live;
        assert_eq!(arena.merge_round(&mut tables, &flags, step), Ok(()));
        assert_eq!(tables.clusters.to_vec().len(), clusters);
        assert!(arena.live <= live);
    }
}

#[test]
fn a_pass_adds_a_cluster_for_a_record_that_goes_at_most() {
    let mut seed = 17u64;
    let tree = grown(&mut seed, 5);
    for rule in [
        MergeRule::SimplifiedStandardRules,
        MergeRule::FastAdvancedRules,
        MergeRule::SlowAdvancedRules,
    ] {
        let flags = Flags { merge_rule: rule, slowing_down: Vec::new() };
        let (mut arena, mut tables) = ingest(&tree).unwrap();
        let mut step = 0;
        while arena.root_cluster(&tables).is_none() {
            step += 1;
            let clusters = tables.clusters.to_vec().len();
            let live = arena.live;
            assert_eq!(arena.merge_round(&mut tables, &flags, step), Ok(()));
            let added = tables.clusters.to_vec().len() - clusters;
            assert!(added <= live - arena.live);
            assert!(step < 1000);
        }
        assert_eq!(arena.live, 2);
    }
}
