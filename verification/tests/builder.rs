use top_dag::error::TopDagError;
use top_dag::flags_and_statistic::{Flags, MergeRule};
use top_dag::io_tree::IO_Tree;
use top_dag::structs::{Cluster, MergeType};
use top_dag::TopTreeBuilder;

fn leaf(label: &str) -> IO_Tree {
    IO_Tree::leaf(label.to_string())
}

fn node(label: &str, children: Vec<IO_Tree>) -> IO_Tree {
    IO_Tree::node(label.to_string(), children.into())
}

fn flags(rule: MergeRule) -> Option<Flags> {
    Some(Flags { merge_rule: rule, slowing_down: Vec::new() })
}

fn rules() -> Vec<MergeRule> {
    vec![
        MergeRule::SimplifiedStandardRules,
        MergeRule::FastAdvancedRules,
        MergeRule::SlowAdvancedRules,
    ]
}

/// A tree of a fixed shape that depends on `seed`: labels from a small
/// alphabet, up to `depth` levels.
fn grown(seed: &mut u64, depth: usize) -> IO_Tree {
    *seed = seed.wrapping_mul(6364136223846793005).wrapping_add(1442695040888963407);
    let label = format!("n{}", (*seed >> 33) % 4);
    if depth == 0 {
        return leaf(&label);
    }
    *seed = seed.wrapping_mul(6364136223846793005).wrapping_add(1442695040888963407);
    let fanout = ((*seed >> 33) % 4) as usize;
    let mut children = Vec::new();
    for _ in 0..fanout {
        children.push(grown(seed, depth - 1));
    }
    node(&label, children)
}

fn chain(length: usize) -> IO_Tree {
    let mut tree = leaf("end");
    for i in 0..length {
        tree = node(&format!("c{}", i % 3), vec![tree]);
    }
    tree
}

fn rebuilt(builder: &TopTreeBuilder) -> TopTreeBuilder {
    let (structure, pointer, merge_types, labels) = builder.traverse();
    let mut other = TopTreeBuilder::new(None);
    assert_eq!(other.detraverse(structure, pointer, merge_types, labels), Ok(()));
    other
}

fn round_trips(tree: &IO_Tree, rule: MergeRule) {
    let builder = TopTreeBuilder::new_from_IO_tree(tree.duplicate(), flags(rule)).unwrap();
    let direct = builder.get_IO_tree().expect("one tree");
    assert!(direct.equals(tree));
    let other = rebuilt(&builder);
    let decoded = other.get_IO_tree().expect("one tree");
    assert!(decoded.equals(tree));
}

#[test]
fn two_equal_leaves_below_a_root() {
    let tree = node("a", vec![leaf("b"), leaf("b")]);
    let builder = TopTreeBuilder::new_from_IO_tree(tree.duplicate(), None).unwrap();
    assert_eq!(
        builder.labels(),
        vec!["Dummy_node".to_string(), "a".to_string(), "b".to_string()]
    );
    assert_eq!(
        builder.clusters(),
        vec![
            Cluster { merge_type: MergeType::DE, first_child: 2, second_child: 2 },
            Cluster { merge_type: MergeType::AB, first_child: 1, second_child: 3 },
        ]
    );
    assert_eq!(builder.root(), 4);
    let back = builder.get_IO_tree().unwrap();
    assert_eq!(back.label, "a");
    assert_eq!(back.children.len(), 2);
    assert_eq!(back.children[0].label, "b");
    assert_eq!(back.children[1].label, "b");
    assert!(back.children[0].children.is_empty());
    assert!(back.children[1].children.is_empty());
    assert!(back.equals(&tree));
}

#[test]
fn two_equal_subtrees_share_one_cluster() {
    let tree = node("r", vec![node("a", vec![leaf("x")]), node("a", vec![leaf("x")])]);
    let builder = TopTreeBuilder::new_from_IO_tree(tree.duplicate(), None).unwrap();
    assert_eq!(
        builder.labels(),
        vec!["Dummy_node".to_string(), "r".to_string(), "a".to_string(), "x".to_string()]
    );
    let shared = Cluster { merge_type: MergeType::AB, first_child: 2, second_child: 3 };
    let clusters = builder.clusters();
    assert_eq!(clusters.iter().filter(|c| **c == shared).count(), 1);
    assert_eq!(
        clusters,
        vec![
            shared,
            Cluster { merge_type: MergeType::DE, first_child: 4, second_child: 4 },
            Cluster { merge_type: MergeType::AB, first_child: 1, second_child: 5 },
        ]
    );
    assert!(builder.get_IO_tree().unwrap().equals(&tree));
}

#[test]
fn repeated_groups_are_stored_once() {
    let group = || node("g", vec![leaf("b"), leaf("b")]);
    let alone = TopTreeBuilder::new_from_IO_tree(node("r", vec![group()]), None).unwrap();
    for k in 2..6usize {
        let mut groups = Vec::new();
        for _ in 0..k {
            groups.push(group());
        }
        let tree = node("r", groups);
        let builder = TopTreeBuilder::new_from_IO_tree(tree.duplicate(), None).unwrap();
        let clusters = builder.clusters();
        // "b" has the id 3: Dummy_node, r, g, b
        let pair = Cluster { merge_type: MergeType::DE, first_child: 3, second_child: 3 };
        assert_eq!(clusters.iter().filter(|c| **c == pair).count(), 1);
        let whole = Cluster { merge_type: MergeType::AB, first_child: 2, second_child: 4 };
        assert_eq!(clusters.iter().filter(|c| **c == whole).count(), 1);
        for (i, c) in clusters.iter().enumerate() {
            for d in clusters.iter().skip(i + 1) {
                assert_ne!(c, d);
            }
        }
        assert!(clusters.len() < k * alone.clusters().len());
        assert!(builder.get_IO_tree().unwrap().equals(&tree));
    }
}

#[test]
fn a_single_node_round_trips() {
    for rule in rules() {
        let tree = leaf("only");
        let builder = TopTreeBuilder::new_from_IO_tree(tree.duplicate(), flags(rule)).unwrap();
        assert!(builder.clusters().is_empty());
        assert_eq!(builder.root(), 1);
        assert!(builder.get_IO_tree().unwrap().equals(&tree));
        let (structure, pointer, merge_types, labels) = builder.traverse();
        assert!(structure.is_empty());
        assert!(pointer.is_empty());
        assert!(merge_types.is_empty());
        assert_eq!(labels, vec!["Dummy_node".to_string(), "only".to_string()]);
        round_trips(&tree, rule);
    }
}

#[test]
fn the_root_may_carry_the_reserved_label() {
    let tree = node("Dummy_node", vec![leaf("x"), leaf("y")]);
    for rule in rules() {
        round_trips(&tree, rule);
    }
    let alone = leaf("Dummy_node");
    let builder = TopTreeBuilder::new_from_IO_tree(alone.duplicate(), None).unwrap();
    assert_eq!(builder.labels(), vec!["Dummy_node".to_string()]);
    assert_eq!(builder.root(), 0);
    assert!(builder.get_IO_tree().unwrap().equals(&alone));
}

#[test]
fn the_reserved_label_below_the_root_is_refused() {
    let deep = node("a", vec![leaf("b"), node("c", vec![leaf("Dummy_node")])]);
    assert_eq!(
        TopTreeBuilder::new_from_IO_tree(deep, None).err(),
        Some(TopDagError::ReservedLabelCollision)
    );
    let inner = node("a", vec![node("Dummy_node", vec![leaf("b")])]);
    for rule in rules() {
        assert_eq!(
            TopTreeBuilder::new_from_IO_tree(inner.duplicate(), flags(rule)).err(),
            Some(TopDagError::ReservedLabelCollision)
        );
    }
}

#[test]
fn a_failed_build_leaves_the_builder_as_it_was() {
    let tree = node("a", vec![leaf("b"), leaf("c")]);
    let mut builder = TopTreeBuilder::new_from_IO_tree(tree.duplicate(), None).unwrap();
    let before = builder.clusters();
    let bad = node("a", vec![leaf("Dummy_node")]);
    assert_eq!(builder.build_from_IO_tree(bad), Err(TopDagError::ReservedLabelCollision));
    assert_eq!(builder.clusters(), before);
    assert!(builder.get_IO_tree().unwrap().equals(&tree));
}

#[test]
fn a_second_build_replaces_the_first() {
    let first = node("a", vec![leaf("b"), leaf("c")]);
    let second = node("x", vec![node("y", vec![leaf("z")]), leaf("z")]);
    let mut builder = TopTreeBuilder::new_from_IO_tree(first, None).unwrap();
    assert_eq!(builder.build_from_IO_tree(second.duplicate()), Ok(()));
    assert_eq!(
        builder.labels(),
        vec!["Dummy_node".to_string(), "x".to_string(), "y".to_string(), "z".to_string()]
    );
    assert!(builder.get_IO_tree().unwrap().equals(&second));
}

#[test]
fn all_policies_round_trip_small_trees() {
    let trees = vec![
        node("a", vec![leaf("b")]),
        node("a", vec![leaf("b"), leaf("c"), leaf("d")]),
        node("a", vec![node("b", vec![leaf("c")]), leaf("d")]),
        node("a", vec![leaf("d"), node("b", vec![leaf("c")])]),
        node("a", vec![node("b", vec![leaf("c"), leaf("c")]), node("b", vec![leaf("c"), leaf("c")])]),
        node(
            "a",
            vec![
                node("b", vec![node("c", vec![leaf("d")])]),
                node("b", vec![node("c", vec![leaf("d")])]),
                node("b", vec![node("c", vec![leaf("d")])]),
            ],
        ),
        chain(1),
        chain(2),
        chain(7),
        chain(40),
    ];
    for tree in trees.iter() {
        for rule in rules() {
            round_trips(tree, rule);
        }
    }
}

#[test]
fn all_policies_round_trip_grown_trees() {
    for start in 1..60u64 {
        for depth in 1..6usize {
            let mut seed = start * 7919 + depth as u64;
            let tree = grown(&mut seed, depth);
            for rule in rules() {
                round_trips(&tree, rule);
            }
        }
    }
}

#[test]
fn wide_and_deep_trees_round_trip() {
    let mut leaves = Vec::new();
    for i in 0..500 {
        leaves.push(leaf(&format!("l{}", i % 7)));
    }
    let wide = node("w", leaves);
    let deep = chain(3000);
    for rule in rules() {
        let builder = TopTreeBuilder::new_from_IO_tree(wide.duplicate(), flags(rule)).unwrap();
        assert!(rebuilt(&builder).get_IO_tree().unwrap().equals(&wide));
        let builder = TopTreeBuilder::new_from_IO_tree(deep.duplicate(), flags(rule)).unwrap();
        let other = rebuilt(&builder);
        assert_eq!(other.clusters().len(), builder.clusters().len());
        assert_eq!(other.labels(), builder.labels());
    }
}

#[test]
fn a_throttled_build_round_trips() {
    let mut seed = 99;
    let tree = grown(&mut seed, 5);
    for rule in rules() {
        let ceilings = vec![1, 1, 2, 2, 4, 4, 8, 8, 16, 32, 64];
        let throttled = Some(Flags { merge_rule: rule, slowing_down: ceilings });
        let builder = TopTreeBuilder::new_from_IO_tree(tree.duplicate(), throttled).unwrap();
        assert!(builder.get_IO_tree().unwrap().equals(&tree));
        assert!(rebuilt(&builder).get_IO_tree().unwrap().equals(&tree));
        let plain = TopTreeBuilder::new_from_IO_tree(tree.duplicate(), flags(rule)).unwrap();
        assert!(
            builder.get_statistic().number_of_merge_rounds
                >= plain.get_statistic().number_of_merge_rounds
        );
    }
}

#[test]
fn the_statistic_counts_the_build() {
    let tree = node("r", vec![node("a", vec![leaf("x")]), node("a", vec![leaf("x")])]);
    let builder = TopTreeBuilder::new_from_IO_tree(tree, None).unwrap();
    let statistic = builder.get_statistic();
    assert_eq!(statistic.number_of_merge_rounds, 2);
    // the synthetic root counts as a node and has an edge
    assert_eq!(statistic.number_of_nodes_in_io_tree, 4);
    assert_eq!(statistic.number_of_leafs_in_io_tree, 2);
    assert_eq!(statistic.number_of_edges_in_io_tree, 5);
    assert_eq!(statistic.number_of_leafs_in_top_dag, 3);
    assert_eq!(statistic.number_of_nodes_in_top_dag, 3);
}

#[test]
fn a_new_builder_holds_the_reserved_label_only() {
    let builder = TopTreeBuilder::new(None);
    assert_eq!(builder.labels(), vec!["Dummy_node".to_string()]);
    assert!(builder.clusters().is_empty());
    assert_eq!(builder.root(), 0);
    let tree = builder.get_IO_tree().unwrap();
    assert_eq!(tree.label, "Dummy_node");
    assert!(tree.children.is_empty());
}

fn count(tree: &IO_Tree) -> usize {
    1 + tree.children.iter().map(count).sum::<usize>()
}

#[test]
fn a_tree_without_children_takes_no_round() {
    for rule in rules() {
        let builder = TopTreeBuilder::new_from_IO_tree(leaf("only"), flags(rule)).unwrap();
        assert_eq!(builder.get_statistic().number_of_merge_rounds, 0);
        assert!(builder.clusters().is_empty());
        assert_eq!(builder.root(), 1);
    }
}

#[test]
fn two_leaves_take_one_round() {
    let tree = node("a", vec![leaf("b"), leaf("b")]);
    let builder = TopTreeBuilder::new_from_IO_tree(tree, None).unwrap();
    assert_eq!(builder.get_statistic().number_of_merge_rounds, 1);
    assert_eq!(builder.get_statistic().number_of_nodes_in_top_dag, 2);
}

#[test]
fn rounds_and_clusters_stay_below_the_number_of_nodes() {
    let mut seed = 11u64;
    let mut trees = vec![chain(1), chain(9), node("r", vec![leaf("a"), leaf("b"), leaf("c")])];
    for depth in 1..6 {
        trees.push(grown(&mut seed, depth));
    }
    for tree in trees.iter() {
        let nodes = count(tree);
        for rule in [MergeRule::SimplifiedStandardRules, MergeRule::FastAdvancedRules] {
            let builder = TopTreeBuilder::new_from_IO_tree(tree.duplicate(), flags(rule)).unwrap();
            let rounds = builder.get_statistic().number_of_merge_rounds;
            if tree.children.is_empty() {
                assert_eq!(rounds, 0);
            } else {
                assert!(1 <= rounds && rounds <= nodes - 1);
            }
            assert!(builder.clusters().len() + 1 <= nodes);
        }
        let slow = TopTreeBuilder::new_from_IO_tree(
            tree.duplicate(),
            flags(MergeRule::SlowAdvancedRules),
        )
        .unwrap();
        assert_eq!(slow.get_statistic().number_of_merge_rounds == 0, tree.children.is_empty());
        assert!(slow.clusters().len() + 1 <= nodes);
    }
}

#[test]
fn the_root_is_the_last_cluster() {
    let mut seed = 5u64;
    for depth in 1..6 {
        let tree = grown(&mut seed, depth);
        for rule in rules() {
            let builder = TopTreeBuilder::new_from_IO_tree(tree.duplicate(), flags(rule)).unwrap();
            let ids = builder.labels().len() + builder.clusters().len();
            assert_eq!(builder.root() + 1, ids);
        }
    }
}

#[test]
fn no_label_stands_twice_after_a_build() {
    let mut seed = 23u64;
    let tree = grown(&mut seed, 5);
    let builder = TopTreeBuilder::new_from_IO_tree(tree, None).unwrap();
    let labels = builder.labels();
    for i in 0..labels.len() {
        for j in 0..i {
            assert_ne!(labels[i], labels[j]);
        }
    }
}

#[test]
fn a_rebuilt_table_is_written_as_the_one_before() {
    let mut seed = 42u64;
    for depth in 1..6 {
        let tree = grown(&mut seed, depth);
        for rule in rules() {
            let builder = TopTreeBuilder::new_from_IO_tree(tree.duplicate(), flags(rule)).unwrap();
            let written = builder.traverse();
            let other = rebuilt(&builder);
            assert_eq!(other.clusters().len(), written.2.len());
            assert_eq!(other.traverse(), written);
        }
    }
}
