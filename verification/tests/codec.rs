use top_dag::error::TopDagError;
use top_dag::io_tree::IO_Tree;
use top_dag::structs::{Cluster, MergeType};
use top_dag::TopTreeBuilder;

fn leaf(label: &str) -> IO_Tree {
    IO_Tree::leaf(label.to_string())
}

fn node(label: &str, children: Vec<IO_Tree>) -> IO_Tree {
    IO_Tree::node(label.to_string(), children.into())
}

fn names(labels: &[&str]) -> Vec<String> {
    labels.iter().map(|l| l.to_string()).collect()
}

#[test]
fn the_flat_form_of_two_equal_leaves() {
    let tree = node("a", vec![leaf("b"), leaf("b")]);
    let builder = TopTreeBuilder::new_from_IO_tree(tree, None).unwrap();
    let (structure, pointer, merge_types, labels) = builder.traverse();
    assert_eq!(structure, vec![false, true, false, false]);
    assert_eq!(pointer, vec![1, 2, 2]);
    assert_eq!(merge_types, vec![0, 2]);
    assert_eq!(labels, names(&["Dummy_node", "a", "b"]));
}

#[test]
fn a_shared_cluster_is_written_once_and_pointed_at() {
    let tree = node("r", vec![node("a", vec![leaf("x")]), node("a", vec![leaf("x")])]);
    let builder = TopTreeBuilder::new_from_IO_tree(tree.duplicate(), None).unwrap();
    // clusters: 4 = AB(a, x), 5 = DE(4, 4), 6 = AB(r, 5)
    let (structure, pointer, merge_types, labels) = builder.traverse();
    assert_eq!(structure, vec![false, true, true, false, false, false]);
    // r; the second child of cluster 5 points at the cluster at place 2; a; x
    assert_eq!(pointer, vec![1, 4 + 2, 2, 3]);
    assert_eq!(merge_types, vec![0, 2, 0]);
    assert_eq!(labels, names(&["Dummy_node", "r", "a", "x"]));
    let mut other = TopTreeBuilder::new(None);
    assert_eq!(other.detraverse(structure, pointer, merge_types, labels), Ok(()));
    assert_eq!(other.clusters(), builder.clusters());
    assert_eq!(other.root(), builder.root());
    assert!(other.get_IO_tree().unwrap().equals(&tree));
}

#[test]
fn decoding_by_hand() {
    let mut builder = TopTreeBuilder::new(None);
    // one cluster CE(p, q): p followed by q
    let done = builder.detraverse(vec![false, false], vec![0, 1], vec![1], names(&["p", "q"]));
    assert_eq!(done, Ok(()));
    assert_eq!(
        builder.clusters(),
        vec![Cluster { merge_type: MergeType::CE, first_child: 0, second_child: 1 }]
    );
    assert_eq!(builder.root(), 2);
    // two trees side by side are not one tree
    assert!(builder.get_IO_tree().is_none());
    // put below a parent they are its children
    let done = builder.detraverse(
        vec![false, true, false, false],
        vec![2, 0, 1],
        vec![0, 1],
        names(&["p", "q", "top"]),
    );
    assert_eq!(done, Ok(()));
    let tree = builder.get_IO_tree().unwrap();
    assert!(tree.equals(&node("top", vec![leaf("p"), leaf("q")])));
}

#[test]
fn merge_types_above_two_read_as_the_last() {
    let mut builder = TopTreeBuilder::new(None);
    let done = builder.detraverse(
        vec![false, true, false, false],
        vec![2, 0, 1],
        vec![0, 17],
        names(&["p", "q", "top"]),
    );
    assert_eq!(done, Ok(()));
    assert_eq!(builder.clusters()[0].merge_type, MergeType::DE);
    assert!(builder.get_IO_tree().unwrap().equals(&node("top", vec![leaf("p"), leaf("q")])));
}

#[test]
fn equal_clusters_decode_to_one() {
    let mut builder = TopTreeBuilder::new(None);
    // both children of the root are written out as DE(x, x)
    let done = builder.detraverse(
        vec![true, true, false, false, false, false],
        vec![0, 0, 0, 0],
        vec![1, 2, 2],
        names(&["x"]),
    );
    assert_eq!(done, Ok(()));
    assert_eq!(
        builder.clusters(),
        vec![
            Cluster { merge_type: MergeType::DE, first_child: 0, second_child: 0 },
            Cluster { merge_type: MergeType::CE, first_child: 1, second_child: 1 },
        ]
    );
    assert_eq!(builder.root(), 2);
}

#[test]
fn no_clusters_decode_to_the_last_label() {
    let mut builder = TopTreeBuilder::new(None);
    let done = builder.detraverse(vec![], vec![], vec![], names(&["Dummy_node", "only"]));
    assert_eq!(done, Ok(()));
    assert_eq!(builder.root(), 1);
    assert!(builder.get_IO_tree().unwrap().equals(&leaf("only")));
}

#[test]
fn corrupt_flat_forms_are_refused() {
    let tree = node("a", vec![leaf("b"), leaf("c")]);
    let mut builder = TopTreeBuilder::new_from_IO_tree(tree.duplicate(), None).unwrap();
    let labels = || names(&["p", "q"]);
    let corrupt = vec![
        // nothing at all, not even a label
        (vec![], vec![], vec![], vec![]),
        // a cluster without bits
        (vec![], vec![], vec![0], labels()),
        // a cluster with one bit only
        (vec![false], vec![0], vec![0], labels()),
        // an entry is missing
        (vec![false, false], vec![0], vec![0], labels()),
        // a true bit without a cluster to follow
        (vec![true, false], vec![0], vec![0], labels()),
        (vec![false, true], vec![0], vec![0], labels()),
        // an entry that is neither a label nor a cluster
        (vec![false, false], vec![0, 9], vec![0], labels()),
        // an entry that points at the cluster itself
        (vec![false, false], vec![0, 2], vec![0], labels()),
        // an entry that points at a cluster that is not finished
        (vec![false, true, false, false], vec![0, 1, 2], vec![0, 0], labels()),
        // an entry that points at a cluster that comes later
        (vec![false, true, false, false], vec![3, 0, 1], vec![0, 0], labels()),
    ];
    for (structure, pointer, merge_types, labels) in corrupt {
        assert_eq!(
            builder.detraverse(structure, pointer, merge_types, labels),
            Err(TopDagError::CorruptDecode)
        );
        // the builder holds what it held
        assert!(builder.get_IO_tree().unwrap().equals(&tree));
    }
}

#[test]
fn what_is_left_over_is_ignored() {
    let mut builder = TopTreeBuilder::new(None);
    let done = builder.detraverse(
        vec![false, false, true, true],
        vec![0, 1, 7, 7],
        vec![2],
        names(&["p", "q"]),
    );
    assert_eq!(done, Ok(()));
    assert_eq!(
        builder.clusters(),
        vec![Cluster { merge_type: MergeType::DE, first_child: 0, second_child: 1 }]
    );
}

#[test]
fn a_pointer_to_a_finished_cluster_is_resolved() {
    let mut builder = TopTreeBuilder::new(None);
    // place 0: AB(first: place 1, second: entry -> place 1); place 1: DE(p, q)
    let done = builder.detraverse(
        vec![true, false, false, false],
        vec![2 + 1, 0, 1],
        vec![0, 2],
        names(&["p", "q"]),
    );
    assert_eq!(done, Ok(()));
    assert_eq!(
        builder.clusters(),
        vec![
            Cluster { merge_type: MergeType::DE, first_child: 0, second_child: 1 },
            Cluster { merge_type: MergeType::AB, first_child: 2, second_child: 2 },
        ]
    );
    assert_eq!(builder.root(), 3);
}

#[test]
fn a_flat_form_has_one_entry_more_than_merge_types() {
    let tree = node(
        "r",
        vec![
            node("g", vec![leaf("b"), leaf("b")]),
            node("g", vec![leaf("b"), leaf("b")]),
            node("h", vec![leaf("c")]),
        ],
    );
    let builder = TopTreeBuilder::new_from_IO_tree(tree, None).unwrap();
    let (structure, pointer, merge_types, labels) = builder.traverse();
    assert_eq!(merge_types.len(), builder.clusters().len());
    assert_eq!(structure.len(), 2 * merge_types.len());
    assert_eq!(pointer.len(), merge_types.len() + 1);
    assert_eq!(structure.iter().filter(|bit| **bit).count(), merge_types.len() - 1);
    assert!(merge_types.iter().all(|code| *code < 3));
    assert_eq!(labels, builder.labels());
}
