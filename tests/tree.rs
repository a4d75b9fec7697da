use merkle::tree::{Node, Tree, TreeError};
use sha2::{Digest, Sha256};

fn sha(data: &[u8]) -> [u8; 32] {
    Sha256::digest(data).into()
}

fn pair(left: &[u8; 32], right: &[u8; 32]) -> [u8; 32] {
    let mut buf = Vec::new();
    buf.extend_from_slice(left);
    buf.extend_from_slice(right);
    sha(&buf)
}

#[test]
fn test_tree() {
    let mut tree: Tree = Tree::new();
    tree.insert(&[1, 2, 3]);
    tree.insert(&[4, 5, 6]);
    tree.insert(&[7, 8, 9]);

    tree.commit();

    tree.insert(&[10, 11, 12]);

    tree.commit();

    let mut nodes = vec![
        Node::new(&[1, 2, 3]),
        Node::new(&[4, 5, 6]),
        Node::new(&[7, 8, 9]),
        Node::new(&[10, 11, 12]),
    ];

    assert_eq!(Tree::from_leaf_nodes(&mut nodes), tree);
}

#[test]
fn leaf_node_holds_sha256_of_its_bytes() {
    let n = Node::new(b"abc");
    let expected: [u8; 32] = [
        0xba, 0x78, 0x16, 0xbf, 0x8f, 0x01, 0xcf, 0xea, 0x41, 0x41, 0x40, 0xde, 0x5d, 0xae, 0x22,
        0x23, 0xb0, 0x03, 0x61, 0xa3, 0x96, 0x17, 0x7a, 0x9c, 0xb4, 0x10, 0xff, 0x61, 0xf2, 0x00,
        0x15, 0xad,
    ];
    assert_eq!(n.value, expected);
    assert_eq!(Node::new(&[1, 2, 3]).value, sha(&[1, 2, 3]));
}

#[test]
fn from_leaf_nodes_drains_its_input() {
    let mut nodes = vec![Node::new(&[1]), Node::new(&[2])];
    let _ = Tree::from_leaf_nodes(&mut nodes);
    assert!(nodes.is_empty());
}

#[test]
fn root_of_three_leaves_promotes_the_last() {
    let tree = Tree::from_leaves(vec![&[1, 2, 3], &[4, 5, 6], &[7, 8, 9]]);
    let (a, b, c) = (sha(&[1, 2, 3]), sha(&[4, 5, 6]), sha(&[7, 8, 9]));
    assert_eq!(tree.root(), Ok(pair(&pair(&a, &b), &c)));
}

#[test]
fn root_of_four_leaves() {
    let tree = Tree::from_leaves(vec![&[1, 2, 3], &[4, 5, 6], &[7, 8, 9], &[10, 11, 12]]);
    let (a, b) = (sha(&[1, 2, 3]), sha(&[4, 5, 6]));
    let (c, d) = (sha(&[7, 8, 9]), sha(&[10, 11, 12]));
    assert_eq!(tree.root(), Ok(pair(&pair(&a, &b), &pair(&c, &d))));
}

#[test]
fn root_of_single_leaf_is_its_digest() {
    let tree = Tree::from_leaves(vec![&[42]]);
    assert_eq!(tree.root(), Ok(sha(&[42])));
}

#[test]
fn empty_accumulator_has_no_root() {
    let mut tree = Tree::new();
    assert_eq!(tree.root(), Err(TreeError::EmptyInput));
    tree.commit();
    assert_eq!(tree.root(), Err(TreeError::EmptyInput));
    assert_eq!(tree, Tree::new());
    assert_eq!(Tree::from_leaves(vec![]), Tree::new());
}

#[test]
fn commit_without_inserts_changes_nothing() {
    let mut tree = Tree::new();
    tree.insert(&[1]);
    tree.insert(&[2]);
    tree.insert(&[3]);
    tree.commit();
    let before = tree.root();
    tree.commit();
    assert_eq!(tree.root(), before);
    assert_eq!(tree, Tree::from_leaves(vec![&[1], &[2], &[3]]));
}

#[test]
fn insert_alone_commits_nothing() {
    let mut tree = Tree::new();
    tree.insert(&[1]);
    assert_eq!(tree.root(), Err(TreeError::EmptyInput));
    assert_eq!(tree, Tree::new());
}

#[test]
fn batching_does_not_change_the_layers() {
    let items: Vec<Vec<u8>> = (0u8..11).map(|i| vec![i, i + 1]).collect();
    let all: Vec<&[u8]> = items.iter().map(|v| v.as_slice()).collect();
    let full = Tree::from_leaves(all);
    for split in [vec![11], vec![1, 10], vec![3, 3, 5], vec![5, 0, 6], vec![1; 11]] {
        let mut tree = Tree::new();
        let mut at = 0;
        for n in split {
            for item in &items[at..at + n] {
                tree.insert(item);
            }
            tree.commit();
            at += n;
        }
        assert_eq!(tree, full);
        assert_eq!(tree.root(), full.root());
    }
}

#[test]
fn reversing_the_leaves_changes_the_root() {
    let forward = Tree::from_leaves(vec![&[1], &[2], &[3]]);
    let backward = Tree::from_leaves(vec![&[3], &[2], &[1]]);
    assert_ne!(forward.root(), backward.root());
    assert_ne!(forward, backward);
}

#[test]
fn differing_trees_are_unequal() {
    let a = Tree::from_leaves(vec![&[1], &[2]]);
    let b = Tree::from_leaves(vec![&[1], &[2], &[3]]);
    let c = Tree::from_leaves(vec![&[1], &[9]]);
    assert_ne!(a, b);
    assert_ne!(a, c);
    assert_eq!(a, Tree::from_leaves(vec![&[1], &[2]]));
}

#[test]
fn nodes_compare_by_digest() {
    assert_eq!(Node::new(&[5]), Node::new(&[5]));
    assert_ne!(Node::new(&[5]), Node::new(&[6]));
}
