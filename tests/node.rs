use merkle::tree::node::{Node, PathStep};
use merkle::tree::{Tree, TreeError};
use sha2::{Digest, Sha256};

fn sha(data: &[u8]) -> [u8; 32] {
    Sha256::digest(data).into()
}

fn pair(left: &[u8; 32], right: &[u8; 32]) -> [u8; 32] {
    let mut buf = Vec::new();
    buf.extend_from_slice(left);
    buf.extend_from_slice(right);
    sha(&buf)
}

fn climb(leaf: [u8; 32], path: &[PathStep]) -> [u8; 32] {
    let mut cur = leaf;
    for step in path {
        cur = if step.sibling_is_left {
            pair(&step.sibling, &cur)
        } else {
            pair(&cur, &step.sibling)
        };
    }
    cur
}

#[test]
fn new_leaf_has_no_children() {
    let n = Node::new_leaf([7; 32]);
    assert!(n.leaf);
    assert_eq!(n.value, [7; 32]);
    assert!(n.left.is_none() && n.right.is_none());
}

#[test]
fn new_branch_hashes_left_then_right() {
    let l = Node::new_leaf(sha(&[1]));
    let r = Node::new_leaf(sha(&[2]));
    let b = Node::new_branch(Box::new(l), Box::new(r));
    assert!(!b.leaf);
    assert_eq!(b.value, pair(&sha(&[1]), &sha(&[2])));
    assert_ne!(b.value, pair(&sha(&[2]), &sha(&[1])));
    assert_eq!(b.left.as_ref().unwrap().value, sha(&[1]));
    assert_eq!(b.right.as_ref().unwrap().value, sha(&[2]));
}

#[test]
fn building_from_no_items_fails() {
    assert!(matches!(Node::from_leaves(vec![]), Err(TreeError::EmptyInput)));
}

#[test]
fn single_item_tree_is_one_leaf() {
    let root = Node::from_leaves(vec![&[1, 2, 3]]).unwrap();
    assert!(root.leaf);
    assert_eq!(root.value, sha(&[1, 2, 3]));
    assert!(root.left.is_none() && root.right.is_none());
}

#[test]
fn three_items_match_one_commit_of_the_accumulator() {
    let items: Vec<&[u8]> = vec![&[1, 2, 3], &[4, 5, 6], &[7, 8, 9]];
    let root = Node::from_leaves(items.clone()).unwrap();
    let mut acc = Tree::new();
    for item in &items {
        acc.insert(item);
    }
    acc.commit();
    assert_eq!(acc.root(), Ok(root.value));
    let (a, b, c) = (sha(&[1, 2, 3]), sha(&[4, 5, 6]), sha(&[7, 8, 9]));
    assert_eq!(root.value, pair(&pair(&a, &b), &c));
}

#[test]
fn four_items_match_two_commits_of_the_accumulator() {
    let root = Node::from_leaves(vec![&[1, 2, 3], &[4, 5, 6], &[7, 8, 9], &[10, 11, 12]]).unwrap();
    let mut acc = Tree::new();
    acc.insert(&[1, 2, 3]);
    acc.insert(&[4, 5, 6]);
    acc.insert(&[7, 8, 9]);
    acc.commit();
    acc.insert(&[10, 11, 12]);
    acc.commit();
    assert_eq!(acc.root(), Ok(root.value));
}

#[test]
fn building_twice_gives_the_same_root() {
    let items: Vec<&[u8]> = vec![&[9], &[8, 8], &[7, 7, 7], &[], &[5]];
    let a = Node::from_leaves(items.clone()).unwrap();
    let b = Node::from_leaves(items).unwrap();
    assert_eq!(a.value, b.value);
}

#[test]
fn reversed_items_give_another_root() {
    let a = Node::from_leaves(vec![&[1], &[2], &[3], &[4]]).unwrap();
    let b = Node::from_leaves(vec![&[4], &[3], &[2], &[1]]).unwrap();
    assert_ne!(a.value, b.value);
}

#[test]
fn every_path_leads_back_to_the_root() {
    for n in 1u8..=9 {
        let items: Vec<Vec<u8>> = (0..n).map(|i| vec![i]).collect();
        let refs: Vec<&[u8]> = items.iter().map(|v| v.as_slice()).collect();
        let root = Node::from_leaves(refs).unwrap();
        for (i, item) in items.iter().enumerate() {
            let path = root.proof_path(i).unwrap();
            assert_eq!(climb(sha(item), &path), root.value);
        }
        assert!(root.proof_path(n as usize).is_none());
    }
}

#[test]
fn path_of_three_items() {
    let root = Node::from_leaves(vec![&[1], &[2], &[3]]).unwrap();
    let (a, b, c) = (sha(&[1]), sha(&[2]), sha(&[3]));
    let path = root.proof_path(2).unwrap();
    assert_eq!(path.len(), 1);
    assert_eq!(path[0].sibling, pair(&a, &b));
    assert!(path[0].sibling_is_left);
    let path = root.proof_path(1).unwrap();
    assert_eq!(path.len(), 2);
    assert_eq!(path[0].sibling, a);
    assert!(path[0].sibling_is_left);
    assert_eq!(path[1].sibling, c);
    assert!(!path[1].sibling_is_left);
}

#[test]
fn path_index_out_of_range_is_none() {
    let root = Node::from_leaves(vec![&[1]]).unwrap();
    assert!(root.proof_path(0).unwrap().is_empty());
    assert!(root.proof_path(1).is_none());
    assert!(root.proof_path(usize::MAX).is_none());
}
