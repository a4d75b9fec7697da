//! The owned binary hash tree, built once from a fixed list of items.
use vstd::prelude::*;
use crate::hash::{build_layers, combine, hash_pair, leaf_digests, parent_layer, root_of, sha256, sha256_of};
use crate::tree::TreeError;

verus! {

/// A node of a hash tree. A leaf holds the digest of one item; an interior
/// node owns its two children and holds the digest of their digests.
pub struct Node {
    pub leaf: bool,
    pub value: [u8; 32],
    pub left: Option<Box<Node>>,
    pub right: Option<Box<Node>>,
}

/// The digests held by a sequence of nodes, in order.
pub open spec fn node_values(nodes: Seq<Node>) -> Seq<Seq<u8>> {
    nodes.map_values(|n: Node| n.value@)
}

/// The leaf digests under a sequence of nodes, left to right.
pub open spec fn flat_leaves(nodes: Seq<Node>) -> Seq<Seq<u8>>
    decreases nodes.len(),
{
    if nodes.len() == 0 {
        Seq::empty()
    } else {
        flat_leaves(nodes.drop_last()) + nodes.last().leaf_values()
    }
}

/// Every node of the sequence is well formed.
pub open spec fn all_wf(nodes: Seq<Node>) -> bool {
    forall|k: int| 0 <= k < nodes.len() ==> (#[trigger] nodes[k]).wf()
}

impl Node {
    /// A leaf has no children; an interior node has two well-formed
    /// children and holds the digest of their digests, left before right.
    pub open spec fn wf(&self) -> bool
        decreases self,
    {
        if self.leaf {
            self.left is None && self.right is None
        } else {
            match self.left {
                Some(l) => match self.right {
                    Some(r) => l.wf() && r.wf() && self.value@ == combine(l.value@, r.value@),
                    None => false,
                },
                None => false,
            }
        }
    }

    /// The leaf digests under this node, left to right.
    pub open spec fn leaf_values(&self) -> Seq<Seq<u8>>
        decreases self,
    {
        if self.leaf {
            seq![self.value@]
        } else {
            match self.left {
                Some(l) => match self.right {
                    Some(r) => l.leaf_values() + r.leaf_values(),
                    None => Seq::empty(),
                },
                None => Seq::empty(),
            }
        }
    }

    /// A leaf holding the digest `value`.
    pub fn new_leaf(value: [u8; 32]) -> (r: Node)
        ensures
            r.wf(),
            r.leaf,
            r.value == value,
            r.left is None,
            r.right is None,
            r.leaf_values() == seq![value@],
    {
        Node { value, left: None, right: None, leaf: true }
    }

    /// The parent of `left` and `right`, holding the digest of their
    /// digests, left before right.
    pub fn new_branch(left: Box<Node>, right: Box<Node>) -> (r: Node)
        ensures
            !r.leaf,
            r.value@ == combine(left.value@, right.value@),
            r.left == Some(left),
            r.right == Some(right),
            left.wf() && right.wf() ==> r.wf(),
            r.leaf_values() == left.leaf_values() + right.leaf_values(),
    {
        let value = hash_pair(&left.value, &right.value);
        Node { value, left: Some(left), right: Some(right), leaf: false }
    }
}

/// The layer above `layer`: adjacent nodes become the two children of a new
/// parent, left to right, and an unpaired last node is promoted unchanged.
fn pair_up(layer: Vec<Node>) -> (r: Vec<Node>)
    requires
        all_wf(layer@),
    ensures
        all_wf(r@),
        node_values(r@) == parent_layer(node_values(layer@)),
        flat_leaves(r@) == flat_leaves(layer@),
        layer@.len() >= 2 ==> !r@[0].leaf,
{
    let ghost orig = layer@;
    let ghost vals = node_values(orig);
    let n = layer.len();
    let mut rest = layer;
    let mut rev: Vec<Node> = Vec::new();
    while rest.len() > 0
        invariant
            n == orig.len(),
            rest@ == orig.subrange(0, rest@.len() as int),
            rev@.len() + rest@.len() == n,
            forall|k: int| 0 <= k < rev@.len() ==> #[trigger] rev@[k] == orig[n - 1 - k],
        decreases rest@.len(),
    {
        if let Some(x) = rest.pop() {
            rev.push(x);
        }
    }
    let mut next: Vec<Node> = Vec::new();
    let mut t: usize = 0;
    while rev.len() > 0
        invariant
            n == orig.len(),
            vals == node_values(orig),
            all_wf(orig),
            rev@.len() + t == n,
            forall|k: int| 0 <= k < rev@.len() ==> #[trigger] rev@[k] == orig[n - 1 - k],
            rev@.len() > 0 ==> t == 2 * next@.len(),
            next@.len() == (t + 1) / 2,
            all_wf(next@),
            forall|k: int| 0 <= k < next@.len() ==> #[trigger] node_values(next@)[k] == parent_layer(vals)[k],
            flat_leaves(next@) == flat_leaves(orig.subrange(0, t as int)),
            n >= 2 && next@.len() > 0 ==> !next@[0].leaf,
        decreases rev@.len(),
    {
        let ghost prev = next@;
        let ghost t0 = t as int;
        proof {
            lemma_flat_push(orig.subrange(0, t0), orig[t0]);
            assert(orig.subrange(0, t0 + 1) == orig.subrange(0, t0).push(orig[t0]));
        }
        if let Some(left) = rev.pop() {
            t = t + 1;
            if let Some(right) = rev.pop() {
                t = t + 1;
                proof {
                    lemma_flat_push(orig.subrange(0, t0 + 1), orig[t0 + 1]);
                    assert(orig.subrange(0, t0 + 2) == orig.subrange(0, t0 + 1).push(orig[t0 + 1]));
                }
                let parent = Node::new_branch(Box::new(left), Box::new(right));
                next.push(parent);
                proof {
                    lemma_flat_push(prev, parent);
                    assert(flat_leaves(next@) =~= flat_leaves(orig.subrange(0, t as int)));
                }
            } else {
                next.push(left);
                proof {
                    lemma_flat_push(prev, left);
                }
            }
            assert(node_values(next@) =~= node_values(prev).push(next@.last().value@));
        }
    }
    assert(node_values(next@) =~= parent_layer(vals));
    assert(orig.subrange(0, n as int) == orig);
    next
}

impl Node {
    /// Builds the tree over the digests of `items`: leaves in order, then
    /// layer upon layer of parents until one node, the root, is left.
    /// No items give `EmptyInput`.
    pub fn from_leaves(items: Vec<&[u8]>) -> (r: Result<Node, TreeError>)
        ensures
            items@.len() == 0 <==> r == Err::<Node, TreeError>(TreeError::EmptyInput),
            r is Ok ==> ({
                let root = r->Ok_0;
                let digests = leaf_digests(items@.map_values(|x: &[u8]| x@));
                &&& root.wf()
                &&& root.value@ == root_of(digests)
                &&& root.leaf_values() == digests
                &&& (root.leaf <==> items@.len() == 1)
            }),
    {
        if items.len() == 0 {
            return Err(TreeError::EmptyInput);
        }
        let ghost digests = leaf_digests(items@.map_values(|x: &[u8]| x@));
        let mut layer: Vec<Node> = Vec::new();
        for i in 0..items.len()
            invariant
                digests == leaf_digests(items@.map_values(|x: &[u8]| x@)),
                all_wf(layer@),
                node_values(layer@) == digests.subrange(0, i as int),
                flat_leaves(layer@) == digests.subrange(0, i as int),
                forall|k: int| 0 <= k < layer@.len() ==> (#[trigger] layer@[k]).leaf,
        {
            let node = Node::new_leaf(sha256(items[i]));
            assert(node.value@ == digests[i as int]);
            let ghost prev = layer@;
            layer.push(node);
            proof {
                lemma_flat_push(prev, node);
            }
            assert(node_values(layer@) =~= digests.subrange(0, i + 1));
            assert(flat_leaves(layer@) =~= digests.subrange(0, i + 1));
        }
        assert(node_values(layer@) =~= digests);
        assert(flat_leaves(layer@) =~= digests);
        let ghost mut paired = false;
        while layer.len() > 1
            invariant
                layer@.len() >= 1,
                all_wf(layer@),
                root_of(node_values(layer@)) == root_of(digests),
                flat_leaves(layer@) == digests,
                !paired ==> layer@.len() == items@.len(),
                paired ==> items@.len() >= 2,
                layer@[0].leaf <==> !paired,
            decreases layer@.len(),
        {
            let ghost before = node_values(layer@);
            layer = pair_up(layer);
            proof {
                paired = true;
            }
            assert(root_of(before) == root_of(parent_layer(before)));
        }
        let ghost last = layer@;
        match layer.pop() {
            Some(root) => {
                proof {
                    assert(last.drop_last() =~= Seq::<Node>::empty());
                    assert(node_values(last) =~= seq![root.value@]);
                    assert(flat_leaves(last.drop_last()) == Seq::<Seq<u8>>::empty());
                    assert(flat_leaves(last) =~= root.leaf_values());
                }
                Ok(root)
            },
            None => Err(TreeError::EmptyInput),
        }
    }
}

/// One step of a membership path: the sibling's digest and on which side it
/// stands.
#[derive(Debug, Clone, Copy)]
pub struct PathStep {
    pub sibling: [u8; 32],
    pub sibling_is_left: bool,
}

/// The digest one level up from `current` along `step`.
pub open spec fn step_up(current: Seq<u8>, step: PathStep) -> Seq<u8> {
    if step.sibling_is_left {
        combine(step.sibling@, current)
    } else {
        combine(current, step.sibling@)
    }
}

/// The digest reached from `leaf` by following `path`, first step first.
pub open spec fn path_root(leaf: Seq<u8>, path: Seq<PathStep>) -> Seq<u8>
    decreases path.len(),
{
    if path.len() == 0 {
        leaf
    } else {
        step_up(path_root(leaf, path.drop_last()), path.last())
    }
}

/// The path from the leaf at `index` under `node` up to `node`: one step per
/// interior node passed, the step nearest the leaf first.
pub open spec fn path_of(node: Node, index: int) -> Seq<PathStep>
    decreases node,
{
    if node.leaf {
        Seq::empty()
    } else {
        match node.left {
            Some(l) => match node.right {
                Some(r) => if index < l.leaf_values().len() {
                    path_of(*l, index).push(PathStep { sibling: r.value, sibling_is_left: false })
                } else {
                    path_of(*r, index - l.leaf_values().len()).push(
                        PathStep { sibling: l.value, sibling_is_left: true },
                    )
                },
                None => Seq::empty(),
            },
            None => Seq::empty(),
        }
    }
}

/// Following the path of any leaf of a well-formed tree from that leaf's
/// digest reproduces the digest at the top of the tree.
pub proof fn lemma_path_reproduces_root(node: Node, index: int)
    requires
        node.wf(),
        0 <= index < node.leaf_values().len(),
    ensures
        path_root(node.leaf_values()[index], path_of(node, index)) == node.value@,
    decreases node,
{
    if !node.leaf {
        let l = *node.left.unwrap();
        let r = *node.right.unwrap();
        let p = path_of(node, index);
        assert(p.drop_last() == path_of(if index < l.leaf_values().len() { l } else { r },
            if index < l.leaf_values().len() { index } else { index - l.leaf_values().len() }));
        if index < l.leaf_values().len() {
            lemma_path_reproduces_root(l, index);
        } else {
            lemma_path_reproduces_root(r, index - l.leaf_values().len());
        }
    }
}

impl Node {
    /// The path from the leaf at `index` when it stands under this node;
    /// otherwise `index` less the number of leaves under this node.
    fn path_in(&self, index: usize) -> (r: Result<Vec<PathStep>, usize>)
        requires
            self.wf(),
        ensures
            index < self.leaf_values().len() ==> r is Ok && r->Ok_0@ == path_of(*self, index as int),
            index >= self.leaf_values().len() ==> r == Err::<Vec<PathStep>, usize>((index - self.leaf_values().len()) as usize),
        decreases self,
    {
        if self.leaf {
            if index == 0 {
                return Ok(Vec::new());
            } else {
                return Err(index - 1);
            }
        }
        match (&self.left, &self.right) {
            (Some(l), Some(r)) => match l.path_in(index) {
                Ok(mut path) => {
                    path.push(PathStep { sibling: r.value, sibling_is_left: false });
                    Ok(path)
                },
                Err(rest) => match r.path_in(rest) {
                    Ok(mut path) => {
                        path.push(PathStep { sibling: l.value, sibling_is_left: true });
                        Ok(path)
                    },
                    Err(rest) => Err(rest),
                },
            },
            _ => Err(index),
        }
    }

    /// The membership path of the leaf at `index`, leaf end first, or
    /// `None` when the tree has no leaf there.
    pub fn proof_path(&self, index: usize) -> (r: Option<Vec<PathStep>>)
        requires
            self.wf(),
        ensures
            index >= self.leaf_values().len() <==> r is None,
            r is Some ==> r->0@ == path_of(*self, index as int),
            r is Some ==> path_root(self.leaf_values()[index as int], r->0@) == self.value@,
    {
        proof {
            if index < self.leaf_values().len() {
                lemma_path_reproduces_root(*self, index as int);
            }
        }
        match self.path_in(index) {
            Ok(path) => Some(path),
            Err(_) => None,
        }
    }
}

/// The root built over a list of items depends on the items' bytes alone:
/// two lists with the same bytes, item by item, give the same root and the
/// same layers.
pub proof fn lemma_root_is_deterministic(a: Seq<Seq<u8>>, b: Seq<Seq<u8>>)
    requires
        a == b,
    ensures
        root_of(leaf_digests(a)) == root_of(leaf_digests(b)),
        build_layers(leaf_digests(a)) == build_layers(leaf_digests(b)),
{
}

/// The tree over a single item is that item's digest alone: one layer, and
/// the root is the digest of the item.
pub proof fn lemma_single_item(x: Seq<u8>)
    ensures
        leaf_digests(seq![x]) == seq![sha256_of(x)],
        build_layers(leaf_digests(seq![x])) == seq![seq![sha256_of(x)]],
        root_of(leaf_digests(seq![x])) == sha256_of(x),
{
    assert(leaf_digests(seq![x]) =~= seq![sha256_of(x)]);
}

proof fn lemma_flat_push(nodes: Seq<Node>, x: Node)
    ensures
        flat_leaves(nodes.push(x)) == flat_leaves(nodes) + x.leaf_values(),
{
    assert(nodes.push(x).drop_last() == nodes);
}

} // verus!
