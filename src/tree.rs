//! The layered accumulator: leaves are buffered, then folded into layers.
pub mod node;

use vstd::prelude::*;
use crate::hash::{bottom_layer, lemma_build_layers_bottom, build_layers, hash_pair, layers_from, lemma_layers_from_ends, parent_layer, root_of, sha256, sha256_of, leaf_digests};

verus! {

/// Failure to produce a root.
#[derive(Debug, Clone, Copy, PartialEq, Eq, Structural)]
pub enum TreeError {
    /// There is no leaf to build a root from.
    EmptyInput,
}

/// One digest of a layer.
#[derive(Debug, Clone, Copy)]
pub struct Node {
    pub value: [u8; 32],
}

/// The digests held by a sequence of nodes, in order.
pub open spec fn values(nodes: Seq<Node>) -> Seq<Seq<u8>> {
    nodes.map_values(|n: Node| n.value@)
}

/// The digests held by a sequence of layers of nodes.
pub open spec fn layer_values(layers: Seq<Vec<Node>>) -> Seq<Seq<Seq<u8>>> {
    layers.map_values(|l: Vec<Node>| values(l@))
}

/// The layers of an accumulator that started empty and then, for each batch
/// in turn, inserted the batch's items and committed.
pub open spec fn layers_after_batches(batches: Seq<Seq<Seq<u8>>>) -> Seq<Seq<Seq<u8>>>
    decreases batches.len(),
{
    if batches.len() == 0 {
        Seq::empty()
    } else {
        let before = layers_after_batches(batches.drop_last());
        build_layers(bottom_layer(before) + leaf_digests(batches.last()))
    }
}

/// However a list of items is split into consecutive batches of inserts,
/// each followed by a commit, the accumulator ends with the items' digests,
/// in order, as its leaves, and with exactly the layers built over all of
/// them at once.
pub proof fn lemma_batching_is_invisible(batches: Seq<Seq<Seq<u8>>>)
    ensures
        layers_after_batches(batches) == build_layers(leaf_digests(batches.flatten())),
        bottom_layer(layers_after_batches(batches)) == leaf_digests(batches.flatten()),
    decreases batches.len(),
{
    if batches.len() > 0 {
        let init = batches.drop_last();
        lemma_batching_is_invisible(init);
        assert(batches == init.push(batches.last()));
        init.lemma_flatten_push(batches.last());
        assert(leaf_digests(init.flatten()) + leaf_digests(batches.last())
            =~= leaf_digests(init.flatten() + batches.last()));
    }
    lemma_build_layers_bottom(leaf_digests(batches.flatten()));
}

/// Compares two digests byte by byte.
fn digest_eq(a: &[u8; 32], b: &[u8; 32]) -> (r: bool)
    ensures
        r == (a@ == b@),
{
    for i in 0..32
        invariant
            a@.subrange(0, i as int) == b@.subrange(0, i as int),
    {
        if a[i] != b[i] {
            assert(a@[i as int] != b@[i as int]);
            return false;
        }
        assert(a@.subrange(0, i + 1) == a@.subrange(0, i as int).push(a@[i as int]));
        assert(b@.subrange(0, i + 1) == b@.subrange(0, i as int).push(b@[i as int]));
    }
    assert(a@ == a@.subrange(0, 32));
    assert(b@ == b@.subrange(0, 32));
    true
}

impl Node {
    /// A leaf node holding the digest of `value`.
    pub fn new(value: &[u8]) -> (r: Node)
        ensures
            r.value@ == sha256_of(value@),
    {
        let value = sha256(value);
        Node { value }
    }
}

/// The layer above `layer`, as nodes: each pair of adjacent nodes is hashed
/// left before right, and an unpaired last node is promoted unchanged.
fn parent_nodes(layer: &Vec<Node>) -> (r: Vec<Node>)
    ensures
        values(r@) == parent_layer(values(layer@)),
{
    let ghost below = values(layer@);
    let mut next: Vec<Node> = Vec::new();
    let n = layer.len();
    let half = n / 2 + n % 2;
    let mut j: usize = 0;
    while j < half
        invariant
            n == layer@.len(),
            half == (n + 1) / 2,
            below == values(layer@),
            j <= half,
            next@.len() == j,
            forall|k: int| 0 <= k < j ==> #[trigger] values(next@)[k] == parent_layer(below)[k],
        decreases half - j,
    {
        let i = 2 * j;
        let ghost prev = values(next@);
        if i + 1 < n {
            let value = hash_pair(&layer[i].value, &layer[i + 1].value);
            next.push(Node { value });
        } else {
            next.push(layer[i]);
        }
        assert(values(next@) =~= prev.push(parent_layer(below)[j as int]));
        j = j + 1;
    }
    assert(values(next@) =~= parent_layer(below));
    next
}

/// An accumulator of leaves: committed leaves are held in layers, layer 0
/// being the leaves and each further layer the parents of the one below;
/// inserted leaves wait in a buffer until the next commit.
#[derive(Debug, Clone)]
pub struct Tree {
    nodes: Vec<Vec<Node>>,
    leaves_cache: Vec<Node>,
}

impl Tree {
    /// The committed layers, leaves first.
    pub closed spec fn layers(&self) -> Seq<Seq<Seq<u8>>> {
        layer_values(self.nodes@)
    }

    /// The leaves inserted since the last commit, in order.
    pub closed spec fn pending(&self) -> Seq<Seq<u8>> {
        values(self.leaves_cache@)
    }

    /// The committed leaves, in order of insertion.
    pub open spec fn leaves(&self) -> Seq<Seq<u8>> {
        bottom_layer(self.layers())
    }

    /// The layers are exactly those of the tree over the committed leaves.
    pub open spec fn wf(&self) -> bool {
        self.layers() == build_layers(self.leaves())
    }

    /// An empty accumulator: no layers, no buffered leaves.
    pub fn new() -> (r: Tree)
        ensures
            r.wf(),
            r.layers() == Seq::<Seq<Seq<u8>>>::empty(),
            r.pending() == Seq::<Seq<u8>>::empty(),
    {
        let r = Tree { nodes: Vec::new(), leaves_cache: Vec::new() };
        assert(r.layers() == Seq::<Seq<Seq<u8>>>::empty());
        assert(r.pending() == Seq::<Seq<u8>>::empty());
        r
    }

    fn from(nodes: Vec<Vec<Node>>) -> (r: Tree)
        ensures
            r.layers() == layer_values(nodes@),
            r.pending() == Seq::<Seq<u8>>::empty(),
    {
        let r = Tree { nodes, leaves_cache: Vec::new() };
        assert(r.pending() == Seq::<Seq<u8>>::empty());
        r
    }

    /// Builds every layer over `leaves`, which it empties. Leaves that are
    /// not there give no layers at all.
    pub fn from_leaf_nodes(leaves: &mut Vec<Node>) -> (r: Tree)
        ensures
            r.wf(),
            r.layers() == build_layers(values(old(leaves)@)),
            r.leaves() == values(old(leaves)@),
            r.pending() == Seq::<Seq<u8>>::empty(),
            final(leaves)@ == Seq::<Node>::empty(),
    {
        let mut tree: Vec<Vec<Node>> = Vec::new();
        let mut current_layer: Vec<Node> = Vec::new();
        current_layer.append(leaves);
        let ghost all = values(current_layer@);
        if current_layer.len() == 0 {
            assert(layer_values(tree@) == build_layers(all));
            return Tree::from(tree);
        }
        while current_layer.len() > 1
            invariant
                current_layer@.len() >= 1,
                layer_values(tree@) + layers_from(values(current_layer@)) == layers_from(all),
            decreases current_layer@.len(),
        {
            let next = parent_nodes(&current_layer);
            let ghost cur = values(current_layer@);
            let ghost before = layer_values(tree@);
            tree.push(current_layer);
            assert(layer_values(tree@) == before.push(cur));
            assert(layers_from(cur) == seq![cur] + layers_from(parent_layer(cur)));
            assert(layer_values(tree@) + layers_from(values(next@))
                == before + layers_from(cur));
            current_layer = next;
        }
        let ghost last = values(current_layer@);
        let ghost before = layer_values(tree@);
        tree.push(current_layer);
        assert(layer_values(tree@) == before.push(last));
        assert(layer_values(tree@) == layers_from(all));
        proof {
            lemma_layers_from_ends(all);
        }
        Tree::from(tree)
    }

    /// Builds every layer over the digests of `leaves`, in order.
    pub fn from_leaves(leaves: Vec<&[u8]>) -> (r: Tree)
        ensures
            r.wf(),
            r.layers() == build_layers(leaf_digests(leaves@.map_values(|x: &[u8]| x@))),
            r.pending() == Seq::<Seq<u8>>::empty(),
    {
        let ghost items = leaves@.map_values(|x: &[u8]| x@);
        let mut nodes: Vec<Node> = Vec::new();
        for i in 0..leaves.len()
            invariant
                items == leaves@.map_values(|x: &[u8]| x@),
                values(nodes@) == leaf_digests(items).subrange(0, i as int),
        {
            let node = Node::new(leaves[i]);
            let ghost prev = values(nodes@);
            nodes.push(node);
            assert(values(nodes@) =~= prev.push(node.value@));
            assert(values(nodes@) =~= leaf_digests(items).subrange(0, i + 1));
        }
        assert(values(nodes@) =~= leaf_digests(items));
        Tree::from_leaf_nodes(&mut nodes)
    }

    /// Buffers the digest of `value` as a leaf for the next commit.
    pub fn insert(&mut self, value: &[u8])
        ensures
            final(self).layers() == old(self).layers(),
            final(self).pending() == old(self).pending().push(sha256_of(value@)),
    {
        self.leaves_cache.push(Node::new(value));
        assert(values(self.leaves_cache@) == old(self).pending().push(sha256_of(value@)));
    }

    /// Appends the buffered leaves to the committed ones, empties the buffer
    /// and recomputes every layer above the leaves. With nothing buffered it
    /// changes nothing.
    pub fn commit(&mut self)
        requires
            old(self).wf(),
        ensures
            final(self).wf(),
            final(self).leaves() == old(self).leaves() + old(self).pending(),
            final(self).layers() == build_layers(old(self).leaves() + old(self).pending()),
            final(self).pending() == Seq::<Seq<u8>>::empty(),
            old(self).pending().len() == 0 ==> final(self).layers() == old(self).layers(),
    {
        if self.leaves_cache.len() == 0 {
            assert(old(self).leaves() + old(self).pending() == old(self).leaves());
            assert(self.pending() == Seq::<Seq<u8>>::empty());
            return;
        }
        let mut all: Vec<Node> = Vec::new();
        if self.nodes.len() > 0 {
            all.append(&mut self.nodes[0]);
        }
        assert(values(all@) == old(self).leaves());
        all.append(&mut self.leaves_cache);
        assert(values(all@) == old(self).leaves() + old(self).pending());
        let built = Tree::from_leaf_nodes(&mut all);
        *self = built;
    }

    /// The root digest of the committed leaves; `EmptyInput` when none is
    /// committed.
    pub fn root(&self) -> (r: Result<[u8; 32], TreeError>)
        requires
            self.wf(),
        ensures
            self.leaves().len() == 0 <==> r == Err::<[u8; 32], TreeError>(TreeError::EmptyInput),
            r is Ok ==> r->Ok_0@ == root_of(self.leaves()),
    {
        if self.nodes.len() == 0 {
            return Err(TreeError::EmptyInput);
        }
        proof {
            assert(self.layers().len() == self.nodes@.len());
            assert(self.leaves().len() >= 1);
            lemma_layers_from_ends(self.leaves());
            assert(self.layers().last() == values(self.nodes@.last()@));
        }
        let top = &self.nodes[self.nodes.len() - 1];
        assert(values(top@).len() == 1);
        assert(values(top@)[0] == root_of(self.leaves()));
        assert(values(top@)[0] == top@[0].value@);
        Ok(top[0].value)
    }
}

impl PartialEq for Node {
    fn eq(&self, other: &Node) -> (r: bool) {
        digest_eq(&self.value, &other.value)
    }
}

impl vstd::std_specs::cmp::PartialEqSpecImpl for Node {
    open spec fn obeys_eq_spec() -> bool {
        true
    }

    open spec fn eq_spec(&self, other: &Node) -> bool {
        self.value@ == other.value@
    }
}

/// Compares two layers digest by digest.
fn layer_eq(a: &Vec<Node>, b: &Vec<Node>) -> (r: bool)
    ensures
        r == (values(a@) == values(b@)),
{
    if a.len() != b.len() {
        assert(values(a@).len() != values(b@).len());
        return false;
    }
    for i in 0..a.len()
        invariant
            a@.len() == b@.len(),
            forall|k: int| 0 <= k < i ==> #[trigger] values(a@)[k] == values(b@)[k],
    {
        if !digest_eq(&a[i].value, &b[i].value) {
            assert(values(a@)[i as int] != values(b@)[i as int]);
            return false;
        }
    }
    assert(values(a@) =~= values(b@));
    true
}

impl PartialEq for Tree {
    fn eq(&self, other: &Tree) -> (r: bool) {
        if self.nodes.len() != other.nodes.len() {
            assert(self.layers().len() != other.layers().len());
            return false;
        }
        for k in 0..self.nodes.len()
            invariant
                self.nodes@.len() == other.nodes@.len(),
                forall|j: int| 0 <= j < k ==> #[trigger] self.layers()[j] == other.layers()[j],
        {
            if !layer_eq(&self.nodes[k], &other.nodes[k]) {
                assert(self.layers()[k as int] != other.layers()[k as int]);
                return false;
            }
        }
        assert(self.layers() =~= other.layers());
        true
    }
}

impl vstd::std_specs::cmp::PartialEqSpecImpl for Tree {
    open spec fn obeys_eq_spec() -> bool {
        true
    }

    open spec fn eq_spec(&self, other: &Tree) -> bool {
        self.layers() == other.layers()
    }
}

} // verus!
