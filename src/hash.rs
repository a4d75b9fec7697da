//! The hashing rule shared by both structures.
use vstd::prelude::*;

verus! {

/// The SHA-256 digest of a byte sequence.
pub uninterp spec fn sha256_of(data: Seq<u8>) -> Seq<u8>;

/// Digest of an interior node: the hash of the left digest followed by the
/// right digest.
pub open spec fn combine(left: Seq<u8>, right: Seq<u8>) -> Seq<u8> {
    sha256_of(left + right)
}

/// The leaf digests of a list of items, in order.
pub open spec fn leaf_digests(items: Seq<Seq<u8>>) -> Seq<Seq<u8>> {
    items.map_values(|x: Seq<u8>| sha256_of(x))
}

/// The layer above `layer`: adjacent digests are paired left to right and
/// each pair is combined; an unpaired last digest is promoted unchanged.
pub open spec fn parent_layer(layer: Seq<Seq<u8>>) -> Seq<Seq<u8>> {
    Seq::new(
        ((layer.len() + 1) / 2) as nat,
        |i: int|
            if 2 * i + 1 < layer.len() {
                combine(layer[2 * i], layer[2 * i + 1])
            } else {
                layer[2 * i]
            },
    )
}

/// `layer` followed by every layer above it, up to and including the first
/// layer that holds at most one digest.
pub open spec fn layers_from(layer: Seq<Seq<u8>>) -> Seq<Seq<Seq<u8>>>
    decreases layer.len(),
{
    if layer.len() <= 1 {
        seq![layer]
    } else {
        seq![layer] + layers_from(parent_layer(layer))
    }
}

/// All layers of the tree over `leaves`, leaves first; none for no leaves.
pub open spec fn build_layers(leaves: Seq<Seq<u8>>) -> Seq<Seq<Seq<u8>>> {
    if leaves.len() == 0 {
        Seq::empty()
    } else {
        layers_from(leaves)
    }
}

/// The bottom layer of a sequence of layers; empty when there is none.
pub open spec fn bottom_layer(layers: Seq<Seq<Seq<u8>>>) -> Seq<Seq<u8>> {
    if layers.len() == 0 {
        Seq::empty()
    } else {
        layers[0]
    }
}

/// The root digest of the tree over a non-empty layer of digests.
pub open spec fn root_of(layer: Seq<Seq<u8>>) -> Seq<u8>
    decreases layer.len(),
{
    if layer.len() <= 1 {
        layer[0]
    } else {
        root_of(parent_layer(layer))
    }
}

/// The layers built from a non-empty layer start with it and end with the
/// single root digest.
pub proof fn lemma_layers_from_ends(layer: Seq<Seq<u8>>)
    requires
        layer.len() >= 1,
    ensures
        layers_from(layer).len() >= 1,
        layers_from(layer)[0] == layer,
        layers_from(layer).last() == seq![root_of(layer)],
    decreases layer.len(),
{
    if layer.len() > 1 {
        lemma_layers_from_ends(parent_layer(layer));
    } else {
        assert(layer == seq![layer[0]]);
    }
}

/// The layers built over `leaves` keep them, in order, as their bottom layer.
pub proof fn lemma_build_layers_bottom(leaves: Seq<Seq<u8>>)
    ensures
        bottom_layer(build_layers(leaves)) == leaves,
{
    if leaves.len() > 0 {
        lemma_layers_from_ends(leaves);
    }
}

/// Relies on `digest::Digest::digest` as implemented for `sha2::Sha256`: it
/// returns the 32-byte SHA-256 digest of `data`, which depends on the bytes
/// alone.
#[verifier::external_body]
pub(crate) fn sha256(data: &[u8]) -> (r: [u8; 32])
    ensures
        r@ == sha256_of(data@),
{
    <sha2::Sha256 as digest::Digest>::digest(data).into()
}


/// Hashes two child digests, left before right, into their parent's digest.
pub fn hash_pair(left: &[u8; 32], right: &[u8; 32]) -> (r: [u8; 32])
    ensures
        r@ == combine(left@, right@),
{
    let mut buf: Vec<u8> = Vec::with_capacity(64);
    for i in 0..32
        invariant
            buf@ == left@.subrange(0, i as int),
    {
        buf.push(left[i]);
    }
    for i in 0..32
        invariant
            buf@ == left@ + right@.subrange(0, i as int),
    {
        buf.push(right[i]);
    }
    assert(buf@ == left@ + right@);
    sha256(buf.as_slice())
}

} // verus!
