//! Bottom-up construction of the hash layers of the Merkle tree.
use vstd::prelude::*;

use crate::hashing::{hash_pair, pair_hash};
use crate::merkle::MerkleError;

verus! {

/// A vector of 32-byte nodes as the sequence of their byte sequences.
pub open spec fn nodes_view(v: Seq<[u8; 32]>) -> Seq<Seq<u8>> {
    Seq::new(v.len(), |i: int| v[i]@)
}

/// A vector of layers as the sequence of their node sequences.
pub open spec fn layers_view(ls: Seq<Vec<[u8; 32]>>) -> Seq<Seq<Seq<u8>>> {
    Seq::new(ls.len(), |k: int| nodes_view(ls[k]@))
}

/// The layer above a given layer: nodes are paired in order and each pair is
/// hashed; the trailing node of an odd-sized layer is paired with itself.
pub open spec fn next_layer(layer: Seq<Seq<u8>>) -> Seq<Seq<u8>> {
    Seq::new((layer.len() + 1) / 2, |i: int| pair_hash(
        layer[2 * i],
        if 2 * i + 1 < layer.len() {
            layer[2 * i + 1]
        } else {
            layer[2 * i]
        },
    ))
}

/// All layers of the tree over the given leaves, bottom first: each layer is
/// followed by the one above it until a single-node layer is reached.
pub open spec fn layers_of(leaves: Seq<Seq<u8>>) -> Seq<Seq<Seq<u8>>>
    decreases leaves.len(),
{
    if leaves.len() <= 1 {
        seq![leaves]
    } else {
        seq![leaves] + layers_of(next_layer(leaves))
    }
}

/// Each layer is exactly half the size of the one below it, rounded up.
pub proof fn lemma_layer_sizes(leaves: Seq<Seq<u8>>, k: int)
    requires
        0 <= k < layers_of(leaves).len() - 1,
    ensures
        layers_of(leaves)[k + 1].len() == (layers_of(leaves)[k].len() + 1) / 2,
    decreases leaves.len(),
{
    if leaves.len() <= 1 {
    } else if k == 0 {
        let next = next_layer(leaves);
        assert(layers_of(leaves)[1] == layers_of(next)[0]);
        if next.len() <= 1 {
            assert(layers_of(next)[0] == next);
        } else {
            assert(layers_of(next)[0] == next);
        }
    } else {
        lemma_layer_sizes(next_layer(leaves), k - 1);
    }
}

/// The tree over a non-empty leaf set ends in a single-node root layer, and
/// every layer below the root holds more than one node.
pub proof fn lemma_layers_shape(leaves: Seq<Seq<u8>>)
    requires
        leaves.len() >= 1,
    ensures
        layers_of(leaves).len() >= 1,
        layers_of(leaves)[0] == leaves,
        layers_of(leaves).last().len() == 1,
        forall|k: int| 0 <= k < layers_of(leaves).len() - 1 ==> #[trigger] layers_of(
            leaves,
        )[k].len() > 1,
        forall|k: int| 0 <= k < layers_of(leaves).len() - 1 ==> layers_of(leaves)[k + 1]
            == next_layer(#[trigger] layers_of(leaves)[k]),
    decreases leaves.len(),
{
    if leaves.len() <= 1 {
    } else {
        lemma_layers_shape(next_layer(leaves));
        let ls = layers_of(leaves);
        let rest = layers_of(next_layer(leaves));
        assert(ls.last() == rest.last());
        assert forall|k: int| 0 <= k < ls.len() - 1 implies #[trigger] ls[k].len() > 1 by {
            if k > 0 {
                assert(ls[k] == rest[k - 1]);
            }
        }
        assert forall|k: int| 0 <= k < ls.len() - 1 implies ls[k + 1] == next_layer(
            #[trigger] ls[k],
        ) by {
            if k > 0 {
                assert(ls[k] == rest[k - 1] && ls[k + 1] == rest[k]);
            }
        }
    }
}

/// The last node of an odd-sized layer is paired with itself: the hash above
/// it combines that node with its own bytes.
pub proof fn lemma_odd_layer_self_pair(layer: Seq<Seq<u8>>)
    requires
        layer.len() > 1,
        layer.len() % 2 == 1,
    ensures
        next_layer(layer).last() == pair_hash(layer.last(), layer.last()),
{
    let n = layer.len() as int;
    assert(next_layer(layer).len() == (n + 1) / 2);
    assert(2 * ((n + 1) / 2 - 1) == n - 1);
}

/// Builds every layer of the Merkle tree over the given leaf hashes, bottom
/// first, failing only on an empty leaf set.
pub fn build_layers(leaves: Vec<[u8; 32]>) -> (r: Result<Vec<Vec<[u8; 32]>>, MerkleError>)
    ensures
        r is Ok <==> leaves@.len() > 0,
        r matches Ok(ls) ==> layers_view(ls@) == layers_of(nodes_view(leaves@)),
        r matches Err(e) ==> e matches MerkleError::InvalidLayer(_),
{
    if leaves.len() == 0 {
        return Err(MerkleError::InvalidLayer(String::from_str(
            "Cannot build tree from empty leaf set",
        )));
    }
    let ghost all = layers_of(nodes_view(leaves@));
    let mut layers: Vec<Vec<[u8; 32]>> = Vec::new();
    let mut current = leaves;
    while current.len() > 1
        invariant
            current@.len() >= 1,
            all == layers_of(nodes_view(leaves@)),
            all =~= layers_view(layers@) + layers_of(nodes_view(current@)),
        decreases current@.len(),
    {
        let ghost cur_nodes = nodes_view(current@);
        let next = combine_layer(&current);
        proof {
            assert(layers_of(cur_nodes) =~= seq![cur_nodes] + layers_of(next_layer(cur_nodes)));
        }
        let ghost old_layers = layers@;
        layers.push(current);
        proof {
            assert(layers_view(layers@) =~= layers_view(old_layers).push(cur_nodes));
            assert(all =~= layers_view(layers@) + layers_of(nodes_view(next@)));
        }
        current = next;
    }
    let ghost cur_nodes = nodes_view(current@);
    let ghost old_layers = layers@;
    layers.push(current);
    proof {
        assert(layers_of(cur_nodes) =~= seq![cur_nodes]);
        assert(layers_view(layers@) =~= layers_view(old_layers).push(cur_nodes));
        assert(layers_view(layers@) =~= all);
    }
    Ok(layers)
}

/// Combines one layer, two nodes at a time, into the layer above it.
fn combine_layer(current: &Vec<[u8; 32]>) -> (next: Vec<[u8; 32]>)
    requires
        current@.len() > 1,
    ensures
        nodes_view(next@) == next_layer(nodes_view(current@)),
        next@.len() == (current@.len() + 1) / 2,
{
    let half = (current.len() - 1) / 2 + 1;
    let mut next: Vec<[u8; 32]> = Vec::new();
    let mut j: usize = 0;
    while j < half
        invariant
            j <= half,
            1 < current@.len() <= usize::MAX,
            half == (current@.len() + 1) / 2,
            nodes_view(next@) =~= next_layer(nodes_view(current@)).subrange(0, j as int),
            next@.len() == j,
        decreases half - j,
    {
        let left = &current[2 * j];
        let right = if 2 * j + 1 < current.len() {
            &current[2 * j + 1]
        } else {
            &current[2 * j]
        };
        let parent = hash_pair(left, right);
        next.push(parent);
        proof {
            assert(nodes_view(next@) =~= next_layer(nodes_view(current@)).subrange(
                0,
                j as int + 1,
            ));
        }
        j = j + 1;
    }
    proof {
        assert(nodes_view(next@) =~= next_layer(nodes_view(current@)));
    }
    next
}

/// The number of hashing operations a build performs over `count` leaves:
/// one per node of every layer above the leaves.
pub open spec fn spec_total_hash_ops(count: int) -> int
    decreases count,
{
    if count <= 1 {
        0
    } else {
        (count + 1) / 2 + spec_total_hash_ops((count + 1) / 2)
    }
}

/// The hashing operations over `count` leaves number at most twice the
/// leaves: the layer sizes at least halve at every level.
proof fn lemma_total_hash_ops_bound(count: int)
    requires
        count >= 0,
    ensures
        0 <= spec_total_hash_ops(count) <= 2 * count,
    decreases count,
{
    if count > 1 {
        lemma_total_hash_ops_bound((count + 1) / 2);
    }
}

/// Counts the hashing operations a tree build over `count` leaves performs.
pub fn total_hash_ops(count: usize) -> (r: usize)
    requires
        count <= usize::MAX / 2,
    ensures
        r as int == spec_total_hash_ops(count as int),
{
    let mut total: usize = 0;
    let mut c = count;
    while c > 1
        invariant
            count <= usize::MAX / 2,
            total + spec_total_hash_ops(c as int) == spec_total_hash_ops(count as int),
            c <= count,
        decreases c,
    {
        proof {
            lemma_total_hash_ops_bound(c as int);
            lemma_total_hash_ops_bound((c as int + 1) / 2);
            lemma_total_hash_ops_bound(count as int);
        }
        let hashes = (c - 1) / 2 + 1;
        total = total + hashes;
        c = hashes;
    }
    total
}

} // verus!
verus! {

/// No layer of the tree holds more nodes than the leaf layer.
pub proof fn lemma_layer_size_bound(leaves: Seq<Seq<u8>>, k: int)
    requires
        leaves.len() >= 1,
        0 <= k < layers_of(leaves).len(),
    ensures
        layers_of(leaves)[k].len() <= leaves.len(),
        layers_of(leaves)[k].len() >= 1,
    decreases leaves.len(),
{
    if leaves.len() <= 1 {
    } else if k == 0 {
    } else {
        lemma_layer_size_bound(next_layer(leaves), k - 1);
    }
}

} // verus!
