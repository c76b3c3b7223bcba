//! Build-time preparation of the address store and the flat layer files.
use vstd::prelude::*;

use crate::hashing::{keccak256, keccak256_of};
use crate::merkle::{leaf_hashes_of, node_at, nodes_of, MerkleDb, MerkleError};
use crate::order::{addr_at, addr_count, compare_record, lex_cmp, sorted_addresses};
use crate::tree::nodes_view;

verus! {

/// A vector of 20-byte records as the sequence of their byte sequences.
pub open spec fn addrs_view(v: Seq<[u8; 20]>) -> Seq<Seq<u8>> {
    Seq::new(v.len(), |i: int| v[i]@)
}

/// Strict ascending byte-lexicographic order over a vector of records.
pub open spec fn sorted_addr_vec(v: Seq<[u8; 20]>) -> bool {
    forall|i: int, j: int| 0 <= i < j < v.len() ==> lex_cmp(
        #[trigger] v[i]@,
        #[trigger] v[j]@,
    ) < 0
}

/// Whether some record of the vector holds exactly these bytes.
pub open spec fn addr_present(v: Seq<[u8; 20]>, x: Seq<u8>) -> bool {
    exists|i: int| 0 <= i < v.len() && v[i]@ == x
}

/// Sorts a batch of parsed addresses into strictly ascending order,
/// dropping duplicates: exactly the records of the input remain, each once.
pub fn prepare_addresses(input: Vec<[u8; 20]>) -> (r: Vec<[u8; 20]>)
    ensures
        sorted_addr_vec(r@),
        forall|x: Seq<u8>| addr_present(r@, x) <==> addr_present(input@, x),
        r@.len() <= input@.len(),
{
    let mut r: Vec<[u8; 20]> = Vec::new();
    let mut i: usize = 0;
    while i < input.len()
        invariant
            i <= input@.len(),
            r@.len() <= i,
            sorted_addr_vec(r@),
            forall|x: Seq<u8>| addr_present(r@, x) <==> addr_present(
                input@.subrange(0, i as int),
                x,
            ),
        decreases input@.len() - i,
    {
        let a = input[i];
        let ghost prefix = input@.subrange(0, i as int);
        insert_address(&mut r, a);
        proof {
            assert(input@.subrange(0, i as int + 1) =~= prefix.push(input@[i as int]));
            let ghost sub = input@.subrange(0, i as int + 1);
            assert forall|x: Seq<u8>| addr_present(sub, x) implies (addr_present(prefix, x) || x
                == a@) by {
                let w = choose|w: int| 0 <= w < sub.len() && (#[trigger] sub[w])@ == x;
                if w < i {
                    assert(prefix[w]@ == x);
                }
            }
            assert forall|x: Seq<u8>| addr_present(prefix, x) implies addr_present(sub, x) by {
                let w = choose|w: int| 0 <= w < prefix.len() && (#[trigger] prefix[w])@ == x;
                assert(sub[w]@ == x);
            }
            assert(sub.len() == i + 1);
            assert(sub[i as int] == input@[i as int]);
            assert(a == input@[i as int]);
            assert(addr_present(sub, a@));
        }
        i = i + 1;
    }
    proof {
        assert(input@.subrange(0, input@.len() as int) =~= input@);
    }
    r
}

/// Finds where a record belongs in a sorted vector: the index of the first
/// record that does not sort before it, and whether that record equals it.
fn find_insert_pos(r: &Vec<[u8; 20]>, a: &[u8; 20]) -> (res: (usize, bool))
    ensures
        res.0 <= r@.len(),
        forall|k: int| 0 <= k < res.0 ==> lex_cmp((#[trigger] r@[k])@, a@) < 0,
        res.1 ==> res.0 < r@.len() && r@[res.0 as int]@ == a@,
        !res.1 ==> res.0 == r@.len() || lex_cmp(r@[res.0 as int]@, a@) > 0,
{
    let mut pos: usize = 0;
    while pos < r.len()
        invariant
            pos <= r@.len(),
            forall|k: int| 0 <= k < pos ==> lex_cmp((#[trigger] r@[k])@, a@) < 0,
        decreases r@.len() - pos,
    {
        let c = compare_record(r[pos].as_slice(), a);
        if c == 0 {
            proof {
                crate::order::lemma_lex_eq(r@[pos as int]@, a@);
            }
            return (pos, true);
        }
        if c > 0 {
            return (pos, false);
        }
        pos = pos + 1;
    }
    (pos, false)
}

/// Inserts one record into a sorted, duplicate-free vector, keeping it so.
fn insert_address(r: &mut Vec<[u8; 20]>, a: [u8; 20])
    requires
        sorted_addr_vec(old(r)@),
        old(r)@.len() < usize::MAX,
    ensures
        sorted_addr_vec(final(r)@),
        final(r)@.len() <= old(r)@.len() + 1,
        forall|x: Seq<u8>| addr_present(final(r)@, x) <==> (addr_present(old(r)@, x) || x == a@),
{
    let ghost r0 = r@;
    let (pos, equal) = find_insert_pos(r, &a);
    if equal {
        proof {
            assert(r@[pos as int]@ == a@ && addr_present(r@, a@));
        }
        return ;
    }
    let ghost posg = pos as int;
    r.insert(pos, a);
    proof {
        assert(r@ =~= r0.insert(posg, a));
        assert(r@.len() == r0.len() + 1);
        assert(forall|k: int| 0 <= k < posg ==> r@[k] == r0[k]);
        assert(r@[posg] == a);
        assert(forall|k: int| posg < k < r@.len() ==> r@[k] == r0[k - 1]);
        assert forall|i: int, j: int| 0 <= i < j < r@.len() implies lex_cmp(
            (#[trigger] r@[i])@,
            (#[trigger] r@[j])@,
        ) < 0 by {
            if i < posg && j == posg {
            } else if i == posg && j > posg {
                lemma_lex_gt_flip(r0[posg]@, a@);
                if j - 1 > posg {
                    crate::order::lemma_lex_trans(a@, r0[posg]@, r0[j - 1]@);
                }
            } else if i < posg && j > posg {
            } else if i > posg && j > posg {
            }
        }
        assert forall|x: Seq<u8>| addr_present(r@, x) implies (addr_present(r0, x) || x == a@) by {
            let w = choose|w: int| 0 <= w < r@.len() && (#[trigger] r@[w])@ == x;
            if w < posg {
                assert(r0[w]@ == x);
            } else if w > posg {
                assert(r0[w - 1]@ == x);
            }
        }
        assert forall|x: Seq<u8>| addr_present(r0, x) || x == a@ implies addr_present(r@, x) by {
            if x == a@ {
                assert(r@[posg]@ == x);
            } else {
                let w = choose|w: int| 0 <= w < r0.len() && (#[trigger] r0[w])@ == x;
                if w < posg {
                    assert(r@[w]@ == x);
                } else {
                    assert(r@[w + 1]@ == x);
                }
            }
        }
    }
}

/// When `b` sorts after `a`, `a` sorts before `b`.
proof fn lemma_lex_gt_flip(b: Seq<u8>, a: Seq<u8>)
    requires
        lex_cmp(b, a) > 0,
    ensures
        lex_cmp(a, b) < 0,
{
    crate::order::lemma_lex_antisym(a, b);
}

/// Flattens sorted address records into the byte image of the store file.
pub fn addresses_to_bytes(addrs: &Vec<[u8; 20]>) -> (r: Vec<u8>)
    requires
        addrs@.len() * 20 <= usize::MAX,
    ensures
        r@.len() == 20 * addrs@.len(),
        addr_count(r@) == addrs@.len(),
        forall|i: int| 0 <= i < addrs@.len() ==> addr_at(r@, i) == (#[trigger] addrs@[i])@,
        sorted_addr_vec(addrs@) ==> sorted_addresses(r@),
{
    let mut r: Vec<u8> = Vec::new();
    let mut i: usize = 0;
    while i < addrs.len()
        invariant
            i <= addrs@.len(),
            addrs@.len() * 20 <= usize::MAX,
            r@.len() == 20 * i,
            forall|k: int| 0 <= k < i ==> addr_at(r@, k) == (#[trigger] addrs@[k])@,
        decreases addrs@.len() - i,
    {
        let a = &addrs[i];
        let ghost r_before = r@;
        let mut j: usize = 0;
        while j < 20
            invariant
                j <= 20,
                i < addrs@.len(),
                a@ == addrs@[i as int]@,
                r@ =~= r_before + a@.subrange(0, j as int),
                r_before.len() == 20 * i,
            decreases 20 - j,
        {
            r.push(a[j]);
            proof {
                assert(r@ =~= r_before + a@.subrange(0, j as int + 1));
            }
            j = j + 1;
        }
        proof {
            assert(r@ =~= r_before + a@);
            assert forall|k: int| 0 <= k < i + 1 implies addr_at(r@, k) == (
            #[trigger] addrs@[k])@ by {
                if k < i {
                    assert(addr_at(r_before, k) == addrs@[k]@);
                    assert(addr_at(r@, k) =~= addr_at(r_before, k));
                } else {
                    assert(addr_at(r@, k) =~= a@);
                }
            }
        }
        i = i + 1;
    }
    proof {
        if sorted_addr_vec(addrs@) {
            assert forall|i2: int, j2: int| 0 <= i2 < j2 < addr_count(r@) implies lex_cmp(
                #[trigger] addr_at(r@, i2),
                #[trigger] addr_at(r@, j2),
            ) < 0 by {
                assert(addr_at(r@, i2) == addrs@[i2]@ && addr_at(r@, j2) == addrs@[j2]@);
            }
        }
    }
    r
}

/// Hashes each address into its leaf: Keccak-256 of the 20 raw bytes, in
/// store order.
pub fn leaf_hashes(addrs: &Vec<[u8; 20]>) -> (r: Vec<[u8; 32]>)
    ensures
        r@.len() == addrs@.len(),
        forall|i: int| 0 <= i < addrs@.len() ==> (#[trigger] r@[i])@ == keccak256_of(addrs@[i]@),
{
    let mut r: Vec<[u8; 32]> = Vec::new();
    let mut i: usize = 0;
    while i < addrs.len()
        invariant
            i <= addrs@.len(),
            r@.len() == i,
            forall|k: int| 0 <= k < i ==> (#[trigger] r@[k])@ == keccak256_of(addrs@[k]@),
        decreases addrs@.len() - i,
    {
        let h = keccak256(addrs[i].as_slice());
        r.push(h);
        i = i + 1;
    }
    r
}

/// Flattens one layer's nodes into the byte image of its layer file.
pub fn layer_to_bytes(layer: &Vec<[u8; 32]>) -> (r: Vec<u8>)
    requires
        layer@.len() * 32 <= usize::MAX,
    ensures
        r@.len() == 32 * layer@.len(),
        r@.len() % 32 == 0,
        nodes_of(r@) == nodes_view(layer@),
{
    let mut r: Vec<u8> = Vec::new();
    let mut i: usize = 0;
    while i < layer.len()
        invariant
            i <= layer@.len(),
            layer@.len() * 32 <= usize::MAX,
            r@.len() == 32 * i,
            forall|k: int| 0 <= k < i ==> node_at(r@, k) == (#[trigger] layer@[k])@,
        decreases layer@.len() - i,
    {
        let a = &layer[i];
        let ghost r_before = r@;
        let mut j: usize = 0;
        while j < 32
            invariant
                j <= 32,
                i < layer@.len(),
                a@ == layer@[i as int]@,
                r@ =~= r_before + a@.subrange(0, j as int),
                r_before.len() == 32 * i,
            decreases 32 - j,
        {
            r.push(a[j]);
            proof {
                assert(r@ =~= r_before + a@.subrange(0, j as int + 1));
            }
            j = j + 1;
        }
        proof {
            assert(r@ =~= r_before + a@);
            assert forall|k: int| 0 <= k < i + 1 implies node_at(r@, k) == (
            #[trigger] layer@[k])@ by {
                if k < i {
                    assert(node_at(r_before, k) == layer@[k]@);
                    assert(node_at(r@, k) =~= node_at(r_before, k));
                } else {
                    assert(node_at(r@, k) =~= a@);
                }
            }
        }
        i = i + 1;
    }
    proof {
        assert(nodes_of(r@) =~= nodes_view(layer@));
    }
    r
}

} // verus!
verus! {

/// Builds the whole database image for a batch of addresses: the sorted,
/// deduplicated store and every layer file of the tree over its leaf
/// hashes. The result provably holds a complete tree, so every proof built
/// from it replays to its root.
pub fn build_database(input: Vec<[u8; 20]>) -> (r: Result<MerkleDb, MerkleError>)
    requires
        32 * input@.len() <= usize::MAX,
    ensures
        r is Ok <==> input@.len() > 0,
        r matches Ok(db) ==> crate::merkle::db_is_tree(db@) && (db@.addresses matches Some(ab)
            && sorted_addresses(ab) && (forall|
            x: Seq<u8>,
        |
            (exists|i: int| 0 <= i < addr_count(ab) && #[trigger] addr_at(ab, i) == x)
                <==> addr_present(input@, x))),
        r matches Err(e) ==> e matches MerkleError::InvalidLayer(_),
{
    let ghost input0 = input@;
    let sorted = prepare_addresses(input);
    proof {
        assert(sorted@.len() <= input0.len());
        assert(sorted@.len() * 20 <= usize::MAX);
    }
    let store = addresses_to_bytes(&sorted);
    let leaves = leaf_hashes(&sorted);
    proof {
        if input0.len() > 0 {
            assert(addr_present(input0, input0[0]@));
            assert(sorted@.len() > 0);
        }
        if sorted@.len() > 0 {
            assert(sorted@[0]@ == addr_at(store@, 0));
            assert(addr_present(sorted@, sorted@[0]@));
            assert(input0.len() > 0);
        }
        assert(nodes_view(leaves@) =~= leaf_hashes_of(store@));
    }
    let layers = match crate::tree::build_layers(leaves) {
        Ok(l) => l,
        Err(e) => {
            return Err(e);
        },
    };
    let ghost leafseq = leaf_hashes_of(store@);
    let ghost tree = crate::tree::layers_of(leafseq);
    let mut files: Vec<Vec<u8>> = Vec::new();
    let mut k: usize = 0;
    while k < layers.len()
        invariant
            k <= layers@.len(),
            files@.len() == k,
            32 * sorted@.len() <= usize::MAX,
            crate::tree::layers_view(layers@) == tree,
            tree == crate::tree::layers_of(leafseq),
            leafseq.len() == sorted@.len() >= 1,
            forall|j: int| 0 <= j < k ==> (#[trigger] files@[j])@.len() % 32 == 0 && nodes_of(
                files@[j]@,
            ) == tree[j],
        decreases layers@.len() - k,
    {
        proof {
            assert(crate::tree::layers_view(layers@)[k as int] == nodes_view(
                layers@[k as int]@,
            ));
            crate::tree::lemma_layer_size_bound(leafseq, k as int);
            assert(layers@[k as int]@.len() == tree[k as int].len());
            assert(layers@[k as int]@.len() * 32 <= usize::MAX);
        }
        let bytes = layer_to_bytes(&layers[k]);
        files.push(bytes);
        k = k + 1;
    }
    let db = MerkleDb { addresses: Some(store), layers: files };
    proof {
        assert(db@.layers =~= crate::merkle::byte_layers_view(files@));
        assert(db@.layers.len() == tree.len());
        assert forall|j: int| 0 <= j < db@.layers.len() implies (#[trigger] db@.layers[j]).len()
            % 32 == 0 && nodes_of(db@.layers[j]) == tree[j] by {
            assert(db@.layers[j] == files@[j]@);
        }
        assert(crate::merkle::db_is_tree(db@));
        assert forall|x: Seq<u8>|
            (exists|i: int| 0 <= i < addr_count(store@) && #[trigger] addr_at(store@, i) == x)
                implies addr_present(input0, x) by {
            let i = choose|i: int|
                0 <= i < addr_count(store@) && #[trigger] addr_at(store@, i) == x;
            assert(sorted@[i]@ == x);
            assert(addr_present(sorted@, x));
        }
        assert forall|x: Seq<u8>| addr_present(input0, x) implies (exists|i: int|
            0 <= i < addr_count(store@) && #[trigger] addr_at(store@, i) == x) by {
            assert(addr_present(sorted@, x));
            let w = choose|w: int| 0 <= w < sorted@.len() && (#[trigger] sorted@[w])@ == x;
            assert(addr_at(store@, w) == x);
        }
    }
    Ok(db)
}

} // verus!
