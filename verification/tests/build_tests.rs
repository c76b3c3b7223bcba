use merklebuilder::hashing::hash_pair;
use merklebuilder::merkle::{
    available_layers, build_proof, ensure_db_present, find_address_index, layer_node_count,
    read_node, MerkleDb, MerkleError,
};
use merklebuilder::store::{addresses_to_bytes, layer_to_bytes, leaf_hashes, prepare_addresses};
use merklebuilder::tree::{build_layers, total_hash_ops};

fn db_from_addresses(raw: Vec<[u8; 20]>) -> MerkleDb {
    let sorted = prepare_addresses(raw);
    let store = addresses_to_bytes(&sorted);
    let leaves = leaf_hashes(&sorted);
    let layers = build_layers(leaves).unwrap();
    let layer_files: Vec<Vec<u8>> = layers.iter().map(layer_to_bytes).collect();
    MerkleDb { addresses: Some(store), layers: layer_files }
}

#[test]
fn build_layers_sizes_halve() {
    let leaves: Vec<[u8; 32]> = (0u8..5).map(|b| [b; 32]).collect();
    let layers = build_layers(leaves).unwrap();
    let sizes: Vec<usize> = layers.iter().map(|l| l.len()).collect();
    assert_eq!(sizes, vec![5, 3, 2, 1]);
}

#[test]
fn build_layers_rejects_empty() {
    let err = build_layers(Vec::new()).unwrap_err();
    assert!(matches!(err, MerkleError::InvalidLayer(_)));
}

#[test]
fn odd_layer_pairs_last_with_itself() {
    let h0 = [0x10u8; 32];
    let h1 = [0x11u8; 32];
    let h2 = [0x12u8; 32];
    let layers = build_layers(vec![h0, h1, h2]).unwrap();
    assert_eq!(layers[1].len(), 2);
    assert_eq!(layers[1][0], hash_pair(&h0, &h1));
    assert_eq!(layers[1][1], hash_pair(&h2, &h2));
}

#[test]
fn single_leaf_is_its_own_root() {
    let h = [0x42u8; 32];
    let layers = build_layers(vec![h]).unwrap();
    assert_eq!(layers.len(), 1);
    assert_eq!(layers[0], vec![h]);
}

#[test]
fn prepare_addresses_sorts_and_dedups() {
    let raw = vec![[3u8; 20], [1u8; 20], [2u8; 20], [1u8; 20], [3u8; 20]];
    let sorted = prepare_addresses(raw);
    assert_eq!(sorted, vec![[1u8; 20], [2u8; 20], [3u8; 20]]);
}

#[test]
fn end_to_end_build_and_prove() {
    let raw: Vec<[u8; 20]> = (1u8..=7).map(|b| [b; 20]).collect();
    let db = db_from_addresses(raw);
    assert!(ensure_db_present(&db).is_ok());
    for b in 1u8..=7 {
        let addr = merklebuilder::merkle::to_hex20(&[b; 20]);
        let proof = build_proof(&db, &addr).unwrap();
        assert_eq!(proof.total, 7);
        assert_eq!(proof.index as u8, b - 1);
        let mut acc = proof.leaf;
        for step in &proof.steps {
            acc = if step.side.proof_flag() {
                hash_pair(&step.sibling_hash, &acc)
            } else {
                hash_pair(&acc, &step.sibling_hash)
            };
        }
        assert_eq!(acc, proof.root);
    }
}

#[test]
fn absent_address_not_found() {
    let db = db_from_addresses(vec![[1u8; 20], [2u8; 20], [3u8; 20]]);
    let err = build_proof(&db, "0x0404040404040404040404040404040404040404").unwrap_err();
    assert!(matches!(err, MerkleError::AddressNotFound));
}

#[test]
fn find_address_index_exact() {
    let sorted = prepare_addresses(vec![[5u8; 20], [9u8; 20], [7u8; 20]]);
    let store = addresses_to_bytes(&sorted);
    let hit = find_address_index(&store, &[7u8; 20]).unwrap();
    let (index, lookups, total) = hit.unwrap();
    assert_eq!(index, 1);
    assert_eq!(total, 3);
    assert!(lookups >= 1);
    let miss = find_address_index(&store, &[8u8; 20]).unwrap();
    assert!(miss.is_none());
}

#[test]
fn find_address_index_empty_store() {
    let store: Vec<u8> = Vec::new();
    assert!(find_address_index(&store, &[1u8; 20]).unwrap().is_none());
}

#[test]
fn find_address_index_bad_length() {
    let store: Vec<u8> = vec![0u8; 30];
    let err = find_address_index(&store, &[1u8; 20]).unwrap_err();
    assert!(matches!(err, MerkleError::CorruptedData(_)));
}

#[test]
fn test_layer_node_count_invalid_file() {
    let result = layer_node_count(None);
    assert!(result.is_err());
}

#[test]
fn layer_node_count_values() {
    let bytes = vec![0u8; 96];
    assert_eq!(layer_node_count(Some(&bytes)).unwrap(), 3);
    let odd = vec![0u8; 33];
    assert!(matches!(
        layer_node_count(Some(&odd)).unwrap_err(),
        MerkleError::CorruptedData(_)
    ));
}

#[test]
fn read_node_reads_records() {
    let mut bytes = vec![0u8; 64];
    bytes[32] = 0xaa;
    let node = read_node(&bytes, 1).unwrap();
    assert_eq!(node[0], 0xaa);
    assert!(read_node(&bytes, 2).is_err());
}

#[test]
fn presence_check_requires_first_layer() {
    let db = MerkleDb { addresses: Some(vec![0u8; 20]), layers: Vec::new() };
    let err = ensure_db_present(&db).unwrap_err();
    assert!(matches!(err, MerkleError::MissingLayer(_)));
    let db2 = MerkleDb { addresses: None, layers: vec![vec![0u8; 32]] };
    assert!(ensure_db_present(&db2).is_err());
}

#[test]
fn available_layers_counts_prefix() {
    let present = vec![true, true, false, true];
    assert_eq!(available_layers(&present), 2);
    let none: Vec<bool> = Vec::new();
    assert_eq!(available_layers(&none), 0);
    let many = vec![true; 100];
    assert_eq!(available_layers(&many), 65);
}

#[test]
fn total_hash_ops_values() {
    assert_eq!(total_hash_ops(0), 0);
    assert_eq!(total_hash_ops(1), 0);
    assert_eq!(total_hash_ops(2), 1);
    assert_eq!(total_hash_ops(3), 3);
    assert_eq!(total_hash_ops(5), 6);
}

#[test]
fn build_database_yields_consistent_tree() {
    let raw: Vec<[u8; 20]> = vec![[9u8; 20], [4u8; 20], [6u8; 20], [4u8; 20]];
    let db = merklebuilder::store::build_database(raw).unwrap();
    assert_eq!(db.addresses.as_ref().unwrap().len(), 60);
    assert_eq!(db.layers.len(), 3);
    let proof = build_proof(&db, "0x0606060606060606060606060606060606060606").unwrap();
    assert_eq!(proof.index, 1);
    assert_eq!(proof.total, 3);
    let mut acc = proof.leaf;
    for step in &proof.steps {
        acc = if step.side.proof_flag() {
            hash_pair(&step.sibling_hash, &acc)
        } else {
            hash_pair(&acc, &step.sibling_hash)
        };
    }
    assert_eq!(acc, proof.root);
}

#[test]
fn build_database_rejects_empty_input() {
    let err = merklebuilder::store::build_database(Vec::new()).unwrap_err();
    assert!(matches!(err, MerkleError::InvalidLayer(_)));
}
