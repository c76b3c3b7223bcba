use merklebuilder::hashing::hash_pair;
use merklebuilder::merkle::{build_proof, hash_leaf, MerkleDb, MerkleError, SiblingSide};

fn layer_bytes(nodes: &[[u8; 32]]) -> Vec<u8> {
    let mut out = Vec::new();
    for n in nodes {
        out.extend_from_slice(n);
    }
    out
}

fn create_test_db() -> MerkleDb {
    let a1 = [0x01u8; 20];
    let a2 = [0x02u8; 20];
    let a3 = [0x03u8; 20];

    let mut addresses = Vec::new();
    addresses.extend_from_slice(&a1);
    addresses.extend_from_slice(&a2);
    addresses.extend_from_slice(&a3);

    let h1 = hash_leaf(&a1);
    let h2 = hash_leaf(&a2);
    let h3 = hash_leaf(&a3);

    let h12 = hash_pair(&h1, &h2);
    let h33 = hash_pair(&h3, &h3);
    let root = hash_pair(&h12, &h33);

    MerkleDb {
        addresses: Some(addresses),
        layers: vec![
            layer_bytes(&[h1, h2, h3]),
            layer_bytes(&[h12, h33]),
            layer_bytes(&[root]),
        ],
    }
}

#[test]
fn test_build_proof_success() {
    let db = create_test_db();
    let address_str = "0x0101010101010101010101010101010101010101";

    let result = build_proof(&db, address_str);
    assert!(result.is_ok());

    let proof = result.unwrap();
    assert_eq!(proof.index, 0);
    assert_eq!(proof.total, 3);
    assert_eq!(proof.root_level, 2);
    assert!(!proof.steps.is_empty());
}

#[test]
fn test_build_proof_address_not_found() {
    let db = create_test_db();
    let address_str = "0xffffffffffffffffffffffffffffffffffffffff";

    let result = build_proof(&db, address_str);
    assert!(result.is_err());
    assert!(result.unwrap_err().message().contains("not found"));
}

#[test]
fn test_proof_result_structure() {
    let db = create_test_db();
    let address_str = "0x0101010101010101010101010101010101010101";

    let proof = build_proof(&db, address_str).unwrap();
    assert_eq!(proof.steps.len(), 2);
    assert_eq!(proof.steps[0].level, 0);
    assert_eq!(proof.steps[1].level, 1);
}

#[test]
fn proof_replay_reproduces_root() {
    let db = create_test_db();
    for addr in [
        "0x0101010101010101010101010101010101010101",
        "0x0202020202020202020202020202020202020202",
        "0x0303030303030303030303030303030303030303",
    ] {
        let proof = build_proof(&db, addr).unwrap();
        let mut acc = proof.leaf;
        for step in &proof.steps {
            acc = match step.side {
                SiblingSide::Left => hash_pair(&step.sibling_hash, &acc),
                SiblingSide::Right => hash_pair(&acc, &step.sibling_hash),
            };
        }
        assert_eq!(acc, proof.root);
    }
}

#[test]
fn first_address_proof_shape() {
    let db = create_test_db();
    let proof = build_proof(&db, "0x0101010101010101010101010101010101010101").unwrap();
    assert_eq!(proof.index, 0);
    assert_eq!(proof.total, 3);
    assert_eq!(proof.root_level, 2);
    assert_eq!(proof.steps.len(), 2);
    assert_eq!(proof.steps[0].level, 0);
    assert!(matches!(proof.steps[0].side, SiblingSide::Right));
}

#[test]
fn single_address_tree_root_is_leaf() {
    let a = [0xabu8; 20];
    let leaf = hash_leaf(&a);
    let db = MerkleDb {
        addresses: Some(a.to_vec()),
        layers: vec![layer_bytes(&[leaf])],
    };
    let proof = build_proof(&db, "0xabababababababababababababababababababab").unwrap();
    assert_eq!(proof.root_level, 0);
    assert!(proof.steps.is_empty());
    assert_eq!(proof.root, proof.leaf);
    assert_eq!(proof.root, leaf);
}

#[test]
fn repeated_lookup_is_deterministic() {
    let db = create_test_db();
    let first = build_proof(&db, "0x0202020202020202020202020202020202020202").unwrap();
    let second = build_proof(&db, "0x0202020202020202020202020202020202020202").unwrap();
    assert_eq!(first.index, second.index);
    assert_eq!(first.lookups, second.lookups);
    assert_eq!(first.root, second.root);
}

#[test]
fn missing_layers_reported() {
    let mut db = create_test_db();
    db.layers = Vec::new();
    let err = build_proof(&db, "0x0101010101010101010101010101010101010101").unwrap_err();
    assert!(matches!(err, MerkleError::MissingLayer(_)));
    assert!(err.message().contains("No layer files found"));
}

#[test]
fn truncated_layers_reported() {
    let mut db = create_test_db();
    db.layers.truncate(2);
    let err = build_proof(&db, "0x0101010101010101010101010101010101010101").unwrap_err();
    assert!(matches!(err, MerkleError::MissingLayer(_)));
    assert!(err.message().contains("Missing layer file"));
}

#[test]
fn corrupted_layer_reported() {
    let mut db = create_test_db();
    db.layers[0].push(0);
    let err = build_proof(&db, "0x0101010101010101010101010101010101010101").unwrap_err();
    assert!(matches!(err, MerkleError::CorruptedData(_)));
}

#[test]
fn missing_store_reported() {
    let mut db = create_test_db();
    db.addresses = None;
    let err = build_proof(&db, "0x0101010101010101010101010101010101010101").unwrap_err();
    assert!(matches!(err, MerkleError::FileIo(_)));
}

#[test]
fn corrupted_store_reported() {
    let mut db = create_test_db();
    db.addresses.as_mut().unwrap().push(0);
    let err = build_proof(&db, "0x0101010101010101010101010101010101010101").unwrap_err();
    assert!(matches!(err, MerkleError::CorruptedData(_)));
}

#[test]
fn inconsistent_store_and_tree_reported() {
    let db = create_test_db();
    let h1 = hash_leaf(&[0x01u8; 20]);
    let short = MerkleDb {
        addresses: db.addresses,
        layers: vec![layer_bytes(&[h1, h1])],
    };
    let err = build_proof(&short, "0x0303030303030303030303030303030303030303").unwrap_err();
    assert!(matches!(
        err,
        MerkleError::IndexOutOfBounds { level: 0, index: 2, count: 2 }
    ));
    assert_eq!(err.message(), "Index 2 out of bounds at level 0 (count: 2)");
}
