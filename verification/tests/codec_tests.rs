use merklebuilder::merkle::{
    hash_leaf, normalize_hex, parse_address, to_hex20, to_hex32, MerkleError,
};
use merklebuilder::{ethereum_address, to_checksum_address, ADDRESS_SIZE, HASH_SIZE};

#[test]
fn test_parse_address_valid() {
    let result = parse_address("0x1234567890123456789012345678901234567890");
    assert!(result.is_ok());
    let addr = result.unwrap();
    assert_eq!(addr.len(), ADDRESS_SIZE);
}

#[test]
fn test_parse_address_no_prefix() {
    let result = parse_address("1234567890123456789012345678901234567890");
    assert!(result.is_ok());
}

#[test]
fn test_parse_address_invalid_length() {
    let result = parse_address("0x1234");
    assert!(result.is_err());
}

#[test]
fn lib_test_parse_address_invalid_hex() {
    let result = parse_address("0xzzzzzzzzzzzzzzzzzzzzzzzzzzzzzzzzzzzzzzzzzz");
    assert!(result.is_err());
}

#[test]
fn lib_test_normalize_hex() {
    assert_eq!(normalize_hex("0x1234"), "0x1234");
    assert_eq!(normalize_hex("1234"), "0x1234");
    assert_eq!(normalize_hex("0X1234"), "0x1234");
}

#[test]
fn lib_test_hash_leaf() {
    let address = [0u8; ADDRESS_SIZE];
    let hash = hash_leaf(&address);
    assert_eq!(hash.len(), HASH_SIZE);
}

#[test]
fn lib_test_to_hex32() {
    let bytes = [0u8; HASH_SIZE];
    let hex = to_hex32(&bytes);
    assert!(hex.starts_with("0x"));
    assert_eq!(hex.len(), 2 + HASH_SIZE * 2);
}

#[test]
fn lib_test_to_hex20() {
    let bytes = [0u8; ADDRESS_SIZE];
    let hex = to_hex20(&bytes);
    assert!(hex.starts_with("0x"));
    assert_eq!(hex.len(), 2 + ADDRESS_SIZE * 2);
}

#[test]
fn test_parse_address_with_0x() {
    let result = parse_address("0x1234567890123456789012345678901234567890");
    assert!(result.is_ok());
    let addr = result.unwrap();
    assert_eq!(
        addr,
        [
            0x12, 0x34, 0x56, 0x78, 0x90, 0x12, 0x34, 0x56, 0x78, 0x90, 0x12, 0x34, 0x56, 0x78,
            0x90, 0x12, 0x34, 0x56, 0x78, 0x90
        ]
    );
}

#[test]
fn test_parse_address_without_prefix() {
    let result = parse_address("1234567890123456789012345678901234567890");
    assert!(result.is_ok());
}

#[test]
fn test_parse_address_too_short() {
    let result = parse_address("0x1234");
    assert!(result.is_err());
    assert!(result.unwrap_err().message().contains("40 hex"));
}

#[test]
fn merkle_test_parse_address_invalid_hex() {
    let result = parse_address("0x123456789012345678901234567890123456789g");
    assert!(result.is_err());
    let err_msg = result.unwrap_err().message();
    assert!(err_msg.contains("Invalid hex"));
}

#[test]
fn merkle_test_normalize_hex() {
    assert_eq!(normalize_hex("0x1234"), "0x1234");
    assert_eq!(normalize_hex("1234"), "0x1234");
    assert_eq!(normalize_hex("0X1234"), "0x1234");
}

#[test]
fn merkle_test_hash_leaf() {
    let address = [0u8; ADDRESS_SIZE];
    let hash = hash_leaf(&address);
    assert_eq!(hash.len(), HASH_SIZE);
    let different_address = [1u8; ADDRESS_SIZE];
    let different_hash = hash_leaf(&different_address);
    assert_ne!(hash, different_hash);
}

#[test]
fn merkle_test_to_hex32() {
    let bytes = [0x01, 0x02, 0x03, 0x04u8];
    let mut full_bytes = [0u8; HASH_SIZE];
    full_bytes[0..4].copy_from_slice(&bytes);
    let hex = to_hex32(&full_bytes);
    assert!(hex.starts_with("0x"));
    assert_eq!(hex.len(), 66);
}

#[test]
fn merkle_test_to_hex20() {
    let bytes = [0x01, 0x02, 0x03, 0x04u8];
    let mut full_bytes = [0u8; ADDRESS_SIZE];
    full_bytes[0..4].copy_from_slice(&bytes);
    let hex = to_hex20(&full_bytes);
    assert!(hex.starts_with("0x"));
    assert_eq!(hex.len(), 42);
}

#[test]
fn to_hex_exact_value() {
    let mut bytes = [0u8; ADDRESS_SIZE];
    bytes[0] = 0xde;
    bytes[1] = 0xad;
    bytes[19] = 0x0f;
    assert_eq!(
        to_hex20(&bytes),
        "0xdead00000000000000000000000000000000000f"
    );
}

#[test]
fn checksum_known_vectors() {
    let cases = [
        "0x5aAeb6053F3E94C9b9A09f33669435E7Ef1BeAed",
        "0xfB6916095ca1df60bB79Ce92cE3Ea74c37c5d359",
        "0xdbF03B407c01E7cD3CBea99509d93f8DDDC8C6FB",
        "0xD1220A0cf47c7B9Be7A2E6BA89F429762e7b9aDb",
    ];
    for expected in cases {
        let bytes = parse_address(expected).unwrap();
        assert_eq!(to_checksum_address(&bytes), expected);
    }
}

#[test]
fn checksum_reparses_to_same_bytes() {
    let addr = [0x7eu8; 20];
    let encoded = to_checksum_address(&addr);
    assert_eq!(encoded.len(), 42);
    let parsed = parse_address(&encoded).unwrap();
    assert_eq!(parsed, addr);
}

#[test]
fn malformed_inputs_yield_distinct_errors() {
    let too_short = parse_address("0x1234").unwrap_err();
    assert!(matches!(too_short, MerkleError::InvalidAddress(_)));
    let non_hex = parse_address("0xZZZZZZZZZZZZZZZZZZZZZZZZZZZZZZZZZZZZZZZZ").unwrap_err();
    assert!(matches!(non_hex, MerkleError::InvalidHex(_)));
}

#[test]
fn derive_address_from_public_key() {
    // The uncompressed SEC1 encoding of the generator point of secp256k1,
    // whose well-known address is that of private key 1.
    let mut pk = Vec::new();
    pk.push(0x04);
    pk.extend_from_slice(
        &parse_address("0x79be667ef9dcbbac55a06295ce870b07029bfcdb").unwrap(),
    );
    pk.extend_from_slice(
        &parse_address("0x2dce28d959f2815b16f81798483ada7726a3c465").unwrap(),
    );
    pk.extend_from_slice(
        &parse_address("0x5da4fbfc0e1108a8fd17b448a68554199c47d08f").unwrap(),
    );
    pk.push(0xfb);
    pk.push(0x10);
    pk.push(0xd4);
    pk.push(0xb8);
    let addr = ethereum_address(&pk);
    assert_eq!(addr.len(), 42);
    assert_eq!(
        addr.to_lowercase(),
        "0x7e5f4552091a69125d5dfcb7b8c2659029395bdf"
    );
}
