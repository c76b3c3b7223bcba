use merklebuilder::api::{classify_error, matches_invalid_input, matches_not_found, ApiError};
use merklebuilder::decimal::usize_to_string;
use merklebuilder::merkle::SiblingSide;
use merklebuilder::progress::progress_update_interval;

#[test]
fn test_classify_error_invalid_input() {
    let err = "Address must be 40 hex characters";
    let api_error = classify_error(err.to_string());
    assert!(matches!(api_error, ApiError::BadRequest(_)));
}

#[test]
fn test_classify_error_not_found() {
    let err = "not found in addresses.bin";
    let api_error = classify_error(err.to_string());
    assert!(matches!(api_error, ApiError::NotFound(_)));
}

#[test]
fn test_classify_error_internal() {
    let err = "Some internal error";
    let api_error = classify_error(err.to_string());
    assert!(matches!(api_error, ApiError::Internal(_)));
}

#[test]
fn classification_matchers() {
    assert!(matches_invalid_input("Invalid hex: Invalid hex in address"));
    assert!(matches_invalid_input(
        "Invalid address: Address must be 40 hex characters after 0x"
    ));
    assert!(!matches_invalid_input("Address not found in addresses.bin"));
    assert!(matches_not_found("Address not found in addresses.bin"));
    assert!(!matches_not_found("Corrupted data: Layer is empty"));
}

#[test]
fn test_sibling_side() {
    assert_eq!(SiblingSide::Left.as_str(), "left");
    assert_eq!(SiblingSide::Right.as_str(), "right");
    assert!(SiblingSide::Left.proof_flag());
    assert!(!SiblingSide::Right.proof_flag());
}

#[test]
fn progress_interval_values() {
    assert_eq!(progress_update_interval(0), 1);
    assert_eq!(progress_update_interval(500), 500);
    assert_eq!(progress_update_interval(1000), 1000);
    assert_eq!(progress_update_interval(100_000), 1000);
    assert_eq!(progress_update_interval(50_000_000), 100_000);
    assert_eq!(progress_update_interval(usize::MAX), 100_000);
}

#[test]
fn decimal_rendering() {
    assert_eq!(usize_to_string(0), "0");
    assert_eq!(usize_to_string(7), "7");
    assert_eq!(usize_to_string(10), "10");
    assert_eq!(usize_to_string(90210), "90210");
}
