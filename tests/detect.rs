use unscrambler::detect::{address_length, NATIVE_ADDR_LEN};
use unscrambler::AdaptError;

const NATIVE: u32 = NATIVE_ADDR_LEN as u32;

fn detect_unwrap(addr_tables_lengths: &[u32]) -> u32 {
    address_length(addr_tables_lengths).unwrap()
}

#[test]
fn detect_address_length_one_lower_eq() {
    assert_eq!(16, detect_unwrap(&[16]));
    assert_eq!(15, detect_unwrap(&[15]));
    assert_eq!(14, detect_unwrap(&[14]));
}

#[test]
fn detect_address_length_mul_lower_eq() {
    assert_eq!(16, detect_unwrap(&[16, 32]));
    assert_eq!(15, detect_unwrap(&[15, 30]));
    assert_eq!(14, detect_unwrap(&[14, 28]));
}

#[test]
fn detect_address_length_one_lower() {
    assert_eq!(16, detect_unwrap(&[32]));
    assert_eq!(15, detect_unwrap(&[30]));
    assert_eq!(14, detect_unwrap(&[28]));
}

#[test]
fn detect_address_length_mul_lower() {
    assert_eq!(16, detect_unwrap(&[16 * 2, 16 * 3]));
    assert_eq!(15, detect_unwrap(&[15 * 2, 15 * 3]));
    assert_eq!(14, detect_unwrap(&[14 * 2, 14 * 3]));
}

#[test]
fn detect_address_length_one_higher_eq() {
    assert_eq!(NATIVE, detect_unwrap(&[NATIVE * 2]));
}

#[test]
fn detect_address_length_mul_higher_eq() {
    assert_eq!(NATIVE, detect_unwrap(&[NATIVE * 5]));
}

#[test]
fn detect_address_length_one_higher() {
    assert_ne!(22, detect_unwrap(&[22 * 2]));
    assert_ne!(24, detect_unwrap(&[24 * 2]));
}

#[test]
fn detect_address_length_mul_higher() {
    assert_ne!(22, detect_unwrap(&[22 * 2, 22 * 3]));
    assert_ne!(24, detect_unwrap(&[24 * 2, 24 * 3]));
}

#[test]
fn detect_exact_values_above_native() {
    // 44 halves to 22, then to 11; 40 to 20, then to 10; 48 is a multiple of 16.
    assert_eq!(Ok(11), address_length(&[44]));
    assert_eq!(Ok(10), address_length(&[40]));
    assert_eq!(Ok(16), address_length(&[48]));
    // an odd length above the native width is taken as it is
    assert_eq!(Ok(17), address_length(&[17]));
    assert_eq!(Ok(17), address_length(&[34, 17]));
}

#[test]
fn detect_minimum_wins() {
    assert_eq!(Ok(8), address_length(&[24, 8, 20]));
    assert_eq!(Ok(0), address_length(&[0, 5]));
}

#[test]
fn detect_no_tables_fails() {
    assert_eq!(Err::<u32, AdaptError>(AdaptError::DetectionFailed), address_length(&[]));
    assert_eq!(Ok(16), address_length(&[0, 16, 48]));
}
