use unscrambler::compat::{check, check_magic, check_version};
use unscrambler::{adapt, expand_addr, expand_addr_table, AdaptError, Adaptation};

const MAGIC: [u8; 4] = [0xA1, 0x1C, 0xEB, 0x0B];

fn uleb(mut v: u64) -> Vec<u8> {
    let mut out = Vec::new();
    while v >= 128 {
        out.push((v % 128 + 128) as u8);
        v /= 128;
    }
    out.push(v as u8);
    out
}

fn container(tables: &[(u8, u64, u64)], bodies: &[u8]) -> Vec<u8> {
    let mut b = MAGIC.to_vec();
    b.extend_from_slice(&[1, 0]);
    b.extend(uleb(tables.len() as u64));
    for &(kind, offset, length) in tables {
        b.push(kind);
        b.extend(uleb(offset));
        b.extend(uleb(length));
    }
    b.extend_from_slice(bodies);
    b
}

#[test]
fn adapt_widens_short_addresses() {
    let mut bytes = vec![
        0xA1, 0x1C, 0xEB, 0x0B, 1, 0, 2, 8, 0, 8, 7, 8, 3, 1, 2, 3, 4, 5, 6, 7, 8, 0x61, 0x62, 0x63,
    ];
    assert_eq!(adapt(&mut bytes), Ok(Adaptation::Adapted));
    assert_eq!(
        bytes,
        vec![
            0xA1, 0x1C, 0xEB, 0x0B, 1, 0, 2, 8, 0, 16, 7, 16, 3, 1, 2, 3, 4, 5, 6, 7, 8, 0, 0, 0, 0, 0,
            0, 0, 0, 0x61, 0x62, 0x63,
        ]
    );
}

#[test]
fn adapt_is_idempotent() {
    let mut bytes = container(&[(8, 0, 8), (7, 8, 3)], &[1, 2, 3, 4, 5, 6, 7, 8, 9, 10, 11]);
    assert_eq!(adapt(&mut bytes), Ok(Adaptation::Adapted));
    let once = bytes.clone();
    assert_eq!(adapt(&mut bytes), Ok(Adaptation::Unchanged));
    assert_eq!(bytes, once);
}

#[test]
fn adapt_handles_growing_varints() {
    let ids = [0x61u8, 0x62];
    let addrs: Vec<u8> = (1..=120).collect();
    let mut bodies = ids.to_vec();
    bodies.extend_from_slice(&addrs);
    bodies.push(0x55);
    let mut bytes = container(&[(7, 0, 2), (8, 2, 120), (5, 122, 1)], &bodies);

    // 120 is halved down to 15: eight elements of fifteen bytes.
    assert_eq!(adapt(&mut bytes), Ok(Adaptation::Adapted));

    let mut widened = ids.to_vec();
    for k in 0..8 {
        widened.extend_from_slice(&addrs[k * 15..(k + 1) * 15]);
        widened.push(0);
    }
    widened.push(0x55);
    let expected = container(&[(7, 0, 2), (8, 2, 128), (5, 130, 1)], &widened);
    assert_eq!(bytes, expected);
    assert_eq!(adapt(&mut bytes), Ok(Adaptation::Unchanged));
    assert_eq!(bytes, expected);
}

#[test]
fn adapt_widens_every_address_table() {
    let mut bytes = container(&[(8, 0, 4), (8, 4, 8), (6, 12, 2)], &[1, 2, 3, 4, 5, 6, 7, 8, 9, 10, 11, 12, 13, 14]);
    assert_eq!(adapt(&mut bytes), Ok(Adaptation::Adapted));
    let mut bodies = vec![1, 2, 3, 4];
    bodies.extend_from_slice(&[0; 12]);
    bodies.extend_from_slice(&[5, 6, 7, 8]);
    bodies.extend_from_slice(&[0; 12]);
    bodies.extend_from_slice(&[9, 10, 11, 12]);
    bodies.extend_from_slice(&[0; 12]);
    bodies.extend_from_slice(&[13, 14]);
    assert_eq!(bytes, container(&[(8, 0, 16), (8, 16, 32), (6, 48, 2)], &bodies));
}

#[test]
fn adapt_leaves_native_width_alone() {
    let before = container(&[(8, 0, 32), (7, 32, 1)], &[7; 33]);
    let mut bytes = before.clone();
    assert_eq!(adapt(&mut bytes), Ok(Adaptation::Unchanged));
    assert_eq!(bytes, before);

    // with no address table there is no width to go by; the buffer is left as it is
    let before = container(&[(7, 0, 1)], &[7]);
    let mut bytes = before.clone();
    assert_eq!(adapt(&mut bytes), Err(AdaptError::DetectionFailed));
    assert_eq!(bytes, before);
}

#[test]
fn adapt_refuses_short_or_foreign_header() {
    let mut bytes = vec![0xA1, 0x1C, 0xEB];
    assert_eq!(adapt(&mut bytes), Err(AdaptError::MalformedHeader));
    assert_eq!(bytes, vec![0xA1, 0x1C, 0xEB]);

    let mut bytes = vec![0xA1, 0x1C, 0xEB, 0x0B, 1];
    assert_eq!(adapt(&mut bytes), Err(AdaptError::MalformedHeader));

    let before = vec![0xCA, 0xFE, 0xBA, 0xBE, 1, 0, 1, 8, 0, 8, 1, 2, 3, 4, 5, 6, 7, 8];
    let mut bytes = before.clone();
    assert_eq!(adapt(&mut bytes), Err(AdaptError::MalformedHeader));
    assert_eq!(bytes, before);
}

#[test]
fn adapt_refuses_truncated_directory() {
    let mut bytes = vec![0xA1, 0x1C, 0xEB, 0x0B, 1, 0, 2, 8, 0, 8];
    assert_eq!(adapt(&mut bytes), Err(AdaptError::MalformedHeader));
    let mut bytes = vec![0xA1, 0x1C, 0xEB, 0x0B, 1, 0, 1, 8, 0x80];
    assert_eq!(adapt(&mut bytes), Err(AdaptError::MalformedHeader));
}

#[test]
fn adapt_refuses_values_out_of_bounds() {
    // 256 tables
    let mut bytes = vec![0xA1, 0x1C, 0xEB, 0x0B, 1, 0, 0x80, 0x02];
    assert_eq!(adapt(&mut bytes), Err(AdaptError::BoundsViolation));
    // an offset of 2^32
    let mut bytes = container(&[(8, 1u64 << 32, 8)], &[0; 8]);
    assert_eq!(adapt(&mut bytes), Err(AdaptError::BoundsViolation));
    // an address table that runs past the end of the buffer
    let before = container(&[(8, 0, 8)], &[1, 2, 3, 4]);
    let mut bytes = before.clone();
    assert_eq!(adapt(&mut bytes), Err(AdaptError::BoundsViolation));
    assert_eq!(bytes, before);
}

#[test]
fn adapt_refuses_undetectable_width() {
    // 15 is taken as the width, but 20 bytes are not whole elements of it
    let before = container(&[(8, 0, 15), (8, 15, 20)], &[1; 35]);
    let mut bytes = before.clone();
    assert_eq!(adapt(&mut bytes), Err(AdaptError::DetectionFailed));
    assert_eq!(bytes, before);
    // a width above the native width cannot be widened
    let mut bytes = container(&[(8, 0, 17)], &[1; 17]);
    assert_eq!(adapt(&mut bytes), Err(AdaptError::DetectionFailed));
}

#[test]
fn header_checks() {
    let bytes = vec![0xA1, 0x1C, 0xEB, 0x0B, 2, 1, 0];
    assert_eq!(check_magic(&bytes), Ok(()));
    assert_eq!(check_version(&bytes), Ok((2, 1)));
    assert_eq!(check(&bytes), Ok((2, 1)));
    assert_eq!(check_magic(&[0xA1, 0x1C, 0xEB, 0x0C]), Err(AdaptError::MalformedHeader));
    assert_eq!(check_version(&[0xA1, 0x1C, 0xEB, 0x0B, 2]), Err(AdaptError::MalformedHeader));
}

#[test]
fn expansion_pads_after_each_address() {
    assert_eq!(expand_addr(&[1, 2, 3], 14), vec![1, 2, 3, 0, 0]);
    let body = [1u8, 2, 3, 4, 5, 6];
    let widened = expand_addr_table(&body, 3);
    assert_eq!(widened.len(), 6 + (16 - 3) * 2);
    let mut expected = vec![1, 2, 3];
    expected.extend_from_slice(&[0; 13]);
    expected.extend_from_slice(&[4, 5, 6]);
    expected.extend_from_slice(&[0; 13]);
    assert_eq!(widened, expected);
    assert_eq!(expand_addr_table(&[9; 16], 16), vec![9; 16]);
}
