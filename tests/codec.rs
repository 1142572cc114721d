use unscrambler::leb128::{read_uleb128_as_u64, write_u64_as_uleb128};
use unscrambler::table::{read_table_head, read_tables_heads, write_table_head, Table, TableHead};
use unscrambler::AdaptError;

#[test]
fn uleb128_encodes_groups_low_first() {
    let mut out = Vec::new();
    write_u64_as_uleb128(&mut out, 0);
    write_u64_as_uleb128(&mut out, 127);
    write_u64_as_uleb128(&mut out, 128);
    write_u64_as_uleb128(&mut out, 300);
    assert_eq!(out, vec![0x00, 0x7F, 0x80, 0x01, 0xAC, 0x02]);
}

#[test]
fn uleb128_reads_back() {
    let bytes = [0x00, 0x7F, 0x80, 0x01, 0xAC, 0x02];
    assert_eq!(read_uleb128_as_u64(&bytes, 0, 1000), Ok((0, 1)));
    assert_eq!(read_uleb128_as_u64(&bytes, 1, 1000), Ok((127, 1)));
    assert_eq!(read_uleb128_as_u64(&bytes, 2, 1000), Ok((128, 2)));
    assert_eq!(read_uleb128_as_u64(&bytes, 4, 1000), Ok((300, 2)));
    assert_eq!(read_uleb128_as_u64(&bytes, 4, 299), Err(AdaptError::BoundsViolation));
    assert_eq!(read_uleb128_as_u64(&bytes, 6, 1000), Err(AdaptError::MalformedHeader));
    // a continuation byte at the end, and a redundant trailing group
    assert_eq!(read_uleb128_as_u64(&[0x80], 0, 1000), Err(AdaptError::MalformedHeader));
    assert_eq!(read_uleb128_as_u64(&[0x81, 0x00], 0, 1000), Err(AdaptError::MalformedHeader));
    let mut big = Vec::new();
    write_u64_as_uleb128(&mut big, u32::MAX as u64);
    assert_eq!(read_uleb128_as_u64(&big, 0, u32::MAX as u64), Ok((u32::MAX as u64, 5)));
}

#[test]
fn table_head_round_trip() {
    for t in [
        Table { kind: 8, offset: 0, length: 0 },
        Table { kind: 1, offset: 127, length: 128 },
        Table { kind: 255, offset: u32::MAX, length: 16384 },
    ] {
        let mut bytes = write_table_head(&t);
        let n = bytes.len();
        bytes.extend_from_slice(&[0x99, 0x98]);
        assert_eq!(read_table_head(&bytes, 0), Ok((t, n)));
    }
    assert_eq!(write_table_head(&Table { kind: 8, offset: 300, length: 2 }), vec![8, 0xAC, 0x02, 2]);
}

#[test]
fn table_heads_with_their_ranges() {
    let bytes = [0xFF, 8, 0, 16, 7, 16, 0x80, 0x01];
    let (heads, end) = read_tables_heads(&bytes, 1, 2).unwrap();
    assert_eq!(end, 8);
    assert_eq!(
        heads,
        vec![
            TableHead { table: Table { kind: 8, offset: 0, length: 16 }, start: 1, end: 4 },
            TableHead { table: Table { kind: 7, offset: 16, length: 128 }, start: 4, end: 8 },
        ]
    );
    assert_eq!(read_tables_heads(&bytes, 1, 3), Err(AdaptError::MalformedHeader));
}

#[test]
fn uleb128_round_trip_edges() {
    for v in [0u64, 1, 127, 128, 16383, 16384, 2097151, 2097152, u32::MAX as u64] {
        let mut out = vec![0xEE];
        write_u64_as_uleb128(&mut out, v);
        out.push(0x01);
        assert_eq!(read_uleb128_as_u64(&out, 1, u32::MAX as u64), Ok((v, out.len() - 2)));
    }
}
