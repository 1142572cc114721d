use vstd::prelude::*;
use crate::error::AdaptError;
use crate::leb128::{read_u8, write_u8, read_uleb128_as_u64, write_u64_as_uleb128, read_uleb_spec, uleb128, lemma_decode_uleb128, lemma_decode_bound};

verus! {

/// Largest number of tables a directory may declare.
pub const TABLE_COUNT_MAX: u64 = 255;
/// Largest table offset.
pub const TABLE_OFFSET_MAX: u64 = 0xffff_ffff;
/// Largest table length.
pub const TABLE_SIZE_MAX: u64 = 0xffff_ffff;

/// One entry of the table directory. The offset is relative to the start of the
/// table bodies.
#[derive(Clone, Copy, Debug, PartialEq, Eq, Structural)]
pub struct Table {
    pub kind: u8,
    pub offset: u32,
    pub length: u32,
}

/// A table descriptor with the byte range `[start, end)` where it is encoded.
#[derive(Clone, Copy, Debug, PartialEq, Eq, Structural)]
pub struct TableHead {
    pub table: Table,
    pub start: usize,
    pub end: usize,
}

/// The bytes of a descriptor: the kind, then offset and length as ULEB128.
pub open spec fn encode_head(t: Table) -> Seq<u8> {
    seq![t.kind] + uleb128(t.offset as nat) + uleb128(t.length as nat)
}

/// Reading a descriptor at `pos`: the descriptor and the number of bytes it takes.
pub open spec fn read_head_spec(s: Seq<u8>, pos: int) -> Result<(Table, nat), AdaptError> {
    if pos < 0 || pos >= s.len() {
        Err(AdaptError::MalformedHeader)
    } else {
        match read_uleb_spec(s, pos + 1, TABLE_OFFSET_MAX as nat) {
            Err(e) => Err(e),
            Ok((offset, n1)) => match read_uleb_spec(s, pos + 1 + n1, TABLE_SIZE_MAX as nat) {
                Err(e) => Err(e),
                Ok((length, n2)) => Ok(
                    (Table { kind: s[pos], offset: offset as u32, length: length as u32 }, 1 + n1 + n2),
                ),
            },
        }
    }
}

/// Reading `count` consecutive descriptors starting at `pos`, each with its byte range.
pub open spec fn parse_heads(s: Seq<u8>, pos: int, count: nat) -> Result<Seq<TableHead>, AdaptError>
    decreases count,
{
    if count == 0 {
        Ok(seq![])
    } else {
        match read_head_spec(s, pos) {
            Err(e) => Err(e),
            Ok((t, n)) => match parse_heads(s, pos + n, (count - 1) as nat) {
                Err(e) => Err(e),
                Ok(rest) => Ok(
                    seq![TableHead { table: t, start: pos as usize, end: (pos + n) as usize }] + rest,
                ),
            },
        }
    }
}

/// Descriptors read from `pos` on are `count` in number and lie one after the other,
/// each inside `s`.
pub proof fn lemma_parse_heads_shape(s: Seq<u8>, pos: int, count: nat)
    requires
        0 <= pos,
        s.len() <= usize::MAX,
        parse_heads(s, pos, count) is Ok,
    ensures
        ({
            let heads = parse_heads(s, pos, count)->Ok_0;
            &&& heads.len() == count
            &&& forall|j: int|
                0 <= j < heads.len() ==> pos <= (#[trigger] heads[j]).start < heads[j].end <= s.len()
            &&& count > 0 ==> heads[0].start == pos
            &&& forall|j: int| 0 <= j < heads.len() - 1 ==> (#[trigger] heads[j]).end == heads[j + 1].start
        }),
    decreases count,
{
    if count > 0 {
        lemma_decode_bound(s, pos + 1);
        let (t, n) = read_head_spec(s, pos)->Ok_0;
        let n1 = decode_at_len(s, pos + 1);
        lemma_decode_bound(s, pos + 1 + n1);
        lemma_parse_heads_shape(s, pos + n, (count - 1) as nat);
        let rest = parse_heads(s, pos + n, (count - 1) as nat)->Ok_0;
        let heads = parse_heads(s, pos, count)->Ok_0;
        assert(heads == seq![TableHead { table: t, start: pos as usize, end: (pos + n) as usize }] + rest);
        assert forall|j: int| 0 <= j < heads.len() implies pos <= (#[trigger] heads[j]).start < heads[j].end <= s.len() by {
            if j > 0 {
                assert(heads[j] == rest[j - 1]);
            }
        }
        assert forall|j: int| 0 <= j < heads.len() - 1 implies (#[trigger] heads[j]).end == heads[j + 1].start by {
            assert(heads[j + 1] == rest[j]);
            if j > 0 {
                assert(heads[j] == rest[j - 1]);
            }
        }
    }
}

spec fn decode_at_len(s: Seq<u8>, pos: int) -> int {
    crate::leb128::decode_at(s, pos)->Some_0.1 as int
}

/// Reading descriptors fails only on a malformed header or a value out of bounds.
pub proof fn lemma_parse_heads_errors(s: Seq<u8>, pos: int, count: nat)
    ensures
        parse_heads(s, pos, count) is Err ==> parse_heads(s, pos, count)->Err_0 == AdaptError::MalformedHeader
            || parse_heads(s, pos, count)->Err_0 == AdaptError::BoundsViolation,
    decreases count,
{
    if count > 0 {
        match read_head_spec(s, pos) {
            Err(_) => {},
            Ok((t, n)) => lemma_parse_heads_errors(s, pos + n, (count - 1) as nat),
        }
    }
}

/// The encodings of `ts`, one after the other.
pub open spec fn encode_heads(ts: Seq<Table>) -> Seq<u8>
    decreases ts.len(),
{
    if ts.len() == 0 {
        seq![]
    } else {
        encode_head(ts[0]) + encode_heads(ts.drop_first())
    }
}

/// A descriptor encoded anywhere reads back as itself.
pub proof fn lemma_head_round_trip_at(x: Seq<u8>, t: Table, rest: Seq<u8>)
    ensures
        read_head_spec(x + encode_head(t) + rest, x.len() as int) == Ok::<(Table, nat), AdaptError>(
            (t, encode_head(t).len()),
        ),
{
    let s = x + encode_head(t) + rest;
    let b = x.len() as int;
    let eo = uleb128(t.offset as nat);
    let el = uleb128(t.length as nat);
    let a: int = b + 1 + eo.len() as int;
    assert(s.subrange(b + 1, a) =~= eo);
    lemma_decode_uleb128(s, b + 1, t.offset as nat);
    assert(s.subrange(a, a + el.len()) =~= el);
    lemma_decode_uleb128(s, a, t.length as nat);
    assert(s[b] == t.kind);
}

/// Descriptors encoded one after the other read back as themselves.
pub proof fn lemma_parse_encoded(x: Seq<u8>, ts: Seq<Table>, rest: Seq<u8>)
    ensures
        parse_heads(x + encode_heads(ts) + rest, x.len() as int, ts.len()) is Ok,
        parse_heads(x + encode_heads(ts) + rest, x.len() as int, ts.len())->Ok_0.len() == ts.len(),
        forall|j: int|
            0 <= j < ts.len() ==> (#[trigger] parse_heads(x + encode_heads(ts) + rest, x.len() as int, ts.len())->Ok_0[j]).table
                == ts[j],
    decreases ts.len(),
{
    if ts.len() > 0 {
        let t = ts[0];
        let tail = ts.drop_first();
        let s = x + encode_heads(ts) + rest;
        assert(s =~= x + encode_head(t) + (encode_heads(tail) + rest));
        lemma_head_round_trip_at(x, t, encode_heads(tail) + rest);
        let x2 = x + encode_head(t);
        assert(s =~= x2 + encode_heads(tail) + rest);
        lemma_parse_encoded(x2, tail, rest);
        let r = parse_heads(s, x.len() as int, ts.len());
        let r2 = parse_heads(s, x2.len() as int, tail.len());
        assert(x2.len() == x.len() + encode_head(t).len());
        assert forall|j: int| 0 <= j < ts.len() implies (#[trigger] r->Ok_0[j]).table == ts[j] by {
            if j > 0 {
                assert(r->Ok_0[j] == r2->Ok_0[j - 1]);
            }
        }
    }
}

/// Encoding a descriptor and reading it back, whatever follows it, gives the
/// descriptor again and the length of its encoding.
pub proof fn lemma_head_round_trip(t: Table, rest: Seq<u8>)
    ensures
        read_head_spec(encode_head(t) + rest, 0) == Ok::<(Table, nat), AdaptError>(
            (t, encode_head(t).len()),
        ),
{
    let s = encode_head(t) + rest;
    let eo = uleb128(t.offset as nat);
    let el = uleb128(t.length as nat);
    let a: int = 1 + eo.len() as int;
    assert(s.subrange(1, a) =~= eo);
    lemma_decode_uleb128(s, 1, t.offset as nat);
    assert(s.subrange(a, a + el.len()) =~= el);
    lemma_decode_uleb128(s, a, t.length as nat);
    assert(s[0] == t.kind);
}

/// Reads the descriptor at `pos`.
pub fn read_table_head(s: &[u8], pos: usize) -> (r: Result<(Table, usize), AdaptError>)
    ensures
        match r {
            Ok((t, n)) => read_head_spec(s@, pos as int) == Ok::<(Table, nat), AdaptError>(
                (t, n as nat),
            ) && pos + n <= s@.len(),
            Err(e) => read_head_spec(s@, pos as int) == Err::<(Table, nat), AdaptError>(e),
        },
{
    let slen = s.len();
    let kind = match read_u8(s, pos) {
        Ok(k) => k,
        Err(e) => return Err(e),
    };
    let (offset, n1) = match read_uleb128_as_u64(s, pos + 1, TABLE_OFFSET_MAX) {
        Ok(x) => x,
        Err(e) => return Err(e),
    };
    let (length, n2) = match read_uleb128_as_u64(s, pos + 1 + n1, TABLE_SIZE_MAX) {
        Ok(x) => x,
        Err(e) => return Err(e),
    };
    Ok((Table { kind, offset: offset as u32, length: length as u32 }, 1 + n1 + n2))
}

/// Encodes a descriptor.
pub fn write_table_head(t: &Table) -> (r: Vec<u8>)
    ensures
        r@ == encode_head(*t),
{
    let mut buf: Vec<u8> = Vec::new();
    write_u8(&mut buf, t.kind);
    write_u64_as_uleb128(&mut buf, t.offset as u64);
    write_u64_as_uleb128(&mut buf, t.length as u64);
    assert(buf@ =~= encode_head(*t));
    buf
}

pub open spec fn prepend_heads(done: Seq<TableHead>, r: Result<Seq<TableHead>, AdaptError>) -> Result<
    Seq<TableHead>,
    AdaptError,
> {
    match r {
        Ok(rest) => Ok(done + rest),
        Err(e) => Err(e),
    }
}

/// Reads `len` consecutive descriptors starting at `pos`; gives them and the position
/// right after the last one.
pub fn read_tables_heads(s: &[u8], pos: usize, len: usize) -> (r: Result<(Vec<TableHead>, usize), AdaptError>)
    requires
        pos <= s@.len(),
    ensures
        match r {
            Ok((heads, end)) => parse_heads(s@, pos as int, len as nat) == Ok::<
                Seq<TableHead>,
                AdaptError,
            >(heads@) && pos <= end <= s@.len() && (len > 0 ==> end == heads@.last().end) && (len == 0
                ==> end == pos),
            Err(e) => parse_heads(s@, pos as int, len as nat) == Err::<Seq<TableHead>, AdaptError>(e),
        },
{
    let slen = s.len();
    let mut heads: Vec<TableHead> = Vec::new();
    let mut cur = pos;
    let mut i: usize = 0;
    while i < len
        invariant
            i <= len,
            slen == s@.len(),
            pos <= cur <= s@.len(),
            heads@.len() == i,
            i > 0 ==> cur == heads@.last().end,
            i == 0 ==> cur == pos,
            parse_heads(s@, pos as int, len as nat) == prepend_heads(
                heads@,
                parse_heads(s@, cur as int, (len - i) as nat),
            ),
        decreases len - i,
    {
        let rh = read_table_head(s, cur);
        let p = match rh {
            Ok(p) => p,
            Err(e) => {
                assert(prepend_heads(heads@, parse_heads(s@, cur as int, (len - i) as nat)) == Err::<Seq<TableHead>, AdaptError>(e));
                return Err(e);
            },
        };
        let t = p.0;
        let n = p.1;
        assert(cur + n <= s@.len());
        let h = TableHead { table: t, start: cur, end: cur + n };
        let ghost old_heads = heads@;
        heads.push(h);
        proof {
            let r = parse_heads(s@, (cur + n) as int, (len - i - 1) as nat);
            match r {
                Ok(rest) => {
                    assert(old_heads + (seq![h] + rest) =~= heads@ + rest);
                },
                Err(_) => {},
            }
        }
        cur = cur + n;
        i = i + 1;
    }
    assert(heads@ + seq![] =~= heads@);
    Ok((heads, cur))
}

} // verus!
