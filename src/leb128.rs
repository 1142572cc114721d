use vstd::prelude::*;
use crate::error::AdaptError;

verus! {

/// Canonical ULEB128 encoding of `v`: seven value bits per byte, least significant
/// group first, the high bit set on every byte but the last.
pub open spec fn uleb128(v: nat) -> Seq<u8>
    decreases v,
{
    if v < 128 {
        seq![v as u8]
    } else {
        seq![((v % 128) + 128) as u8] + uleb128(v / 128)
    }
}

/// The canonical ULEB128 value that starts at `pos` in `s`, with the number of bytes it
/// takes; `None` where the bytes run out or the encoding has a redundant trailing group.
pub open spec fn decode_at(s: Seq<u8>, pos: int) -> Option<(nat, nat)>
    decreases s.len() - pos,
{
    if pos < 0 || pos >= s.len() {
        None
    } else if s[pos] < 128 {
        Some((s[pos] as nat, 1))
    } else {
        match decode_at(s, pos + 1) {
            Some((r, n)) => if r > 0 {
                Some(((s[pos] - 128) as nat + 128 * r, n + 1))
            } else {
                None
            },
            None => None,
        }
    }
}

/// Reading a bounded ULEB128 value: unreadable bytes are a malformed header, a value
/// above `max` is a bounds violation.
pub open spec fn read_uleb_spec(s: Seq<u8>, pos: int, max: nat) -> Result<(nat, nat), AdaptError> {
    match decode_at(s, pos) {
        None => Err(AdaptError::MalformedHeader),
        Some((v, n)) => if v <= max {
            Ok((v, n))
        } else {
            Err(AdaptError::BoundsViolation)
        },
    }
}

pub open spec fn lift_read(r: Result<(u64, usize), AdaptError>) -> Result<(nat, nat), AdaptError> {
    match r {
        Ok((v, n)) => Ok((v as nat, n as nat)),
        Err(e) => Err(e),
    }
}

/// A decoded value takes at least one byte, all inside `s`.
pub proof fn lemma_decode_bound(s: Seq<u8>, pos: int)
    ensures
        decode_at(s, pos) is Some ==> decode_at(s, pos)->Some_0.1 >= 1 && pos + decode_at(s, pos)->Some_0.1
            <= s.len(),
    decreases s.len() - pos,
{
    if 0 <= pos < s.len() && s[pos] >= 128 {
        lemma_decode_bound(s, pos + 1);
    }
}

/// Decoding reads only the bytes it takes: another buffer that has the same bytes there
/// decodes to the same value.
pub proof fn lemma_decode_same(s: Seq<u8>, p: Seq<u8>, pos: int)
    requires
        decode_at(s, pos) is Some,
        pos + decode_at(s, pos)->Some_0.1 <= p.len(),
        forall|i: int| pos <= i < pos + decode_at(s, pos)->Some_0.1 ==> p[i] == s[i],
    ensures
        decode_at(p, pos) == decode_at(s, pos),
    decreases s.len() - pos,
{
    if s[pos] >= 128 {
        lemma_decode_same(s, p, pos + 1);
    }
}

/// Decoding the encoding of `v`, wherever it stands, gives back `v` and the encoding's length.
pub proof fn lemma_decode_uleb128(s: Seq<u8>, pos: int, v: nat)
    requires
        0 <= pos,
        pos + uleb128(v).len() <= s.len(),
        s.subrange(pos, pos + uleb128(v).len()) == uleb128(v),
    ensures
        decode_at(s, pos) == Some((v, uleb128(v).len())),
    decreases v,
{
    let e = uleb128(v);
    assert(s[pos] == e[0]) by {
        assert(s.subrange(pos, pos + e.len())[0] == s[pos]);
    }
    if v >= 128 {
        let t = uleb128(v / 128);
        assert(e == seq![((v % 128) + 128) as u8] + t);
        assert(s.subrange(pos + 1, pos + 1 + t.len()) =~= t) by {
            assert forall|i: int| 0 <= i < t.len() implies s.subrange(pos + 1, pos + 1 + t.len())[i] == t[i] by {
                assert(s.subrange(pos, pos + e.len())[i + 1] == e[i + 1]);
            }
        }
        lemma_decode_uleb128(s, pos + 1, v / 128);
    }
}

/// Reads the ULEB128 value at `pos`, which must not exceed `max`; gives the value and the
/// number of bytes it takes.
pub fn read_uleb128_as_u64(s: &[u8], pos: usize, max: u64) -> (r: Result<(u64, usize), AdaptError>)
    ensures
        lift_read(r) == read_uleb_spec(s@, pos as int, max as nat),
        r is Ok ==> r->Ok_0.1 >= 1 && pos + r->Ok_0.1 <= s@.len(),
    decreases s@.len() - pos,
{
    if pos >= s.len() {
        return Err(AdaptError::MalformedHeader);
    }
    let b = s[pos];
    if b < 128 {
        if (b as u64) <= max {
            Ok((b as u64, 1))
        } else {
            Err(AdaptError::BoundsViolation)
        }
    } else {
        let low = (b - 128) as u64;
        let sub_max: u64 = if max >= low + 128 {
            (max - low) / 128
        } else {
            0
        };
        match read_uleb128_as_u64(s, pos + 1, sub_max) {
            Err(e) => Err(e),
            Ok((rest, n)) => {
                if rest == 0 {
                    Err(AdaptError::MalformedHeader)
                } else {
                    assert(max >= low + 128);
                    assert(128 * rest <= max - low) by (nonlinear_arith)
                        requires
                            rest <= sub_max,
                            sub_max == (max - low) / 128,
                            max >= low,
                    ;
                    Ok((low + 128 * rest, n + 1))
                }
            },
        }
    }
}

/// Reads the byte at `pos`.
pub fn read_u8(s: &[u8], pos: usize) -> (r: Result<u8, AdaptError>)
    ensures
        pos < s@.len() ==> r == Ok::<u8, AdaptError>(s@[pos as int]),
        pos >= s@.len() ==> r == Err::<u8, AdaptError>(AdaptError::MalformedHeader),
{
    if pos < s.len() {
        Ok(s[pos])
    } else {
        Err(AdaptError::MalformedHeader)
    }
}

/// Appends one byte to `out`.
pub fn write_u8(out: &mut Vec<u8>, v: u8)
    ensures
        final(out)@ == old(out)@.push(v),
{
    out.push(v);
}

/// Appends the ULEB128 encoding of `v` to `out`.
pub fn write_u64_as_uleb128(out: &mut Vec<u8>, v: u64)
    ensures
        final(out)@ == old(out)@ + uleb128(v as nat),
{
    let mut x = v;
    while x >= 128
        invariant
            old(out)@ + uleb128(v as nat) == out@ + uleb128(x as nat),
        decreases x,
    {
        let ghost prev = out@;
        out.push(((x % 128) + 128) as u8);
        assert(prev + uleb128(x as nat) =~= out@ + uleb128((x / 128) as nat));
        x = x / 128;
    }
    let ghost prev = out@;
    out.push(x as u8);
    assert(prev + uleb128(x as nat) =~= out@);
}

} // verus!
