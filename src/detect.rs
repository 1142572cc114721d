use vstd::prelude::*;
use crate::error::AdaptError;

verus! {

/// Width in bytes of an address identifier as the consuming toolchain expects it.
pub const NATIVE_ADDR_LEN: usize = 16;

/// Whether every length is an exact multiple of `native`.
pub open spec fn all_multiples(lengths: Seq<u32>, native: nat) -> bool {
    forall|i: int| 0 <= i < lengths.len() ==> (lengths[i] as nat) % native == 0
}

/// The smallest of a non-empty sequence of lengths.
pub open spec fn seq_min(s: Seq<u32>) -> u32
    decreases s.len(),
{
    if s.len() <= 1 {
        s[0]
    } else {
        let m = seq_min(s.drop_last());
        if s.last() < m {
            s.last()
        } else {
            m
        }
    }
}

/// Halves `m` until it is at most `native`.
pub open spec fn halve_until(m: nat, native: nat) -> nat
    decreases m,
{
    if m <= native || m == 0 {
        m
    } else {
        halve_until(m / 2, native)
    }
}

/// The width that the producer of a container used, inferred from the lengths of its
/// address tables: none where there is no length to go by; the native width where every
/// length is a multiple of it; else the smallest length, where it is at most the native
/// width or odd; else the smallest length halved until it is at most the native width.
pub open spec fn detect_width(lengths: Seq<u32>) -> Result<u32, AdaptError> {
    let native = NATIVE_ADDR_LEN as nat;
    if lengths.len() == 0 {
        Err(AdaptError::DetectionFailed)
    } else if all_multiples(lengths, native) {
        Ok(NATIVE_ADDR_LEN as u32)
    } else {
        let m = seq_min(lengths);
        if m as nat <= native || m % 2 != 0 {
            Ok(m)
        } else {
            Ok(halve_until(m as nat, native) as u32)
        }
    }
}

proof fn lemma_seq_min_in(s: Seq<u32>)
    requires
        s.len() >= 1,
    ensures
        exists|i: int| 0 <= i < s.len() && s[i] == seq_min(s),
        forall|i: int| 0 <= i < s.len() ==> seq_min(s) <= s[i],
    decreases s.len(),
{
    if s.len() > 1 {
        lemma_seq_min_in(s.drop_last());
        let m = seq_min(s.drop_last());
        let j = choose|j: int| 0 <= j < s.drop_last().len() && s.drop_last()[j] == m;
        if s.last() < m {
            assert(s[s.len() - 1] == seq_min(s));
        } else {
            assert(s[j] == seq_min(s));
        }
        assert forall|i: int| 0 <= i < s.len() implies seq_min(s) <= s[i] by {
            if i < s.len() - 1 {
                assert(s.drop_last()[i] == s[i]);
            }
        }
    } else {
        assert(s[0] == seq_min(s));
    }
}

proof fn lemma_halve_until_bound(m: nat, native: nat)
    requires
        native > 0,
    ensures
        halve_until(m, native) <= m,
        m > 0 ==> 0 < halve_until(m, native) <= native || m <= native,
    decreases m,
{
    if !(m <= native || m == 0) {
        lemma_halve_until_bound(m / 2, native);
    }
}

/// Infers the address width of a container from the lengths of its address tables
/// (see `detect_width`); fails where there is no length. A best-effort heuristic: widths above the native width are
/// not recovered, and one width is inferred for all tables.
pub fn address_length(addr_tables_lengths: &[u32]) -> (r: Result<u32, AdaptError>)
    ensures
        r == detect_width(addr_tables_lengths@),
{
    let s = addr_tables_lengths;
    let n = s.len();
    if n == 0 {
        return Err(AdaptError::DetectionFailed);
    }
    let native = NATIVE_ADDR_LEN as u32;
    let mut all = true;
    let mut i: usize = 0;
    while i < n
        invariant
            n == s@.len(),
            i <= n,
            native == 16,
            all == all_multiples(s@.subrange(0, i as int), native as nat),
        decreases n - i,
    {
        let ghost prev = s@.subrange(0, i as int);
        assert(s@.subrange(0, i + 1) =~= prev.push(s@[i as int]));
        let ok = s[i] % native == 0;
        proof {
            let next = s@.subrange(0, i + 1);
            if ok {
                assert forall|j: int| 0 <= j < next.len() && all_multiples(prev, 16) implies (next[j] as nat) % 16 == 0 by {
                    if j < i {
                        assert(next[j] == prev[j]);
                    }
                }
            } else {
                assert((next[i as int] as nat) % 16 != 0);
            }
            assert(all_multiples(prev, 16) && ok ==> all_multiples(next, 16));
            assert(all_multiples(next, 16) ==> all_multiples(prev, 16)) by {
                assert forall|j: int| 0 <= j < prev.len() && all_multiples(next, 16) implies (prev[j] as nat) % 16 == 0 by {
                    assert(next[j] == prev[j]);
                }
            }
        }
        if !ok {
            all = false;
        }
        i = i + 1;
    }
    assert(s@.subrange(0, n as int) =~= s@);
    if all {
        return Ok(native);
    }
    let mut min = s[0];
    let mut k: usize = 1;
    while k < n
        invariant
            n == s@.len(),
            1 <= k <= n,
            min == seq_min(s@.subrange(0, k as int)),
        decreases n - k,
    {
        assert(s@.subrange(0, k + 1).drop_last() =~= s@.subrange(0, k as int));
        if s[k] < min {
            min = s[k];
        }
        k = k + 1;
    }
    assert(s@.subrange(0, n as int) =~= s@);
    if min <= native || min % 2 != 0 {
        return Ok(min);
    }
    let mut m = min;
    while m > native
        invariant
            native == 16,
            halve_until(m as nat, native as nat) == halve_until(min as nat, native as nat),
        decreases m,
    {
        m = m / 2;
    }
    Ok(m)
}

} // verus!
