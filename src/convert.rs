use vstd::prelude::*;
use crate::detect::NATIVE_ADDR_LEN;

verus! {

/// `n` zero bytes.
pub open spec fn zeros(n: nat) -> Seq<u8> {
    Seq::new(n, |i: int| 0u8)
}

/// The body of an address table whose elements are `w` bytes wide, with each element
/// widened to the native width by zero bytes after it. Bytes after the last whole
/// element are not part of any element.
pub open spec fn widen(body: Seq<u8>, w: nat) -> Seq<u8>
    decreases body.len(),
{
    if w == 0 || body.len() < w {
        seq![]
    } else {
        body.subrange(0, w as int) + zeros((NATIVE_ADDR_LEN - w) as nat) + widen(
            body.subrange(w as int, body.len() as int),
            w,
        )
    }
}

/// Widening a table of `count` elements of `w` bytes gives `count` elements of the
/// native width: element `k` holds the `w` bytes of element `k`, then zero
/// bytes. The body grows by `(native - w) * count` bytes.
pub proof fn lemma_widen_shape(body: Seq<u8>, w: nat, count: nat)
    requires
        0 < w <= NATIVE_ADDR_LEN,
        body.len() == count * w,
    ensures
        widen(body, w).len() == count * NATIVE_ADDR_LEN,
        widen(body, w).len() == body.len() + (NATIVE_ADDR_LEN - w) * count,
        forall|k: int, j: int|
            0 <= k < count && 0 <= j < NATIVE_ADDR_LEN ==> #[trigger] widen(body, w)[k * NATIVE_ADDR_LEN + j]
                == if j < w {
                body[k * w + j]
            } else {
                0u8
            },
    decreases count,
{
    let n = NATIVE_ADDR_LEN as int;
    let wi = w as int;
    assert(count * n == count * w + (n - w) * count) by (nonlinear_arith);
    if count == 0 {
        assert(body.len() == 0) by (nonlinear_arith)
            requires
                body.len() == count * w,
                count == 0,
        ;
    } else {
        assert(body.len() >= w) by (nonlinear_arith)
            requires
                body.len() == count * w,
                count >= 1,
        ;
        let rest = body.subrange(wi, body.len() as int);
        assert(rest.len() == (count - 1) * w) by (nonlinear_arith)
            requires
                rest.len() == body.len() - w,
                body.len() == count * w,
        ;
        lemma_widen_shape(rest, w, (count - 1) as nat);
        let head = body.subrange(0, wi) + zeros((NATIVE_ADDR_LEN - w) as nat);
        let r = widen(body, w);
        assert(r == head + widen(rest, w));
        assert(r.len() == count * n) by (nonlinear_arith)
            requires
                r.len() == n + (count - 1) * n,
        ;
        assert forall|k: int, j: int| 0 <= k < count && 0 <= j < n implies #[trigger] r[k * n + j] == if j
            < w {
            body[k * w + j]
        } else {
            0u8
        } by {
            if k == 0 {
                assert(k * n + j == j);
                assert(k * wi + j == j);
            } else {
                let k1 = k - 1;
                assert(k * n + j == n + (k1 * n + j)) by (nonlinear_arith)
                    requires
                        k1 == k - 1,
                ;
                assert(k * wi + j == wi + (k1 * wi + j)) by (nonlinear_arith)
                    requires
                        k1 == k - 1,
                ;
                assert(0 <= k1 * n + j) by (nonlinear_arith)
                    requires
                        k1 >= 0,
                        j >= 0,
                        n >= 0,
                ;
                assert(widen(rest, w)[k1 * n + j] == if j < w {
                    rest[k1 * wi + j]
                } else {
                    0u8
                });
                if j < w {
                    assert(0 <= k1 * wi + j) by (nonlinear_arith)
                        requires
                            k1 >= 0,
                            j >= 0,
                            wi >= 0,
                    ;
                    let c1 = count - 1;
                    assert((k1 + 1) * wi <= c1 * wi) by (nonlinear_arith)
                        requires
                            k1 + 1 <= c1,
                            wi >= 0,
                    ;
                    assert((k1 + 1) * wi == k1 * wi + wi) by (nonlinear_arith);
                    assert(k1 * wi + j < c1 * wi);
                }
            }
        }
    }
}

/// One address widened to the native width: its bytes, then `native - to_length` zero
/// bytes.
pub fn expand_addr(src: &[u8], to_length: usize) -> (r: Vec<u8>)
    requires
        to_length <= NATIVE_ADDR_LEN,
    ensures
        r@ == src@ + zeros((NATIVE_ADDR_LEN - to_length) as nat),
{
    let mut r: Vec<u8> = Vec::new();
    let mut k: usize = 0;
    while k < src.len()
        invariant
            k <= src@.len(),
            r@ == src@.subrange(0, k as int),
        decreases src@.len() - k,
    {
        r.push(src[k]);
        assert(src@.subrange(0, k + 1) =~= src@.subrange(0, k as int).push(src@[k as int]));
        k = k + 1;
    }
    let pad = NATIVE_ADDR_LEN - to_length;
    let mut z: usize = 0;
    while z < pad
        invariant
            z <= pad,
            pad == NATIVE_ADDR_LEN - to_length,
            r@ == src@ + zeros(z as nat),
        decreases pad - z,
    {
        r.push(0u8);
        assert(src@ + zeros((z + 1) as nat) =~= (src@ + zeros(z as nat)).push(0u8));
        z = z + 1;
    }
    r
}

/// The body of an address table with every `addr_length`-byte element widened to the
/// native width (see `widen`).
pub fn expand_addr_table(body: &[u8], addr_length: usize) -> (r: Vec<u8>)
    requires
        0 < addr_length <= NATIVE_ADDR_LEN,
    ensures
        r@ == widen(body@, addr_length as nat),
{
    let w = addr_length;
    let len = body.len();
    let mut out: Vec<u8> = Vec::new();
    let mut start: usize = 0;
    assert(body@.subrange(0, len as int) =~= body@);
    while w <= len - start
        invariant
            0 < w <= NATIVE_ADDR_LEN,
            len == body@.len(),
            start <= len,
            widen(body@, w as nat) == out@ + widen(body@.subrange(start as int, len as int), w as nat),
        decreases len - start,
    {
        let mut elem: Vec<u8> = Vec::new();
        let mut k: usize = start;
        while k < start + w
            invariant
                start <= k <= start + w,
                start + w <= len,
                len == body@.len(),
                elem@ == body@.subrange(start as int, k as int),
            decreases start + w - k,
        {
            elem.push(body[k]);
            assert(body@.subrange(start as int, k + 1) =~= body@.subrange(start as int, k as int).push(
                body@[k as int],
            ));
            k = k + 1;
        }
        let addr = expand_addr(elem.as_slice(), w);
        let ghost rest = body@.subrange(start as int, len as int);
        assert(rest.subrange(0, w as int) =~= elem@);
        assert(rest.subrange(w as int, rest.len() as int) =~= body@.subrange(start + w, len as int));
        let mut j: usize = 0;
        let ghost prev = out@;
        while j < addr.len()
            invariant
                j <= addr@.len(),
                out@ == prev + addr@.subrange(0, j as int),
            decreases addr@.len() - j,
        {
            out.push(addr[j]);
            assert(addr@.subrange(0, j + 1) =~= addr@.subrange(0, j as int).push(addr@[j as int]));
            j = j + 1;
        }
        assert(addr@.subrange(0, addr@.len() as int) =~= addr@);
        assert(prev + (addr@ + widen(body@.subrange(start + w, len as int), w as nat)) =~= out@ + widen(
            body@.subrange(start + w, len as int),
            w as nat,
        ));
        start = start + w;
    }
    assert(widen(body@.subrange(start as int, len as int), w as nat) =~= Seq::<u8>::empty());
    assert(out@ + Seq::<u8>::empty() =~= out@);
    out
}

} // verus!
