use vstd::prelude::*;
use crate::convert::{expand_addr_table, widen};
use crate::detect::{address_length, detect_width, all_multiples, NATIVE_ADDR_LEN};
use crate::error::AdaptError;
use crate::leb128::{read_uleb128_as_u64, read_uleb_spec, lift_read};
use crate::mutator::{Edit, Mutator, edits_fit, insert_sorted, splice_from, lemma_insert_sorted_after};
use crate::table::{
    Table, TableHead, encode_head, encode_heads, parse_heads, read_tables_heads, write_table_head,
    lemma_parse_heads_shape, lemma_parse_encoded, lemma_parse_heads_errors, TABLE_COUNT_MAX,
};
use crate::leb128::lemma_decode_same;

verus! {

/// Length of the magic tag at the start of a container.
pub const MAGIC_SIZE: usize = 4;
/// Length of the version pair that follows the magic tag.
pub const VERSION_SIZE: usize = 2;
/// Length of magic tag and version together; the table count follows.
pub const HEADER_SIZE: usize = 6;
/// Kind code of a table of address identifiers.
pub const ADDRESS_IDENTIFIERS: u8 = 8;

/// `(major, minor)`.
pub type BinVersion = (u8, u8);

/// What an adaptation that succeeded did.
#[derive(Clone, Copy, Debug, PartialEq, Eq, Structural)]
pub enum Adaptation {
    /// Every address table already had the native width; the buffer is as it was.
    Unchanged,
    /// The address tables were widened and the directory rewritten.
    Adapted,
}

/// The magic tag that opens a container.
pub open spec fn binary_magic() -> Seq<u8> {
    seq![0xA1u8, 0x1Cu8, 0xEBu8, 0x0Bu8]
}

/// The version of a container; a buffer too short for the magic tag and version, or
/// one that opens with another tag, is a malformed header.
pub open spec fn version_spec(s: Seq<u8>) -> Result<BinVersion, AdaptError> {
    if s.len() < HEADER_SIZE || s.subrange(0, MAGIC_SIZE as int) != binary_magic() {
        Err(AdaptError::MalformedHeader)
    } else {
        Ok((s[4], s[5]))
    }
}

/// The descriptors of the table directory and the position where the table bodies start.
pub open spec fn directory_spec(s: Seq<u8>) -> Result<(Seq<TableHead>, nat), AdaptError> {
    match read_uleb_spec(s, HEADER_SIZE as int, TABLE_COUNT_MAX as nat) {
        Err(e) => Err(e),
        Ok((count, n)) => match parse_heads(s, HEADER_SIZE + n, count) {
            Err(e) => Err(e),
            Ok(heads) => Ok(
                (
                    heads,
                    if count == 0 {
                        (HEADER_SIZE + n) as nat
                    } else {
                        heads.last().end as nat
                    },
                ),
            ),
        },
    }
}

pub open spec fn is_addr(t: Table) -> bool {
    t.kind == ADDRESS_IDENTIFIERS
}

/// The lengths of the address tables, in directory order.
pub open spec fn addr_lengths(heads: Seq<TableHead>) -> Seq<u32>
    decreases heads.len(),
{
    if heads.len() == 0 {
        seq![]
    } else {
        let p = addr_lengths(heads.drop_last());
        if is_addr(heads.last().table) {
            p.push(heads.last().table.length)
        } else {
            p
        }
    }
}

/// Every address table holds whole elements of width `w`.
pub open spec fn all_divisible(heads: Seq<TableHead>, w: nat) -> bool {
    forall|j: int|
        0 <= j < heads.len() && is_addr(#[trigger] heads[j].table) ==> (heads[j].table.length as nat) % w
            == 0
}

/// Every address table body lies inside a buffer of `len` bytes whose bodies start at `sob`.
pub open spec fn bodies_inside(heads: Seq<TableHead>, sob: nat, len: nat) -> bool {
    forall|j: int|
        0 <= j < heads.len() && is_addr(#[trigger] heads[j].table) ==> sob + heads[j].table.offset
            + heads[j].table.length <= len
}

/// Length of an address table once its `w`-byte elements have the native width.
pub open spec fn grown_length(t: Table, w: nat) -> nat {
    ((t.length as nat / w) * NATIVE_ADDR_LEN) as nat
}

/// How many bytes an address table body gains.
pub open spec fn growth(t: Table, w: nat) -> nat {
    ((NATIVE_ADDR_LEN - w) as nat) * (t.length as nat / w)
}

/// How far a body at offset `off` moves: the growth of every address table, among the
/// first `k` descriptors, whose offset is smaller.
pub open spec fn shift_before(heads: Seq<TableHead>, k: int, off: nat, w: nat) -> nat
    decreases k,
{
    if k <= 0 {
        0
    } else {
        shift_before(heads, k - 1, off, w) + if is_addr(heads[k - 1].table) && (heads[k
            - 1].table.offset as nat) < off {
            growth(heads[k - 1].table, w)
        } else {
            0
        }
    }
}

pub open spec fn new_offset(heads: Seq<TableHead>, j: int, w: nat) -> nat {
    heads[j].table.offset as nat + shift_before(heads, heads.len() as int, heads[j].table.offset as nat, w)
}

pub open spec fn new_length(heads: Seq<TableHead>, j: int, w: nat) -> nat {
    if is_addr(heads[j].table) {
        grown_length(heads[j].table, w)
    } else {
        heads[j].table.length as nat
    }
}

/// Every rewritten offset and length stays within 32 bits.
pub open spec fn values_fit(heads: Seq<TableHead>, w: nat) -> bool {
    forall|j: int|
        0 <= j < heads.len() ==> #[trigger] new_offset(heads, j, w) <= u32::MAX && new_length(heads, j, w)
            <= u32::MAX
}

/// Descriptor `j` after widening.
pub open spec fn new_head(heads: Seq<TableHead>, j: int, w: nat) -> Table {
    Table {
        kind: heads[j].table.kind,
        offset: new_offset(heads, j, w) as u32,
        length: new_length(heads, j, w) as u32,
    }
}

/// The edit that rewrites descriptor `j` where it stands.
pub open spec fn head_edit(heads: Seq<TableHead>, j: int, w: nat) -> Edit {
    Edit {
        start: heads[j].start as nat,
        end: heads[j].end as nat,
        value: encode_head(new_head(heads, j, w)),
    }
}

/// The edit that replaces the body of address table `j` by its widened form.
pub open spec fn body_edit(s: Seq<u8>, heads: Seq<TableHead>, sob: nat, j: int, w: nat) -> Edit {
    let t = heads[j].table;
    let from = (sob + t.offset) as nat;
    let to = (sob + t.offset + t.length) as nat;
    Edit { start: from, end: to, value: widen(s.subrange(from as int, to as int), w) }
}

/// The descriptor edits of the first `k` descriptors, in patch order.
pub open spec fn head_plan(heads: Seq<TableHead>, w: nat, k: nat) -> Seq<Edit>
    decreases k,
{
    if k == 0 {
        seq![]
    } else {
        insert_sorted(head_plan(heads, w, (k - 1) as nat), head_edit(heads, k - 1, w))
    }
}

/// All descriptor edits, then the body edits of the address tables among the first `k`
/// descriptors, in patch order.
pub open spec fn full_plan(s: Seq<u8>, heads: Seq<TableHead>, sob: nat, w: nat, k: nat) -> Seq<Edit>
    decreases k,
{
    if k == 0 {
        head_plan(heads, w, heads.len())
    } else {
        let p = full_plan(s, heads, sob, w, (k - 1) as nat);
        if is_addr(heads[k - 1].table) {
            insert_sorted(p, body_edit(s, heads, sob, k - 1, w))
        } else {
            p
        }
    }
}

/// What the adapter decides for a buffer: an error; `None` where every address table
/// already has the native width; or the edits that widen every address table, rewrite
/// its descriptor's length, and move the offset of every table whose body lies after
/// a growing one.
pub open spec fn plan_spec(s: Seq<u8>) -> Result<Option<Seq<Edit>>, AdaptError> {
    match version_spec(s) {
        Err(e) => Err(e),
        Ok(_) => match directory_spec(s) {
            Err(e) => Err(e),
            Ok((heads, sob)) => match detect_width(addr_lengths(heads)) {
                Err(e) => Err(e),
                Ok(width) => {
                    let w = width as nat;
                    if w == NATIVE_ADDR_LEN {
                        Ok(None)
                    } else if w == 0 || w > NATIVE_ADDR_LEN || !all_divisible(heads, w) {
                        Err(AdaptError::DetectionFailed)
                    } else if !bodies_inside(heads, sob, s.len()) || !values_fit(heads, w) {
                        Err(AdaptError::BoundsViolation)
                    } else {
                        let edits = full_plan(s, heads, sob, w, heads.len());
                        if edits_fit(edits, s.len()) {
                            Ok(Some(edits))
                        } else {
                            Err(AdaptError::BoundsViolation)
                        }
                    }
                },
            },
        },
    }
}

/// The outcome of adapting `s`, and the buffer afterwards. A patched buffer is kept only
/// where it needs no further change; the buffer is left as it was on every error.
pub open spec fn adapt_spec(s: Seq<u8>) -> (Result<Adaptation, AdaptError>, Seq<u8>) {
    match plan_spec(s) {
        Err(e) => (Err(e), s),
        Ok(None) => (Ok(Adaptation::Unchanged), s),
        Ok(Some(edits)) => {
            let p = splice_from(s, edits, 0);
            if plan_spec(p) == Ok::<Option<Seq<Edit>>, AdaptError>(None) {
                (Ok(Adaptation::Adapted), p)
            } else {
                (Err(AdaptError::PatchInvariantViolation), s)
            }
        },
    }
}

/// Checks that the buffer opens with the magic tag. A container with another tag is
/// refused rather than passed through.
pub fn check_magic(bytes: &[u8]) -> (r: Result<(), AdaptError>)
    ensures
        r is Ok <==> bytes@.len() >= MAGIC_SIZE && bytes@.subrange(0, MAGIC_SIZE as int) == binary_magic(),
        r is Err ==> r == Err::<(), AdaptError>(AdaptError::MalformedHeader),
{
    if bytes.len() < MAGIC_SIZE {
        return Err(AdaptError::MalformedHeader);
    }
    if bytes[0] == 0xA1u8 && bytes[1] == 0x1Cu8 && bytes[2] == 0xEBu8 && bytes[3] == 0x0Bu8 {
        assert(bytes@.subrange(0, MAGIC_SIZE as int) =~= binary_magic());
        Ok(())
    } else {
        proof {
            if bytes@.subrange(0, MAGIC_SIZE as int) == binary_magic() {
                assert(bytes@.subrange(0, MAGIC_SIZE as int)[0] == bytes@[0]);
                assert(bytes@.subrange(0, MAGIC_SIZE as int)[1] == bytes@[1]);
                assert(bytes@.subrange(0, MAGIC_SIZE as int)[2] == bytes@[2]);
                assert(bytes@.subrange(0, MAGIC_SIZE as int)[3] == bytes@[3]);
            }
        }
        Err(AdaptError::MalformedHeader)
    }
}

/// The version pair `[major, minor]` that follows the magic tag.
pub fn check_version(bytes: &[u8]) -> (r: Result<BinVersion, AdaptError>)
    ensures
        bytes@.len() >= HEADER_SIZE ==> r == Ok::<BinVersion, AdaptError>((bytes@[4], bytes@[5])),
        bytes@.len() < HEADER_SIZE ==> r == Err::<BinVersion, AdaptError>(AdaptError::MalformedHeader),
{
    if bytes.len() < HEADER_SIZE {
        Err(AdaptError::MalformedHeader)
    } else {
        Ok((bytes[MAGIC_SIZE], bytes[MAGIC_SIZE + 1]))
    }
}

/// Checks the header: the magic tag, then the version.
pub fn check(bytes: &[u8]) -> (r: Result<BinVersion, AdaptError>)
    ensures
        r == version_spec(bytes@),
{
    match check_magic(bytes) {
        Err(e) => return Err(e),
        Ok(()) => {},
    }
    check_version(bytes)
}

/// The lengths of the address tables, in directory order.
fn collect_addr_lengths(heads: &Vec<TableHead>) -> (r: Vec<u32>)
    ensures
        r@ == addr_lengths(heads@),
{
    let mut r: Vec<u32> = Vec::new();
    let mut i: usize = 0;
    while i < heads.len()
        invariant
            i <= heads@.len(),
            r@ == addr_lengths(heads@.subrange(0, i as int)),
        decreases heads@.len() - i,
    {
        let ghost pre = heads@.subrange(0, i + 1);
        assert(pre.drop_last() =~= heads@.subrange(0, i as int));
        assert(pre.last() == heads@[i as int]);
        if heads[i].table.kind == ADDRESS_IDENTIFIERS {
            r.push(heads[i].table.length);
        }
        i = i + 1;
    }
    assert(heads@.subrange(0, i as int) =~= heads@);
    r
}

/// Whether every address table holds whole elements of width `w`.
fn check_divisible(heads: &Vec<TableHead>, w: u32) -> (r: bool)
    requires
        w > 0,
    ensures
        r == all_divisible(heads@, w as nat),
{
    let mut i: usize = 0;
    while i < heads.len()
        invariant
            w > 0,
            i <= heads@.len(),
            forall|j: int|
                0 <= j < i && is_addr(#[trigger] heads@[j].table) ==> (heads@[j].table.length as nat) % (
                w as nat) == 0,
        decreases heads@.len() - i,
    {
        let t = heads[i].table;
        if t.kind == ADDRESS_IDENTIFIERS && t.length % w != 0 {
            return false;
        }
        i = i + 1;
    }
    true
}

/// Whether every address table body lies inside a buffer of `len` bytes whose bodies
/// start at `sob`.
fn check_bodies_inside(heads: &Vec<TableHead>, sob: usize, len: usize) -> (r: bool)
    requires
        sob <= len,
    ensures
        r == bodies_inside(heads@, sob as nat, len as nat),
{
    let room = (len - sob) as u64;
    let mut i: usize = 0;
    while i < heads.len()
        invariant
            sob <= len,
            room == len - sob,
            i <= heads@.len(),
            forall|j: int|
                0 <= j < i && is_addr(#[trigger] heads@[j].table) ==> sob + heads@[j].table.offset
                    + heads@[j].table.length <= len,
        decreases heads@.len() - i,
    {
        let t = heads[i].table;
        if t.kind == ADDRESS_IDENTIFIERS && (t.offset as u64) + (t.length as u64) > room {
            return false;
        }
        i = i + 1;
    }
    true
}

/// How many bytes an address table of `length` bytes gains.
fn growth_of(length: u32, w: u32) -> (r: u64)
    requires
        0 < w <= NATIVE_ADDR_LEN,
    ensures
        r == ((NATIVE_ADDR_LEN - w) as nat) * (length as nat / w as nat),
        r <= 16 * 0xffff_ffffu64,
{
    let k = (NATIVE_ADDR_LEN as u64) - (w as u64);
    let q = (length / w) as u64;
    assert(q <= length) by (nonlinear_arith)
        requires
            q == length / w,
            w > 0,
    ;
    assert(k * q <= 16 * 0xffff_ffffu64) by (nonlinear_arith)
        requires
            k <= 16,
            q <= 0xffff_ffffu64,
    ;
    k * q
}

/// How far a body at offset `off` moves (see `shift_before`).
fn shift_for(heads: &Vec<TableHead>, off: u32, w: u32) -> (r: u64)
    requires
        heads@.len() <= TABLE_COUNT_MAX,
        0 < w <= NATIVE_ADDR_LEN,
    ensures
        r == shift_before(heads@, heads@.len() as int, off as nat, w as nat),
        r <= 255 * (16 * 0xffff_ffffu64),
{
    let mut sum: u64 = 0;
    let mut i: usize = 0;
    while i < heads.len()
        invariant
            heads@.len() <= TABLE_COUNT_MAX,
            0 < w <= NATIVE_ADDR_LEN,
            i <= heads@.len(),
            sum == shift_before(heads@, i as int, off as nat, w as nat),
            sum <= i * (16 * 0xffff_ffffu64),
        decreases heads@.len() - i,
    {
        let t = heads[i].table;
        if t.kind == ADDRESS_IDENTIFIERS && t.offset < off {
            let g = growth_of(t.length, w);
            sum = sum + g;
        }
        i = i + 1;
    }
    sum
}

/// Offset and length of descriptor `j` after widening.
fn new_values(heads: &Vec<TableHead>, j: usize, w: u32) -> (r: (u64, u64))
    requires
        heads@.len() <= TABLE_COUNT_MAX,
        0 < w <= NATIVE_ADDR_LEN,
        j < heads@.len(),
    ensures
        r.0 == new_offset(heads@, j as int, w as nat),
        r.1 == new_length(heads@, j as int, w as nat),
{
    let t = heads[j].table;
    let off = (t.offset as u64) + shift_for(heads, t.offset, w);
    let len = if t.kind == ADDRESS_IDENTIFIERS {
        let q = (t.length / w) as u64;
        assert(q * 16 <= 16 * 0xffff_ffffu64) by (nonlinear_arith)
            requires
                q <= 0xffff_ffffu64,
        ;
        q * (NATIVE_ADDR_LEN as u64)
    } else {
        t.length as u64
    };
    (off, len)
}

/// Whether every rewritten offset and length stays within 32 bits.
fn check_values_fit(heads: &Vec<TableHead>, w: u32) -> (r: bool)
    requires
        heads@.len() <= TABLE_COUNT_MAX,
        0 < w <= NATIVE_ADDR_LEN,
    ensures
        r == values_fit(heads@, w as nat),
{
    let mut i: usize = 0;
    while i < heads.len()
        invariant
            heads@.len() <= TABLE_COUNT_MAX,
            0 < w <= NATIVE_ADDR_LEN,
            i <= heads@.len(),
            forall|j: int|
                0 <= j < i ==> #[trigger] new_offset(heads@, j, w as nat) <= u32::MAX && new_length(
                    heads@,
                    j,
                    w as nat,
                ) <= u32::MAX,
        decreases heads@.len() - i,
    {
        let (off, len) = new_values(heads, i, w);
        if off > 0xffff_ffffu64 || len > 0xffff_ffffu64 {
            return false;
        }
        i = i + 1;
    }
    true
}

/// Copies `s[from..to]`.
fn copy_range(s: &[u8], from: usize, to: usize) -> (r: Vec<u8>)
    requires
        from <= to <= s@.len(),
    ensures
        r@ == s@.subrange(from as int, to as int),
{
    let mut r: Vec<u8> = Vec::new();
    let mut k = from;
    while k < to
        invariant
            from <= k <= to,
            to <= s@.len(),
            r@ == s@.subrange(from as int, k as int),
        decreases to - k,
    {
        r.push(s[k]);
        assert(s@.subrange(from as int, k + 1) =~= s@.subrange(from as int, k as int).push(s@[k as int]));
        k = k + 1;
    }
    r
}

/// The edits that widen every address table from `w` bytes per element to the native
/// width (see `full_plan`).
fn build_plan(s: &[u8], heads: &Vec<TableHead>, sob: usize, w: u32) -> (m: Mutator)
    requires
        heads@.len() <= TABLE_COUNT_MAX,
        0 < w < NATIVE_ADDR_LEN,
        sob <= s@.len(),
        values_fit(heads@, w as nat),
        bodies_inside(heads@, sob as nat, s@.len()),
        forall|j: int| 0 <= j < heads@.len() ==> (#[trigger] heads@[j]).start <= heads@[j].end,
    ensures
        m.wf(),
        m@ == full_plan(s@, heads@, sob as nat, w as nat, heads@.len()),
{
    let n = heads.len();
    let mut m = Mutator::new();
    let mut j: usize = 0;
    while j < n
        invariant
            n == heads@.len(),
            heads@.len() <= TABLE_COUNT_MAX,
            0 < w < NATIVE_ADDR_LEN,
            values_fit(heads@, w as nat),
            forall|i: int| 0 <= i < heads@.len() ==> (#[trigger] heads@[i]).start <= heads@[i].end,
            j <= n,
            m.wf(),
            m@ == head_plan(heads@, w as nat, j as nat),
        decreases n - j,
    {
        let h = heads[j];
        let (off, len) = new_values(heads, j, w);
        assert(new_offset(heads@, j as int, w as nat) <= u32::MAX);
        let t = Table { kind: h.table.kind, offset: off as u32, length: len as u32 };
        assert(t == new_head(heads@, j as int, w as nat));
        let v = write_table_head(&t);
        assert(heads@[j as int].start <= heads@[j as int].end);
        m.make_diff(h.start, h.end, v);
        j = j + 1;
    }
    let slen = s.len();
    let mut k: usize = 0;
    while k < n
        invariant
            slen == s@.len(),
            n == heads@.len(),
            0 < w < NATIVE_ADDR_LEN,
            sob <= s@.len(),
            bodies_inside(heads@, sob as nat, s@.len()),
            k <= n,
            m.wf(),
            m@ == full_plan(s@, heads@, sob as nat, w as nat, k as nat),
        decreases n - k,
    {
        let t = heads[k].table;
        if t.kind == ADDRESS_IDENTIFIERS {
            assert(is_addr(heads@[k as int].table));
            let from = sob + t.offset as usize;
            let to = from + t.length as usize;
            let body = copy_range(s, from, to);
            let widened = expand_addr_table(body.as_slice(), w as usize);
            m.make_diff(from, to, widened);
        }
        k = k + 1;
    }
    m
}

/// Reads the header and the table directory, infers the address width, and gives the
/// edits that widen every address table (see `plan_spec`): `None` where every address
/// table already has the native width.
fn read_tables(bytes: &[u8]) -> (r: Result<Option<Mutator>, AdaptError>)
    ensures
        match r {
            Err(e) => plan_spec(bytes@) == Err::<Option<Seq<Edit>>, AdaptError>(e),
            Ok(None) => plan_spec(bytes@) == Ok::<Option<Seq<Edit>>, AdaptError>(None),
            Ok(Some(m)) => m.wf() && plan_spec(bytes@) == Ok::<Option<Seq<Edit>>, AdaptError>(Some(m@)),
        },
{
    let s = bytes;
    let slen = s.len();
    match check(s) {
        Err(e) => return Err(e),
        Ok(_) => {},
    }
    let rc = read_uleb128_as_u64(s, HEADER_SIZE, TABLE_COUNT_MAX);
    let (count, n) = match rc {
        Err(e) => return Err(e),
        Ok(p) => p,
    };
    assert(lift_read(rc) == read_uleb_spec(s@, HEADER_SIZE as int, TABLE_COUNT_MAX as nat));
    let start_of_heads = HEADER_SIZE + n;
    let rh = read_tables_heads(s, start_of_heads, count as usize);
    let (heads, end_of_heads) = match rh {
        Err(e) => return Err(e),
        Ok(p) => p,
    };
    proof {
        lemma_parse_heads_shape(s@, start_of_heads as int, count as nat);
    }
    let ghost sob = if count == 0 {
        start_of_heads as nat
    } else {
        heads@.last().end as nat
    };
    assert(directory_spec(s@) == Ok::<(Seq<TableHead>, nat), AdaptError>((heads@, sob)));
    assert(end_of_heads == sob);
    let lengths = collect_addr_lengths(&heads);
    let w = match address_length(lengths.as_slice()) {
        Err(e) => return Err(e),
        Ok(w) => w,
    };
    if w as usize == NATIVE_ADDR_LEN {
        return Ok(None);
    }
    if w == 0 || w as usize > NATIVE_ADDR_LEN {
        return Err(AdaptError::DetectionFailed);
    }
    if !check_divisible(&heads, w) {
        return Err(AdaptError::DetectionFailed);
    }
    if !check_bodies_inside(&heads, end_of_heads, slen) {
        return Err(AdaptError::BoundsViolation);
    }
    if !check_values_fit(&heads, w) {
        return Err(AdaptError::BoundsViolation);
    }
    let m = build_plan(s, &heads, end_of_heads, w);
    if !m.fits(slen) {
        return Err(AdaptError::BoundsViolation);
    }
    Ok(Some(m))
}

/// Copies a buffer.
fn copy_all(s: &Vec<u8>) -> (r: Vec<u8>)
    ensures
        r@ == s@,
{
    let r = copy_range(s.as_slice(), 0, s.len());
    assert(s@.subrange(0, s@.len() as int) =~= s@);
    r
}

/// Applies the edits of a plan to `bytes`, all at once.
fn apply_changes(changes: Mutator, bytes: &mut Vec<u8>)
    requires
        changes.wf(),
        edits_fit(changes@, old(bytes)@.len()),
    ensures
        final(bytes)@ == splice_from(old(bytes)@, changes@, 0),
{
    changes.mutate(bytes);
}

/// Rewrites `bytes` so that every address table has the native width (see `adapt_spec`).
/// A container whose address tables already have it is left as it is; on every error the
/// buffer is left as it was. A patched buffer is read again before it is kept, and kept
/// only where it needs no further change.
pub fn adapt(bytes: &mut Vec<u8>) -> (r: Result<Adaptation, AdaptError>)
    ensures
        (r, final(bytes)@) == adapt_spec(old(bytes)@),
        r != Err::<Adaptation, AdaptError>(AdaptError::PatchInvariantViolation),
{
    let len = bytes.len();
    proof {
        lemma_adapt_never_violates(bytes@);
    }
    match read_tables(bytes.as_slice()) {
        Err(e) => Err(e),
        Ok(None) => Ok(Adaptation::Unchanged),
        Ok(Some(changes)) => {
            let mut patched = copy_all(bytes);
            apply_changes(changes, &mut patched);
            match read_tables(patched.as_slice()) {
                Ok(None) => {
                    *bytes = patched;
                    Ok(Adaptation::Adapted)
                },
                _ => Err(AdaptError::PatchInvariantViolation),
            }
        },
    }
}

/// A patch that the adapter computes always passes its own re-check, so adapting never
/// ends in a patch invariant violation.
pub proof fn lemma_adapt_never_violates(s: Seq<u8>)
    requires
        s.len() <= usize::MAX,
    ensures
        adapt_spec(s).0 != Err::<Adaptation, AdaptError>(AdaptError::PatchInvariantViolation),
{
    match plan_spec(s) {
        Ok(Some(edits)) => {
            lemma_patch_is_final(s);
            assert(plan_spec(splice_from(s, edits, 0)) == Ok::<Option<Seq<Edit>>, AdaptError>(None));
        },
        _ => {
            match read_uleb_spec(s, HEADER_SIZE as int, TABLE_COUNT_MAX as nat) {
                Ok((count, n)) => lemma_parse_heads_errors(s, HEADER_SIZE + n, count),
                Err(_) => {},
            }
        },
    }
}

/// Adapting is idempotent: adapting the buffer that one adaptation left behind leaves
/// it unchanged.
pub proof fn lemma_adapt_idempotent(s: Seq<u8>)
    ensures
        adapt_spec(adapt_spec(s).1).1 == adapt_spec(s).1,
        adapt_spec(s).0 is Ok ==> adapt_spec(adapt_spec(s).1).0 == Ok::<Adaptation, AdaptError>(
            Adaptation::Unchanged,
        ),
{
    match plan_spec(s) {
        Err(e) => {},
        Ok(None) => {},
        Ok(Some(edits)) => {
            let p = splice_from(s, edits, 0);
            if plan_spec(p) == Ok::<Option<Seq<Edit>>, AdaptError>(None) {
                assert(adapt_spec(s).1 == p);
                assert(adapt_spec(p).1 == p);
            }
        },
    }
}

/// Where the header and the directory can be read and every address table length is a
/// multiple of the native width, adapting changes nothing; where there is at least one
/// address table, it also says so.
pub proof fn lemma_no_mismatch_unchanged(s: Seq<u8>)
    requires
        version_spec(s) is Ok,
        directory_spec(s) is Ok,
        all_multiples(addr_lengths(directory_spec(s)->Ok_0.0), NATIVE_ADDR_LEN as nat),
    ensures
        adapt_spec(s).1 == s,
        addr_lengths(directory_spec(s)->Ok_0.0).len() > 0 ==> adapt_spec(s).0 == Ok::<
            Adaptation,
            AdaptError,
        >(Adaptation::Unchanged),
{
}

/// There is an address length for each address table, and only for those.
proof fn lemma_addr_lengths_nonempty(hs: Seq<TableHead>)
    ensures
        addr_lengths(hs).len() > 0 <==> exists|j: int| 0 <= j < hs.len() && is_addr(#[trigger] hs[j].table),
    decreases hs.len(),
{
    if hs.len() > 0 {
        let init = hs.drop_last();
        lemma_addr_lengths_nonempty(init);
        if exists|j: int| 0 <= j < init.len() && is_addr(#[trigger] init[j].table) {
            let j = choose|j: int| 0 <= j < init.len() && is_addr(#[trigger] init[j].table);
            assert(hs[j] == init[j]);
        }
        if exists|j: int| 0 <= j < hs.len() && is_addr(#[trigger] hs[j].table) {
            let j = choose|j: int| 0 <= j < hs.len() && is_addr(#[trigger] hs[j].table);
            if j < hs.len() - 1 {
                assert(init[j] == hs[j]);
            }
        }
    }
}

/// Descriptors that lie one after the other from `pos` to `sob`, inside `len` bytes.
pub open spec fn heads_in_a_row(heads: Seq<TableHead>, pos: int, sob: nat, len: nat) -> bool {
    &&& heads.len() > 0
    &&& heads[0].start == pos
    &&& heads.last().end == sob
    &&& forall|j: int| 0 <= j < heads.len() ==> (#[trigger] heads[j]).start < heads[j].end <= len
    &&& forall|j: int| 0 <= j < heads.len() - 1 ==> (#[trigger] heads[j]).end == heads[j + 1].start
}

/// The descriptor edits from `i` on, in directory order.
pub open spec fn head_edits(heads: Seq<TableHead>, w: nat, i: int) -> Seq<Edit> {
    Seq::new((heads.len() - i) as nat, |j: int| head_edit(heads, i + j, w))
}

/// The descriptors from `i` on, after widening.
pub open spec fn new_tables(heads: Seq<TableHead>, w: nat, i: int) -> Seq<Table> {
    Seq::new((heads.len() - i) as nat, |j: int| new_head(heads, i + j, w))
}

/// The body edits of the address tables among the first `k` descriptors, in patch order.
pub open spec fn body_plan(s: Seq<u8>, heads: Seq<TableHead>, sob: nat, w: nat, k: nat) -> Seq<Edit>
    decreases k,
{
    if k == 0 {
        seq![]
    } else {
        let p = body_plan(s, heads, sob, w, (k - 1) as nat);
        if is_addr(heads[k - 1].table) {
            insert_sorted(p, body_edit(s, heads, sob, k - 1, w))
        } else {
            p
        }
    }
}

proof fn lemma_head_plan_in_order(heads: Seq<TableHead>, w: nat, m: nat, pos: int, sob: nat, len: nat)
    requires
        heads_in_a_row(heads, pos, sob, len),
        m <= heads.len(),
    ensures
        head_plan(heads, w, m) == head_edits(heads, w, 0).subrange(0, m as int),
    decreases m,
{
    let all = head_edits(heads, w, 0);
    if m == 0 {
        assert(all.subrange(0, 0) =~= Seq::<Edit>::empty());
    } else {
        lemma_head_plan_in_order(heads, w, (m - 1) as nat, pos, sob, len);
        let prev = all.subrange(0, m - 1);
        if m >= 2 {
            assert(heads[m - 2].end == heads[m - 1].start);
            assert(prev.last() == head_edit(heads, m - 2, w));
        }
        lemma_insert_sorted_after(prev, seq![], head_edit(heads, m - 1, w));
        assert(prev + seq![] =~= prev);
        assert(prev + seq![head_edit(heads, m - 1, w)] =~= all.subrange(0, m as int));
    }
}

proof fn lemma_full_plan_split(
    s: Seq<u8>,
    heads: Seq<TableHead>,
    sob: nat,
    w: nat,
    k: nat,
    pos: int,
)
    requires
        heads_in_a_row(heads, pos, sob, s.len()),
        k <= heads.len(),
    ensures
        full_plan(s, heads, sob, w, k) == head_edits(heads, w, 0) + body_plan(s, heads, sob, w, k),
    decreases k,
{
    let h = head_edits(heads, w, 0);
    if k == 0 {
        lemma_head_plan_in_order(heads, w, heads.len(), pos, sob, s.len());
        assert(h.subrange(0, heads.len() as int) =~= h);
        assert(h + seq![] =~= h);
    } else {
        lemma_full_plan_split(s, heads, sob, w, (k - 1) as nat, pos);
        if is_addr(heads[k - 1].table) {
            let last = heads.len() - 1;
            assert(h.last() == head_edit(heads, last, w));
            assert(heads[last].start < heads[last].end);
            lemma_insert_sorted_after(
                h,
                body_plan(s, heads, sob, w, (k - 1) as nat),
                body_edit(s, heads, sob, k - 1, w),
            );
        }
    }
}

proof fn lemma_splice_heads(s: Seq<u8>, heads: Seq<TableHead>, sob: nat, w: nat, pos: int, b: Seq<Edit>, i: int, c: int)
    requires
        heads_in_a_row(heads, pos, sob, s.len()),
        0 <= i < heads.len(),
        0 <= c <= heads[i].start,
    ensures
        splice_from(s, head_edits(heads, w, i) + b, c) == s.subrange(c, heads[i].start as int) + encode_heads(
            new_tables(heads, w, i),
        ) + splice_from(s, b, sob as int),
    decreases heads.len() - i,
{
    let edits = head_edits(heads, w, i) + b;
    let e = head_edit(heads, i, w);
    assert(edits[0] == e);
    assert(edits.drop_first() =~= head_edits(heads, w, i + 1) + b);
    let ts = new_tables(heads, w, i);
    assert(ts[0] == new_head(heads, i, w));
    assert(ts.drop_first() =~= new_tables(heads, w, i + 1));
    assert(e.start < s.len());
    reveal(splice_from);
    assert(splice_from(s, edits, c) == s.subrange(c, heads[i].start as int) + e.value + splice_from(
        s,
        head_edits(heads, w, i + 1) + b,
        heads[i].end as int,
    ));
    if i + 1 < heads.len() {
        assert(heads[i].end == heads[i + 1].start);
        lemma_splice_heads(s, heads, sob, w, pos, b, i + 1, heads[i].end as int);
        assert(s.subrange(heads[i].end as int, heads[i + 1].start as int) =~= Seq::<u8>::empty());
    } else {
        assert(head_edits(heads, w, i + 1) + b =~= b);
        assert(new_tables(heads, w, i + 1) =~= Seq::<Table>::empty());
        assert(heads[i].end == sob);
    }
    assert(encode_heads(ts) == encode_head(ts[0]) + encode_heads(ts.drop_first()));
    assert(s.subrange(c, heads[i].start as int) + e.value + (encode_heads(new_tables(heads, w, i + 1))
        + splice_from(s, b, sob as int)) =~= s.subrange(c, heads[i].start as int) + encode_heads(ts)
        + splice_from(s, b, sob as int));
}

proof fn lemma_addr_lengths_multiples(hs: Seq<TableHead>)
    requires
        forall|j: int|
            0 <= j < hs.len() && is_addr(#[trigger] hs[j].table) ==> (hs[j].table.length as nat) % 16 == 0,
    ensures
        all_multiples(addr_lengths(hs), NATIVE_ADDR_LEN as nat),
    decreases hs.len(),
{
    if hs.len() > 0 {
        let init = hs.drop_last();
        assert forall|j: int| 0 <= j < init.len() && is_addr(#[trigger] init[j].table) implies (
        init[j].table.length as nat) % 16 == 0 by {
            assert(init[j] == hs[j]);
        }
        lemma_addr_lengths_multiples(init);
        let p = addr_lengths(init);
        if is_addr(hs.last().table) {
            assert(hs.last() == hs[hs.len() - 1]);
            assert forall|i: int| 0 <= i < p.push(hs.last().table.length).len() implies (p.push(
                hs.last().table.length,
            )[i] as nat) % (NATIVE_ADDR_LEN as nat) == 0 by {
                if i < p.len() {
                    assert(p.push(hs.last().table.length)[i] == p[i]);
                }
            }
        }
    }
}

/// A patch that the adapter computes needs no further change: the patched buffer reads
/// as a container whose address tables all have the native width.
pub proof fn lemma_patch_is_final(s: Seq<u8>)
    requires
        s.len() <= usize::MAX,
        plan_spec(s) is Ok,
        plan_spec(s)->Ok_0 is Some,
    ensures
        plan_spec(splice_from(s, plan_spec(s)->Ok_0->Some_0, 0)) == Ok::<Option<Seq<Edit>>, AdaptError>(None),
{
    let (count, n) = read_uleb_spec(s, HEADER_SIZE as int, TABLE_COUNT_MAX as nat)->Ok_0;
    let pos = HEADER_SIZE + n;
    lemma_parse_heads_shape(s, pos, count);
    let (heads, sob) = directory_spec(s)->Ok_0;
    let w = detect_width(addr_lengths(heads))->Ok_0 as nat;
    if heads.len() == 0 {
        assert(addr_lengths(heads) =~= Seq::<u32>::empty());
        assert(false);
    }
    assert(heads_in_a_row(heads, pos, sob, s.len()));
    let k = heads.len();
    let edits = full_plan(s, heads, sob, w, k);
    lemma_full_plan_split(s, heads, sob, w, k, pos);
    let b = body_plan(s, heads, sob, w, k);
    lemma_splice_heads(s, heads, sob, w, pos, b, 0, 0);
    let ts = new_tables(heads, w, 0);
    let x = s.subrange(0, pos);
    let rest = splice_from(s, b, sob as int);
    let p = splice_from(s, edits, 0);
    assert(p == x + encode_heads(ts) + rest);
    // the header and the table count are where they were
    assert(p.len() >= pos);
    assert forall|i: int| 0 <= i < pos implies p[i] == s[i] by {
        assert(p[i] == x[i]);
    }
    assert(p.subrange(0, MAGIC_SIZE as int) =~= s.subrange(0, MAGIC_SIZE as int));
    assert(version_spec(p) is Ok);
    crate::leb128::lemma_decode_bound(s, HEADER_SIZE as int);
    lemma_decode_same(s, p, HEADER_SIZE as int);
    assert(read_uleb_spec(p, HEADER_SIZE as int, TABLE_COUNT_MAX as nat) == Ok::<(nat, nat), AdaptError>(
        (count, n),
    ));
    // the descriptors read back as the rewritten ones
    lemma_parse_encoded(x, ts, rest);
    assert(x.len() == pos);
    let new_heads = parse_heads(p, pos, count)->Ok_0;
    assert(new_heads.len() == count);
    assert forall|j: int|
        0 <= j < new_heads.len() && is_addr(#[trigger] new_heads[j].table) implies (new_heads[j].table.length as nat)
        % 16 == 0 by {
        assert(new_heads[j].table == ts[j]);
        assert(ts[j] == new_head(heads, j, w));
        assert(new_length(heads, j, w) <= u32::MAX);
        let q = heads[j].table.length as nat / w;
        assert((q * 16) % 16 == 0) by (nonlinear_arith);
    }
    lemma_addr_lengths_multiples(new_heads);
    // there is still an address table to go by
    lemma_addr_lengths_nonempty(heads);
    lemma_addr_lengths_nonempty(new_heads);
    let j = choose|j: int| 0 <= j < heads.len() && is_addr(#[trigger] heads[j].table);
    assert(new_heads[j].table == ts[j]);
    assert(ts[j] == new_head(heads, j, w));
    assert(is_addr(new_heads[j].table));
}

} // verus!
