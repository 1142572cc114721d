use vstd::prelude::*;
use std::ops::Range;

verus! {

/// One replacement: the bytes `[start, end)` of the unpatched buffer give way to `value`.
pub struct Edit {
    pub start: nat,
    pub end: nat,
    pub value: Seq<u8>,
}

/// Whether the edits are ordered by start and each range is well-ordered.
pub open spec fn sorted_edits(s: Seq<Edit>) -> bool {
    &&& forall|i: int, j: int| 0 <= i < j < s.len() ==> s[i].start <= s[j].start
    &&& forall|i: int| 0 <= i < s.len() ==> s[i].start <= s[i].end
}

/// `s` with `e` added after every edit whose start is not greater than its own.
pub open spec fn insert_sorted(s: Seq<Edit>, e: Edit) -> Seq<Edit>
    decreases s.len(),
{
    if s.len() == 0 {
        seq![e]
    } else if s.last().start <= e.start {
        s.push(e)
    } else {
        insert_sorted(s.drop_last(), e).push(s.last())
    }
}

/// Adding an edit that starts no earlier than every edit of `h` leaves `h` in front.
pub proof fn lemma_insert_sorted_after(h: Seq<Edit>, b: Seq<Edit>, e: Edit)
    requires
        h.len() > 0 ==> h.last().start <= e.start,
    ensures
        insert_sorted(h + b, e) == h + insert_sorted(b, e),
    decreases b.len(),
{
    if b.len() == 0 {
        assert(h + b =~= h);
        if h.len() == 0 {
            assert(h + seq![e] =~= seq![e]);
        } else {
            assert(h.push(e) =~= h + seq![e]);
        }
    } else {
        let hb = h + b;
        assert(hb.last() == b.last());
        if b.last().start <= e.start {
            assert(hb.push(e) =~= h + b.push(e));
        } else {
            assert(hb.drop_last() =~= h + b.drop_last());
            lemma_insert_sorted_after(h, b.drop_last(), e);
            assert((h + insert_sorted(b.drop_last(), e)).push(b.last()) =~= h + insert_sorted(
                b.drop_last(),
                e,
            ).push(b.last()));
        }
    }
}

/// Whether sorted edits can be applied to a buffer of `len` bytes: an edit that starts
/// inside the buffer also ends inside it, and does not reach into the next edit that
/// starts inside the buffer. Edits that start at or past the end append.
pub open spec fn edits_fit(edits: Seq<Edit>, len: nat) -> bool {
    &&& forall|i: int| 0 <= i < edits.len() && edits[i].start < len ==> edits[i].end <= len
    &&& forall|i: int, j: int|
        0 <= i < j < edits.len() && edits[j].start < len ==> edits[i].end <= edits[j].start
}

/// The buffer that results from applying sorted edits, all given in the coordinates of
/// the unpatched buffer, to `buf` from position `cursor` on: the untouched bytes keep
/// their order, each edit's range is replaced by its value, and an edit that starts at or
/// past the end of `buf` appends its value.
#[verifier::opaque]
pub open spec fn splice_from(buf: Seq<u8>, edits: Seq<Edit>, cursor: int) -> Seq<u8>
    decreases edits.len(),
{
    if edits.len() == 0 {
        buf.subrange(cursor, buf.len() as int)
    } else {
        let e = edits[0];
        if e.start >= buf.len() {
            buf.subrange(cursor, buf.len() as int) + e.value + splice_from(
                buf,
                edits.drop_first(),
                buf.len() as int,
            )
        } else {
            buf.subrange(cursor, e.start as int) + e.value + splice_from(
                buf,
                edits.drop_first(),
                e.end as int,
            )
        }
    }
}

/// The change in length that sorted edits make to a buffer of `len` bytes: each edit
/// inside it adds its value's length less its range's; each edit at or past the end adds
/// its value's length.
pub open spec fn size_change(edits: Seq<Edit>, len: nat) -> int
    decreases edits.len(),
{
    if edits.len() == 0 {
        0
    } else {
        let e = edits[0];
        (if e.start >= len {
            e.value.len() as int
        } else {
            e.value.len() - (e.end - e.start)
        }) + size_change(edits.drop_first(), len)
    }
}

/// Applying edits that fit changes the length of the buffer by exactly their size change.
pub proof fn lemma_splice_length(buf: Seq<u8>, edits: Seq<Edit>)
    requires
        sorted_edits(edits),
        edits_fit(edits, buf.len()),
    ensures
        splice_from(buf, edits, 0).len() == buf.len() + size_change(edits, buf.len()),
{
    lemma_splice_length_from(buf, edits, 0);
}

proof fn lemma_splice_length_from(buf: Seq<u8>, edits: Seq<Edit>, cursor: int)
    requires
        sorted_edits(edits),
        edits_fit(edits, buf.len()),
        0 <= cursor <= buf.len(),
        edits.len() > 0 && edits[0].start < buf.len() ==> cursor <= edits[0].start,
    ensures
        splice_from(buf, edits, cursor).len() == buf.len() - cursor + size_change(edits, buf.len()),
    decreases edits.len(),
{
    reveal(splice_from);
    if edits.len() > 0 {
        let e = edits[0];
        let rest = edits.drop_first();
        assert(sorted_edits(rest)) by {
            assert forall|i: int, j: int| 0 <= i < j < rest.len() implies rest[i].start <= rest[j].start by {
                assert(rest[i] == edits[i + 1] && rest[j] == edits[j + 1]);
            }
            assert forall|i: int| 0 <= i < rest.len() implies rest[i].start <= rest[i].end by {
                assert(rest[i] == edits[i + 1]);
            }
        }
        assert(edits_fit(rest, buf.len())) by {
            assert forall|i: int| 0 <= i < rest.len() && rest[i].start < buf.len() implies rest[i].end <= buf.len() by {
                assert(rest[i] == edits[i + 1]);
            }
            assert forall|i: int, j: int| 0 <= i < j < rest.len() && rest[j].start < buf.len() implies rest[i].end <= rest[j].start by {
                assert(rest[i] == edits[i + 1] && rest[j] == edits[j + 1]);
            }
        }
        if rest.len() > 0 {
            assert(rest[0] == edits[1]);
        }
        if e.start >= buf.len() {
            lemma_splice_length_from(buf, rest, buf.len() as int);
        } else {
            lemma_splice_length_from(buf, rest, e.end as int);
        }
    }
}

/// A byte-range replacement in the coordinates of the buffer it will be applied to.
#[derive(Debug)]
pub struct Diff {
    source_range: Range<usize>,
    value: Vec<u8>,
}

impl View for Diff {
    type V = Edit;

    closed spec fn view(&self) -> Edit {
        Edit {
            start: self.source_range.start as nat,
            end: self.source_range.end as nat,
            value: self.value@,
        }
    }
}

impl Diff {
    /// The change in length that applying this replacement makes.
    pub fn offset_diff(&self) -> (r: isize)
        requires
            self@.start <= self@.end,
            self@.value.len() <= isize::MAX,
            self@.end - self@.start <= isize::MAX,
        ensures
            r == self@.value.len() - (self@.end - self@.start),
    {
        let origin_len = (self.source_range.end - self.source_range.start) as isize;
        (self.value.len() as isize) - origin_len
    }

    /// The source range moved by `offset_diff`.
    pub fn source_range_with_diff(&self, offset_diff: isize) -> (r: Range<usize>)
        requires
            0 <= self@.start + offset_diff,
            self@.end + offset_diff <= usize::MAX,
            self@.start <= self@.end,
        ensures
            r.start == self@.start + offset_diff,
            r.end == self@.end + offset_diff,
    {
        let start = ((self.source_range.start as i128) + (offset_diff as i128)) as usize;
        let end = ((self.source_range.end as i128) + (offset_diff as i128)) as usize;
        start..end
    }

    /// The start of the source range moved by `offset_diff`.
    pub fn start_with_diff(&self, offset_diff: isize) -> (r: usize)
        requires
            0 <= self@.start + offset_diff <= usize::MAX,
        ensures
            r == self@.start + offset_diff,
    {
        ((self.source_range.start as i128) + (offset_diff as i128)) as usize
    }

    /// The length of the replacement value.
    pub fn len(&self) -> (r: usize)
        ensures
            r == self@.value.len(),
    {
        self.value.len()
    }
}

/// A set of byte-range replacements, all given in the coordinates of one unpatched
/// buffer, applied together.
#[derive(Debug)]
pub struct Mutator {
    diff: Vec<Diff>,
}

impl View for Mutator {
    type V = Seq<Edit>;

    closed spec fn view(&self) -> Seq<Edit> {
        self.diff@.map_values(|d: Diff| d@)
    }
}

impl Mutator {
    /// The edits are kept ordered by start, and each range is well-ordered.
    pub open spec fn wf(&self) -> bool {
        sorted_edits(self@)
    }

    /// A mutator with no edits.
    pub fn new() -> (r: Mutator)
        ensures
            r@ == Seq::<Edit>::empty(),
            r.wf(),
    {
        let r = Mutator { diff: Vec::new() };
        assert(r@ =~= Seq::<Edit>::empty());
        r
    }

    /// Adds the replacement of `[start_offset, end_offset)` by `new_value`, after the
    /// edits already added whose start is not greater.
    pub fn make_diff(&mut self, start_offset: usize, end_offset: usize, new_value: Vec<u8>)
        requires
            old(self).wf(),
            start_offset <= end_offset,
        ensures
            final(self).wf(),
            final(self)@ == insert_sorted(
                old(self)@,
                Edit { start: start_offset as nat, end: end_offset as nat, value: new_value@ },
            ),
    {
        let ghost e = Edit { start: start_offset as nat, end: end_offset as nat, value: new_value@ };
        let d = Diff { source_range: start_offset..end_offset, value: new_value };
        assert(d@ == e);
        let mut i = self.diff.len();
        assert(self@.subrange(0, i as int) =~= self@);
        assert(insert_sorted(self@, e) + self@.subrange(i as int, i as int) =~= insert_sorted(self@, e));
        while i > 0
            invariant
                e.start == start_offset,
                *self == *old(self),
                sorted_edits(self@),
                i <= self@.len(),
                self@.len() == self.diff@.len(),
                insert_sorted(self@, e) == insert_sorted(self@.subrange(0, i as int), e) + self@.subrange(
                    i as int,
                    self@.len() as int,
                ),
                forall|j: int| i <= j < self@.len() ==> self@[j].start > e.start,
            ensures
                *self == *old(self),
                i <= self@.len(),
                insert_sorted(self@, e) == insert_sorted(self@.subrange(0, i as int), e) + self@.subrange(
                    i as int,
                    self@.len() as int,
                ),
                forall|j: int| i <= j < self@.len() ==> self@[j].start > e.start,
                i > 0 ==> self@[i - 1].start <= e.start,
            decreases i,
        {
            assert(self.diff@[i - 1]@ == self@[i - 1]);
            if self.diff[i - 1].source_range.start <= start_offset {
                break;
            }
            let ghost pre = self@.subrange(0, i as int);
            assert(self.diff@[i - 1]@ == self@[i - 1]);
            assert(self@[i - 1].start > e.start);
            assert(pre.drop_last() =~= self@.subrange(0, i - 1));
            assert(pre.last() == self@[i - 1]);
            assert(insert_sorted(pre, e) == insert_sorted(self@.subrange(0, i - 1), e).push(self@[i - 1]));
            assert(insert_sorted(self@.subrange(0, i - 1), e).push(self@[i - 1]) + self@.subrange(
                i as int,
                self@.len() as int,
            ) =~= insert_sorted(self@.subrange(0, i - 1), e) + self@.subrange(i - 1, self@.len() as int));
            i = i - 1;
        }
        let ghost before = self@;
        proof {
            let pre = before.subrange(0, i as int);
            if i > 0 {
                assert(self.diff@[i - 1]@ == self@[i - 1]);
                assert(pre.last() == before[i - 1]);
                assert(insert_sorted(pre, e) == pre.push(e));
            } else {
                assert(insert_sorted(pre, e) == seq![e]);
            }
            assert(insert_sorted(before, e) =~= before.insert(i as int, e));
        }
        self.diff.insert(i, d);
        assert(self@ =~= before.insert(i as int, e));
        proof {
            let s = self@;
            assert forall|a: int, b: int| 0 <= a < b < s.len() implies s[a].start <= s[b].start by {
                if b < i {
                } else if b == i {
                    if a < i - 1 {
                        assert(before[a].start <= before[i - 1].start);
                    }
                } else if a < i {
                    assert(before[a].start <= e.start || a >= i);
                    if i > 0 && a < i - 1 {
                        assert(before[a].start <= before[i - 1].start);
                    }
                } else if a == i {
                    assert(before[b - 1].start > e.start);
                } else {
                    assert(before[a - 1].start <= before[b - 1].start);
                }
            }
        }
    }

    /// Whether the edits can be applied to a buffer of `len` bytes.
    pub fn fits(&self, len: usize) -> (r: bool)
        requires
            self.wf(),
        ensures
            r == edits_fit(self@, len as nat),
    {
        let n = self.diff.len();
        let ghost edits = self@;
        let mut i: usize = 0;
        while i < n
            invariant
                edits == self@,
                sorted_edits(edits),
                n == edits.len(),
                n == self.diff@.len(),
                i <= n,
                forall|j: int| 0 <= j < i && edits[j].start < len ==> edits[j].end <= len,
                forall|a: int, b: int|
                    0 <= a < b < n && b <= i && edits[b].start < len ==> edits[a].end <= edits[b].start,
            decreases n - i,
        {
            assert(self.diff@[i as int]@ == edits[i as int]);
            let r = &self.diff[i].source_range;
            if r.start < len && r.end > len {
                return false;
            }
            if i + 1 < n {
                assert(self.diff@[i + 1]@ == edits[i + 1]);
                let next = &self.diff[i + 1].source_range;
                if next.start < len && r.end > next.start {
                    return false;
                }
                proof {
                    assert forall|a: int, b: int|
                        0 <= a < b < n && b <= i + 1 && edits[b].start < len implies edits[a].end <= edits[b].start by {
                        if b == i + 1 && a < i {
                            assert(edits[i as int].start <= edits[b].start);
                            assert(edits[a].end <= edits[i as int].start);
                        }
                    }
                }
            }
            i = i + 1;
        }
        true
    }

    /// Applies every edit to `buffer` at once: each range, given in the coordinates of
    /// the unpatched buffer, is replaced by its value, and the bytes between ranges stay
    /// as they were, in order; an edit that starts at or past the end appends.
    pub fn mutate(self, buffer: &mut Vec<u8>)
        requires
            self.wf(),
            edits_fit(self@, old(buffer)@.len()),
        ensures
            final(buffer)@ == splice_from(old(buffer)@, self@, 0),
    {
        let ghost buf = buffer@;
        let ghost edits = self@;
        let n = buffer.len();
        let count = self.diff.len();
        let mut out: Vec<u8> = Vec::new();
        let mut cursor: usize = 0;
        let mut i: usize = 0;
        assert(edits.subrange(0, count as int) =~= edits);
        while i < count
            invariant
                buf == buffer@,
                edits == self@,
                sorted_edits(edits),
                edits_fit(edits, n as nat),
                count == edits.len(),
                count == self.diff@.len(),
                n == buf.len(),
                i <= count,
                cursor <= n,
                i < count && edits[i as int].start < n ==> cursor <= edits[i as int].start,
                splice_from(buf, edits, 0) == out@ + splice_from(
                    buf,
                    edits.subrange(i as int, count as int),
                    cursor as int,
                ),
            decreases count - i,
        {
            let d = &self.diff[i];
            assert(self.diff@[i as int]@ == edits[i as int]);
            proof {
                lemma_splice_step(buf, edits, i as int, cursor as int);
            }
            let ghost prev = out@;
            let ghost tail = edits.subrange(i + 1, count as int);
            if d.source_range.start >= n {
                push_range(&mut out, buffer, cursor, n);
                push_all(&mut out, &d.value);
                assert(prev + (buf.subrange(cursor as int, n as int) + d.value@ + splice_from(buf, tail, n as int))
                    =~= out@ + splice_from(buf, tail, n as int));
                cursor = n;
                proof {
                    if i + 1 < count {
                        assert(edits[i as int].start <= edits[i + 1].start);
                    }
                }
            } else {
                let start = d.source_range.start;
                let end = d.source_range.end;
                proof {
                    if i + 1 < count && edits[i + 1].start < n {
                        assert(edits[i as int].end <= edits[i + 1].start);
                    }
                }
                push_range(&mut out, buffer, cursor, start);
                push_all(&mut out, &d.value);
                assert(prev + (buf.subrange(cursor as int, start as int) + d.value@ + splice_from(buf, tail, end as int))
                    =~= out@ + splice_from(buf, tail, end as int));
                cursor = end;
            }
            i = i + 1;
        }
        push_range(&mut out, buffer, cursor, n);
        assert(edits.subrange(i as int, count as int) =~= Seq::<Edit>::empty());
        proof {
            lemma_splice_end(buf, cursor as int);
        }
        *buffer = out;
    }
}

proof fn lemma_splice_step(buf: Seq<u8>, edits: Seq<Edit>, i: int, cursor: int)
    requires
        0 <= i < edits.len(),
    ensures
        ({
            let e = edits[i];
            let tail = edits.subrange(i + 1, edits.len() as int);
            splice_from(buf, edits.subrange(i, edits.len() as int), cursor) == if e.start >= buf.len() {
                buf.subrange(cursor, buf.len() as int) + e.value + splice_from(buf, tail, buf.len() as int)
            } else {
                buf.subrange(cursor, e.start as int) + e.value + splice_from(buf, tail, e.end as int)
            }
        }),
{
    let rest = edits.subrange(i, edits.len() as int);
    assert(rest.drop_first() =~= edits.subrange(i + 1, edits.len() as int));
    assert(rest[0] == edits[i]);
    reveal(splice_from);
}

proof fn lemma_splice_end(buf: Seq<u8>, cursor: int)
    ensures
        splice_from(buf, Seq::<Edit>::empty(), cursor) == buf.subrange(cursor, buf.len() as int),
{
    reveal(splice_from);
}

/// Appends `src[from..to]` to `out`.
fn push_range(out: &mut Vec<u8>, src: &Vec<u8>, from: usize, to: usize)
    requires
        from <= to <= src@.len(),
    ensures
        final(out)@ == old(out)@ + src@.subrange(from as int, to as int),
{
    let mut k = from;
    while k < to
        invariant
            from <= k <= to,
            to <= src@.len(),
            out@ == old(out)@ + src@.subrange(from as int, k as int),
        decreases to - k,
    {
        out.push(src[k]);
        assert(src@.subrange(from as int, k + 1) =~= src@.subrange(from as int, k as int).push(src@[k as int]));
        k = k + 1;
    }
}

/// Appends all of `src` to `out`.
fn push_all(out: &mut Vec<u8>, src: &Vec<u8>)
    ensures
        final(out)@ == old(out)@ + src@,
{
    push_range(out, src, 0, src.len());
    assert(src@.subrange(0, src@.len() as int) =~= src@);
}

} // verus!
