//! The mathematical model of a page image.
//!
//! A page is a sequence of `PAGE_SIZE` bytes. After the header area it holds a
//! run of *chunks*: a little-endian `u32` length followed by that many data
//! bytes, padded up to the write alignment. A length cell that still holds the
//! erased pattern ends the run. The spec functions here define what a reader
//! of such a page observes, and the lemmas say how that observation changes
//! (or does not change) when bytes are written.

use vstd::prelude::*;
use vstd::arithmetic::div_mod::lemma_fundamental_div_mod_converse;
use crate::config::{ALIGN, ERASE_VALUE, PAGE_SIZE};

verus! {

/// Chunk-length value that means "no chunk committed here": four erased bytes.
pub const ERASED_LEN: u32 = 0xFFFF_FFFF;

/// `p` has the size of a full page image.
pub open spec fn is_page(p: Seq<u8>) -> bool {
    p.len() == PAGE_SIZE
}

/// Every byte of `p` in `[lo, hi)` is erased.
pub open spec fn all_erased(p: Seq<u8>, lo: int, hi: int) -> bool {
    forall|i: int| lo <= i < hi ==> #[trigger] p[i] == ERASE_VALUE
}

/// A fully erased page image.
pub open spec fn erased_page() -> Seq<u8> {
    Seq::new(PAGE_SIZE as nat, |i: int| ERASE_VALUE)
}

/// The value of the four little-endian bytes of `b` starting at `off`.
pub open spec fn le32_at(b: Seq<u8>, off: int) -> int
    recommends
        0 <= off,
        off + 4 <= b.len(),
{
    b[off] + 0x100 * b[off + 1] + 0x1_0000 * b[off + 2] + 0x100_0000 * b[off + 3]
}

/// The four little-endian bytes of `v`.
pub open spec fn le32_enc(v: int) -> Seq<u8>
    recommends
        0 <= v < 0x1_0000_0000,
{
    seq![
        (v % 0x100) as u8,
        (v / 0x100 % 0x100) as u8,
        (v / 0x1_0000 % 0x100) as u8,
        (v / 0x100_0000 % 0x100) as u8,
    ]
}

/// `n` rounded down to the write alignment: how much of a chunk's data
/// stands on flash while the rest waits in a writer's staging buffer.
pub open spec fn align_down(n: int) -> int {
    n - n % (ALIGN as int)
}

/// `n` rounded up to the write alignment.
pub open spec fn align_up(n: int) -> int {
    if n % (ALIGN as int) == 0 {
        n
    } else {
        n + ALIGN - n % (ALIGN as int)
    }
}

/// No chunk starts at `off`: the length cell is off the page or still erased.
pub open spec fn step_end(p: Seq<u8>, off: int) -> bool {
    off + 4 > PAGE_SIZE || le32_at(p, off) == ERASED_LEN
}

/// The length cell at `off` is written but inconsistent: the chunk would run
/// past the end of the page.
pub open spec fn step_corrupt(p: Seq<u8>, off: int) -> bool {
    !step_end(p, off) && off + 4 + le32_at(p, off) > PAGE_SIZE
}

/// Offset of the chunk that follows the one starting at `off`.
pub open spec fn next_off(p: Seq<u8>, off: int) -> int {
    off + 4 + align_up(le32_at(p, off))
}

/// The committed chunks of `p`, parsing from `off`: each element is the data
/// of one chunk. The parse stops at the first erased or inconsistent length
/// cell; what follows the stop is invisible.
pub open spec fn chunks_from(p: Seq<u8>, off: int) -> Seq<Seq<u8>>
    decreases PAGE_SIZE + ALIGN - off,
{
    if off < 0 || step_end(p, off) || step_corrupt(p, off) {
        Seq::empty()
    } else {
        seq![p.subrange(off + 4, off + 4 + le32_at(p, off))] + chunks_from(p, next_off(p, off))
    }
}

/// The offset where the parse of `p` from `off` stops.
pub open spec fn end_off(p: Seq<u8>, off: int) -> int
    decreases PAGE_SIZE + ALIGN - off,
{
    if off < 0 || step_end(p, off) || step_corrupt(p, off) {
        off
    } else {
        end_off(p, next_off(p, off))
    }
}

/// The parse of `p` from `off` stops at an erased length cell or at the end
/// of the page, not at an inconsistent cell.
pub open spec fn tail_clean(p: Seq<u8>, off: int) -> bool
    decreases PAGE_SIZE + ALIGN - off,
{
    if off < 0 {
        false
    } else if step_end(p, off) {
        true
    } else if step_corrupt(p, off) {
        false
    } else {
        tail_clean(p, next_off(p, off))
    }
}

/// The number of data bytes a sequence of chunks holds in all.
pub open spec fn total_len(s: Seq<Seq<u8>>) -> int
    decreases s.len(),
{
    if s.len() == 0 {
        0
    } else {
        s[0].len() + total_len(s.drop_first())
    }
}

/// A total of lengths is never negative.
pub proof fn lemma_total_len_nonneg(s: Seq<Seq<u8>>)
    ensures
        0 <= total_len(s),
    decreases s.len(),
{
    if s.len() > 0 {
        lemma_total_len_nonneg(s.drop_first());
    }
}

/// The committed chunks of a page hold fewer data bytes than the page has
/// room for after `off`.
pub proof fn lemma_chunks_total(p: Seq<u8>, off: int)
    requires
        is_page(p),
        0 <= off,
    ensures
        0 <= total_len(chunks_from(p, off)),
        total_len(chunks_from(p, off)) <= if off <= PAGE_SIZE - 4 {
            PAGE_SIZE - off - 4
        } else {
            0
        },
    decreases PAGE_SIZE + ALIGN - off,
{
    if step_end(p, off) || step_corrupt(p, off) {
    } else {
        let len = le32_at(p, off);
        let nxt = next_off(p, off);
        assert(0 <= p[off]);
        lemma_chunks_total(p, nxt);
        let s = chunks_from(p, off);
        assert(s == seq![p.subrange(off + 4, off + 4 + len)] + chunks_from(p, nxt));
        assert(s.drop_first() =~= chunks_from(p, nxt));
        assert(s[0].len() == len);
    }
}

/// Rounding up to the alignment stays within any aligned bound.
pub proof fn lemma_align_up_le(n: int, m: int)
    requires
        0 <= n <= m,
        m % (ALIGN as int) == 0,
    ensures
        n <= align_up(n) <= m,
        align_up(n) < n + ALIGN,
        align_up(n) % (ALIGN as int) == 0,
{
}

/// Encoding a 32-bit value and reading the bytes back gives the value.
pub proof fn lemma_le32_roundtrip(v: int)
    requires
        0 <= v < 0x1_0000_0000,
    ensures
        le32_enc(v).len() == 4,
        le32_at(le32_enc(v), 0) == v,
{
    lemma_le32_digits(v);
}

/// Four bytes are exactly the encoding of the value they read as.
pub proof fn lemma_le32_inverse(b: Seq<u8>, off: int)
    requires
        0 <= off,
        off + 4 <= b.len(),
    ensures
        0 <= le32_at(b, off) < 0x1_0000_0000,
        le32_enc(le32_at(b, off)) == b.subrange(off, off + 4),
{
    let v = le32_at(b, off);
    let b0 = b[off] as int;
    let b1 = b[off + 1] as int;
    let b2 = b[off + 2] as int;
    let b3 = b[off + 3] as int;
    lemma_fundamental_div_mod_converse(v, 0x100, b1 + 0x100 * b2 + 0x1_0000 * b3, b0);
    let q1 = b1 + 0x100 * b2 + 0x1_0000 * b3;
    lemma_fundamental_div_mod_converse(q1, 0x100, b2 + 0x100 * b3, b1);
    let q2 = b2 + 0x100 * b3;
    lemma_fundamental_div_mod_converse(q2, 0x100, b3, b2);
    assert(v / 0x1_0000 == q2) by {
        lemma_fundamental_div_mod_converse(v, 0x1_0000, q2, b0 + 0x100 * b1);
    }
    assert(v / 0x100_0000 == b3) by {
        lemma_fundamental_div_mod_converse(v, 0x100_0000, b3, b0 + 0x100 * b1 + 0x1_0000 * b2);
    }
    assert(le32_enc(v) =~= b.subrange(off, off + 4));
}

/// The four digit extractions used by `le32_enc` recombine to the value.
proof fn lemma_le32_digits(v: int)
    requires
        0 <= v < 0x1_0000_0000,
    ensures
        v % 0x100 + 0x100 * (v / 0x100 % 0x100) + 0x1_0000 * (v / 0x1_0000 % 0x100) + 0x100_0000
            * (v / 0x100_0000 % 0x100) == v,
        v / 0x100_0000 % 0x100 == v / 0x100_0000,
{
    let b0 = v % 0x100;
    let q1 = v / 0x100;
    let b1 = q1 % 0x100;
    let q2 = q1 / 0x100;
    let b2 = q2 % 0x100;
    let q3 = q2 / 0x100;
    assert(v == 0x100 * q1 + b0);
    assert(q1 == 0x100 * q2 + b1);
    assert(q2 == 0x100 * q3 + b2);
    assert(q3 == v / 0x1_0000_0000 * 0x100 + v / 0x100_0000 % 0x100) by {
        lemma_fundamental_div_mod_converse(v, 0x1_0000, q2, v - 0x1_0000 * q2);
        lemma_fundamental_div_mod_converse(v, 0x100_0000, q3, v - 0x100_0000 * q3);
    }
    assert(q3 < 0x100);
    assert(v / 0x100_0000 == q3) by {
        lemma_fundamental_div_mod_converse(v, 0x100_0000, q3, v - 0x100_0000 * q3);
    }
}

/// A parse started inside the page stops no earlier than where it started.
pub proof fn lemma_end_off_ge(p: Seq<u8>, off: int)
    requires
        0 <= off,
    ensures
        off <= end_off(p, off),
    decreases PAGE_SIZE + ALIGN - off,
{
    if !(step_end(p, off) || step_corrupt(p, off)) {
        lemma_end_off_ge(p, next_off(p, off));
    }
}

/// A parse started at an aligned offset stays aligned and inside the page.
pub proof fn lemma_end_off_aligned(p: Seq<u8>, off: int)
    requires
        0 <= off <= PAGE_SIZE,
        off % (ALIGN as int) == 0,
    ensures
        off <= end_off(p, off) <= PAGE_SIZE,
        end_off(p, off) % (ALIGN as int) == 0,
    decreases PAGE_SIZE + ALIGN - off,
{
    if !(step_end(p, off) || step_corrupt(p, off)) {
        let len = le32_at(p, off);
        assert(0 <= p[off]);
        assert(len <= PAGE_SIZE - off - 4);
        assert(align_up(len) <= PAGE_SIZE - off - 4);
        lemma_end_off_aligned(p, next_off(p, off));
    }
}

/// Four erased bytes read as the erased length value, so the parse stops.
pub proof fn lemma_erased_stop(p: Seq<u8>, off: int)
    requires
        0 <= off,
        off + 4 > PAGE_SIZE || all_erased(p, off, off + 4),
    ensures
        step_end(p, off),
        chunks_from(p, off) == Seq::<Seq<u8>>::empty(),
        end_off(p, off) == off,
        tail_clean(p, off),
{
    if off + 4 <= PAGE_SIZE {
        assert(p[off] == 0xFFu8);
        assert(p[off + 1] == 0xFFu8);
        assert(p[off + 2] == 0xFFu8);
        assert(p[off + 3] == 0xFFu8);
        assert(le32_at(p, off) == 0xFFFF_FFFF);
    }
}

/// The parse from `off` splits at any stop `end_off(p1, off)` reached on a
/// page `p1` that agrees with `p2` up to that stop: the chunks of `p1` are a
/// prefix, and whatever `p2` holds from the stop onward follows. Writes at or
/// past the stop therefore never disturb what was already committed.
pub proof fn lemma_parse_split(p1: Seq<u8>, p2: Seq<u8>, off: int)
    requires
        is_page(p1),
        is_page(p2),
        0 <= off,
        forall|i: int| off <= i < end_off(p1, off) && i < PAGE_SIZE ==> p1[i] == p2[i],
    ensures
        chunks_from(p2, off) == chunks_from(p1, off) + chunks_from(p2, end_off(p1, off)),
        end_off(p2, off) == end_off(p2, end_off(p1, off)),
        tail_clean(p2, off) == tail_clean(p2, end_off(p1, off)),
    decreases PAGE_SIZE + ALIGN - off,
{
    let e = end_off(p1, off);
    if step_end(p1, off) || step_corrupt(p1, off) {
        assert(e == off);
        assert(chunks_from(p1, off) == Seq::<Seq<u8>>::empty());
        assert(chunks_from(p2, off) =~= chunks_from(p1, off) + chunks_from(p2, off));
    } else {
        let len = le32_at(p1, off);
        let nxt = next_off(p1, off);
        assert(0 <= p1[off]);
        lemma_end_off_ge(p1, nxt);
        assert(nxt <= e);
        assert(le32_at(p2, off) == len);
        assert(next_off(p2, off) == nxt);
        assert(!step_end(p2, off) && !step_corrupt(p2, off));
        assert(p2.subrange(off + 4, off + 4 + len) =~= p1.subrange(off + 4, off + 4 + len));
        lemma_parse_split(p1, p2, nxt);
        assert(chunks_from(p2, off) =~= chunks_from(p1, off) + chunks_from(p2, e));
    }
}

/// Nothing parses at a stop offset, and a page that agrees with `p1` up to
/// and including the stop's length cell stops there in the same way.
proof fn lemma_same_stop(p1: Seq<u8>, p2: Seq<u8>, off: int)
    requires
        is_page(p1),
        is_page(p2),
        0 <= off,
        forall|i: int| off <= i < end_off(p1, off) + 4 && i < PAGE_SIZE ==> p1[i] == p2[i],
    ensures
        end_off(p1, end_off(p1, off)) == end_off(p1, off),
        chunks_from(p1, end_off(p1, off)) == Seq::<Seq<u8>>::empty(),
        chunks_from(p2, end_off(p1, off)) == Seq::<Seq<u8>>::empty(),
        end_off(p2, end_off(p1, off)) == end_off(p1, off),
        tail_clean(p2, end_off(p1, off)) == tail_clean(p1, end_off(p1, off)),
{
    let e = end_off(p1, off);
    lemma_end_off_ge(p1, off);
    lemma_parse_split(p1, p1, off);
    assert(chunks_from(p1, e) =~= Seq::<Seq<u8>>::empty()) by {
        assert(chunks_from(p1, off).len() == chunks_from(p1, off).len() + chunks_from(
            p1,
            e,
        ).len());
    }
    assert(end_off(p1, e) == e);
    if !(step_end(p1, e) || step_corrupt(p1, e)) {
        lemma_end_off_ge(p1, next_off(p1, e));
        assert(false);
    }
    if e + 4 <= PAGE_SIZE {
        assert(le32_at(p2, e) == le32_at(p1, e));
    }
    assert(step_end(p2, e) || step_corrupt(p2, e));
    assert(chunks_from(p2, e) =~= Seq::<Seq<u8>>::empty());
}

/// Two pages that agree from `off` to the end are parsed identically from
/// `off`, whatever stands below `off`.
pub proof fn lemma_parse_agree(p1: Seq<u8>, p2: Seq<u8>, off: int)
    requires
        is_page(p1),
        is_page(p2),
        0 <= off,
        forall|i: int| off <= i < PAGE_SIZE ==> p1[i] == p2[i],
    ensures
        chunks_from(p2, off) == chunks_from(p1, off),
        end_off(p2, off) == end_off(p1, off),
        tail_clean(p2, off) == tail_clean(p1, off),
{
    let e = end_off(p1, off);
    lemma_end_off_ge(p1, off);
    lemma_parse_split(p1, p1, off);
    lemma_parse_split(p1, p2, off);
    lemma_same_stop(p1, p2, off);
    assert(chunks_from(p2, off) =~= chunks_from(p1, off));
}

/// Chunk atomicity, the invisible half: data written anywhere at or past the
/// page's first erased length cell — that cell itself untouched — changes
/// nothing for readers. A chunk interrupted before its length cell was
/// written reads back as though it never existed.
pub proof fn lemma_uncommitted_invisible(p1: Seq<u8>, p2: Seq<u8>, off: int)
    requires
        is_page(p1),
        is_page(p2),
        0 <= off,
        forall|i: int|
            off <= i < end_off(p1, off) + 4 && i < PAGE_SIZE ==> p1[i] == p2[i],
    ensures
        chunks_from(p2, off) == chunks_from(p1, off),
        end_off(p2, off) == end_off(p1, off),
{
    lemma_parse_split(p1, p2, off);
    lemma_same_stop(p1, p2, off);
    assert(chunks_from(p2, off) =~= chunks_from(p1, off));
}

/// Commit atomicity, the visible half: a page parses into its old chunks
/// followed by exactly one new one as soon as the length cell at the end of
/// its committed data is written — here holding `len`, with `len` data bytes
/// after it and the rest of the page still erased. Together with
/// [`lemma_uncommitted_invisible`] this is the crash boundary of a commit:
/// cut before the length cell is written and the old chunks stand alone, cut
/// after and the new chunk stands in full; nothing between the two can be
/// observed.
pub proof fn lemma_commit_publishes(p1: Seq<u8>, p2: Seq<u8>, off: int, len: int)
    requires
        is_page(p1),
        is_page(p2),
        0 <= off,
        0 <= len < 0xFFFF_FFFF,
        end_off(p1, off) + 4 + len <= PAGE_SIZE,
        forall|i: int| off <= i < end_off(p1, off) ==> p1[i] == p2[i],
        le32_at(p2, end_off(p1, off)) == len,
        all_erased(p2, end_off(p1, off) + 4 + align_up(len), PAGE_SIZE as int),
    ensures
        chunks_from(p2, off) == chunks_from(p1, off) + seq![
            p2.subrange(end_off(p1, off) + 4, end_off(p1, off) + 4 + len),
        ],
        tail_clean(p2, off),
        end_off(p2, off) == end_off(p1, off) + 4 + align_up(len),
{
    let e = end_off(p1, off);
    lemma_end_off_ge(p1, off);
    lemma_parse_split(p1, p2, off);
    assert(!step_end(p2, e) && !step_corrupt(p2, e));
    assert(next_off(p2, e) == e + 4 + align_up(len));
    lemma_erased_stop(p2, next_off(p2, e));
    assert(chunks_from(p2, e) =~= seq![p2.subrange(e + 4, e + 4 + len)]);
    assert(chunks_from(p2, off) =~= chunks_from(p1, off) + seq![
        p2.subrange(e + 4, e + 4 + len),
    ]);
    assert(tail_clean(p2, e));
    assert(end_off(p2, e) == e + 4 + align_up(len));
}

} // verus!
