//! Framing a page as a header followed by committed chunks.
//!
//! A [`PageWriter`] appends data to a page in write-alignment units and makes
//! it visible with [`PageWriter::commit`], which writes the chunk's length
//! cell; data whose length cell was never written does not exist for a
//! [`PageReader`]. [`PageManager::write_append`] reopens a page after the
//! last committed chunk, refusing the page (it behaves as full) when
//! uncommitted bytes follow it.

use core::marker::PhantomData;
use vstd::prelude::*;
use crate::config::{ALIGN, ERASE_VALUE, MAX_HEADER_SIZE, PAGE_SIZE};
use crate::flash::{written_page, Flash, PageID};
use crate::layout::{
    align_down, all_erased, chunks_from, end_off, erased_page, is_page, le32_at, le32_enc,
    lemma_align_up_le,
    lemma_chunks_total, lemma_le32_inverse, lemma_le32_roundtrip, lemma_total_len_nonneg,
    next_off, step_corrupt, step_end, tail_clean, total_len, ERASED_LEN,
};
use crate::Error;

verus! {

/// Size of the page-layer header (the magic value) at offset 0 of each page.
pub const PAGE_HEADER_SIZE: usize = 4;

/// Size of a chunk's length cell.
pub const CHUNK_HEADER_SIZE: usize = 4;

/// The most data bytes any single chunk can hold.
pub const MAX_CHUNK_SIZE: usize = PAGE_SIZE - PAGE_HEADER_SIZE - CHUNK_HEADER_SIZE;

/// The page-layer header: a magic value identifying the higher layer that
/// owns the page.
#[derive(Clone, Copy, PartialEq, Eq, Debug)]
pub struct PageHeader {
    pub magic: u32,
}

impl PageHeader {
    /// The header's four on-flash bytes.
    pub fn to_bytes(&self) -> (b: Vec<u8>)
        ensures
            b@ == le32_enc(self.magic as int),
    {
        u32_to_le(self.magic)
    }

    /// The header the four bytes at `off` of `b` hold.
    pub fn from_bytes(b: &[u8], off: usize) -> (h: PageHeader)
        requires
            off + 4 <= b@.len(),
        ensures
            h.magic as int == le32_at(b@, off as int),
    {
        PageHeader { magic: le32_from(b, off) }
    }
}

/// A chunk's length cell: the number of data bytes that follow it.
#[derive(Clone, Copy, PartialEq, Eq, Debug)]
pub struct ChunkHeader {
    pub len: u32,
}

impl ChunkHeader {
    /// The cell's four on-flash bytes.
    pub fn to_bytes(&self) -> (b: Vec<u8>)
        ensures
            b@ == le32_enc(self.len as int),
    {
        u32_to_le(self.len)
    }

    /// The cell the four bytes at `off` of `b` hold.
    pub fn from_bytes(b: &[u8], off: usize) -> (h: ChunkHeader)
        requires
            off + 4 <= b@.len(),
        ensures
            h.len as int == le32_at(b@, off as int),
    {
        ChunkHeader { len: le32_from(b, off) }
    }
}

/// Errors a stream reader distinguishes: the end of the data, or flash
/// contents that violate an invariant.
#[derive(Clone, Copy, PartialEq, Eq, Debug)]
pub enum ReadError {
    Eof,
    Corrupted,
}

impl From<Error> for ReadError {
    fn from(err: Error) -> (r: ReadError) {
        match err {
            Error::Corrupted => ReadError::Corrupted,
        }
    }
}

impl vstd::std_specs::convert::FromSpecImpl<Error> for ReadError {
    open spec fn obeys_from_spec() -> bool {
        true
    }

    open spec fn from_spec(err: Error) -> ReadError {
        ReadError::Corrupted
    }
}

/// A higher-layer page header: a distinct magic value plus a fixed-size,
/// alignment-sized byte encoding.
pub trait Header: Sized {
    /// The magic value that marks a page as belonging to this layer.
    spec fn spec_magic() -> u32;

    /// The encoded size in bytes.
    spec fn spec_size() -> int;

    /// The header's byte encoding.
    spec fn enc(&self) -> Seq<u8>;

    /// The encoded size is positive, bounded, and a whole number of
    /// write-alignment units.
    proof fn lemma_size()
        ensures
            0 < Self::spec_size() <= MAX_HEADER_SIZE as int,
            Self::spec_size() % (ALIGN as int) == 0,
    ;

    /// Every encoding has the declared size.
    proof fn lemma_enc(&self)
        ensures
            self.enc().len() == Self::spec_size(),
    ;

    /// The encoding determines the header: reading stored bytes back gives
    /// the very header value that was written.
    proof fn lemma_enc_injective(&self, other: &Self)
        requires
            self.enc() == other.enc(),
        ensures
            *self == *other,
    ;

    fn magic() -> (m: u32)
        ensures
            m == Self::spec_magic(),
    ;

    fn size() -> (n: usize)
        ensures
            n as int == Self::spec_size(),
    ;

    fn to_bytes(&self) -> (b: Vec<u8>)
        ensures
            b@ == self.enc(),
    ;

    fn from_bytes(b: &[u8]) -> (h: Self)
        requires
            b@.len() == Self::spec_size(),
        ensures
            h.enc() == b@,
    ;
}

/// A minimal higher-layer header: one 32-bit field.
#[derive(Clone, Copy, PartialEq, Eq, Debug)]
pub struct PlainHeader {
    pub value: u32,
}

/// The magic value marking pages owned by [`PlainHeader`].
pub const PLAIN_MAGIC: u32 = 0x50414745;

impl Header for PlainHeader {
    open spec fn spec_magic() -> u32 {
        PLAIN_MAGIC
    }

    open spec fn spec_size() -> int {
        4
    }

    open spec fn enc(&self) -> Seq<u8> {
        le32_enc(self.value as int)
    }

    proof fn lemma_size() {
    }

    proof fn lemma_enc(&self) {
    }

    proof fn lemma_enc_injective(&self, other: &Self) {
        lemma_le32_roundtrip(self.value as int);
        lemma_le32_roundtrip(other.value as int);
        assert(le32_at(self.enc(), 0) == le32_at(other.enc(), 0));
    }

    fn magic() -> (m: u32) {
        PLAIN_MAGIC
    }

    fn size() -> (n: usize) {
        4
    }

    fn to_bytes(&self) -> (b: Vec<u8>) {
        u32_to_le(self.value)
    }

    fn from_bytes(b: &[u8]) -> (h: Self) {
        let v = le32_from(b, 0);
        proof {
            lemma_le32_inverse(b@, 0);
            assert(b@.subrange(0, 4) =~= b@);
        }
        PlainHeader { value: v }
    }
}

/// Offset where the chunk area of a page carrying an `H` header begins.
pub open spec fn hdr_end<H: Header>() -> int {
    PAGE_HEADER_SIZE + H::spec_size()
}

/// The little-endian bytes of `v`.
fn u32_to_le(v: u32) -> (b: Vec<u8>)
    ensures
        b@ == le32_enc(v as int),
{
    let mut b: Vec<u8> = Vec::new();
    b.push((v % 0x100) as u8);
    b.push((v / 0x100 % 0x100) as u8);
    b.push((v / 0x1_0000 % 0x100) as u8);
    b.push((v / 0x100_0000 % 0x100) as u8);
    proof {
        assert(b@ =~= le32_enc(v as int));
    }
    b
}

/// The value of the four little-endian bytes at `off` of `b`.
fn le32_from(b: &[u8], off: usize) -> (v: u32)
    requires
        off + 4 <= b@.len(),
    ensures
        v as int == le32_at(b@, off as int),
{
    b[off] as u32 + 0x100 * (b[off + 1] as u32) + 0x1_0000 * (b[off + 2] as u32) + 0x100_0000 * (b[
        off + 3] as u32)
}

/// `n` rounded up to the write alignment.
fn align_up(n: usize) -> (r: usize)
    requires
        n + ALIGN <= usize::MAX,
    ensures
        r as int == crate::layout::align_up(n as int),
        n <= r < n + ALIGN,
{
    if n % ALIGN != 0 {
        n + ALIGN - n % ALIGN
    } else {
        n
    }
}

/// Opens pages of a flash device `F` for reading, writing, and appending.
pub struct PageManager<F: Flash> {
    _phantom: PhantomData<F>,
}

impl<F: Flash> PageManager<F> {
    pub fn new() -> (r: PageManager<F>) {
        PageManager { _phantom: PhantomData }
    }

    /// Writes the page-layer magic and the higher-layer header `header` as
    /// one block at offset 0. The header area must still be erased: a page's
    /// header is written once per erase cycle.
    pub fn write_header<H: Header>(flash: &mut F, page_id: PageID, header: H)
        requires
            old(flash).inv(),
            page_id@ < old(flash).contents().len(),
            all_erased(old(flash).contents()[page_id@], 0, hdr_end::<H>()),
        ensures
            final(flash).inv(),
            final(flash).contents() == old(flash).contents().update(
                page_id@,
                written_page(
                    old(flash).contents()[page_id@],
                    0,
                    le32_enc(H::spec_magic() as int) + header.enc(),
                ),
            ),
    {
        proof {
            H::lemma_size();
            header.lemma_enc();
            old(flash).lemma_inv();
        }
        let mut buf = u32_to_le(H::magic());
        let mut hb = header.to_bytes();
        buf.append(&mut hb);
        flash.write(page_id, 0, buf.as_slice());
    }

    /// Reads and validates the page's headers: `Corrupted` if and only if
    /// the page-layer magic does not match `H`'s.
    pub fn read_header<H: Header>(&mut self, flash: &mut F, page_id: PageID) -> (r: Result<
        H,
        Error,
    >)
        requires
            old(flash).inv(),
            page_id@ < old(flash).contents().len(),
        ensures
            final(flash).inv(),
            final(flash).contents() == old(flash).contents(),
            match r {
                Ok(h) => old(flash).contents()[page_id@].subrange(0, 4) == le32_enc(
                    H::spec_magic() as int,
                ) && h.enc() == old(flash).contents()[page_id@].subrange(
                    PAGE_HEADER_SIZE as int,
                    hdr_end::<H>(),
                ),
                Err(e) => e == Error::Corrupted && old(flash).contents()[page_id@].subrange(0, 4)
                    != le32_enc(H::spec_magic() as int),
            },
    {
        proof {
            H::lemma_size();
            old(flash).lemma_inv();
            use_type_invariant(page_id);
            assert(crate::layout::is_page(old(flash).contents()[page_id@]));
        }
        let ghost page = old(flash).contents()[page_id@];
        let size = H::size();
        let n = PAGE_HEADER_SIZE + size;
        let mut buf: Vec<u8> = vec![0u8; n];
        flash.read(page_id, 0, buf.as_mut_slice());
        let v = le32_from(buf.as_slice(), 0);
        proof {
            lemma_le32_roundtrip(H::spec_magic() as int);
            lemma_le32_inverse(page, 0);
            assert(le32_at(buf@, 0) == le32_at(page, 0)) by {
                assert(buf@[0] == page[0] && buf@[1] == page[1] && buf@[2] == page[2] && buf@[3]
                    == page[3]);
            }
        }
        if v != H::magic() {
            proof {
                assert(page.subrange(0, 4) != le32_enc(H::spec_magic() as int)) by {
                    if page.subrange(0, 4) == le32_enc(H::spec_magic() as int) {
                        assert(le32_at(page, 0) == le32_enc(le32_at(page, 0))[0] + 0x100 * le32_enc(
                            le32_at(page, 0),
                        )[1] + 0x1_0000 * le32_enc(le32_at(page, 0))[2] + 0x100_0000 * le32_enc(
                            le32_at(page, 0),
                        )[3]);
                    }
                }
            }
            return Err(Error::Corrupted);
        }
        let mut hb: Vec<u8> = Vec::new();
        let mut i: usize = 0;
        while i < size
            invariant
                i <= size,
                size as int == H::spec_size(),
                n == PAGE_HEADER_SIZE + size,
                buf@.len() == n,
                hb@.len() == i,
                forall|j: int| 0 <= j < i ==> hb@[j] == buf@[PAGE_HEADER_SIZE + j],
            decreases size - i,
        {
            hb.push(buf[PAGE_HEADER_SIZE + i]);
            i += 1;
        }
        let h = H::from_bytes(hb.as_slice());
        proof {
            assert(hb@ =~= page.subrange(PAGE_HEADER_SIZE as int, hdr_end::<H>()));
            assert(page.subrange(0, 4) =~= le32_enc(H::spec_magic() as int));
        }
        Ok(h)
    }

    /// Opens the page for reading: validates the headers, then positions a
    /// [`PageReader`] on the first committed chunk. `Corrupted` if and only
    /// if the magic does not match or the first length cell is inconsistent.
    pub fn read<H: Header>(&mut self, flash: &mut F, page_id: PageID) -> (r: Result<
        (H, PageReader),
        Error,
    >)
        requires
            old(flash).inv(),
            page_id@ < old(flash).contents().len(),
        ensures
            final(flash).inv(),
            final(flash).contents() == old(flash).contents(),
            match r {
                Ok(hr) => {
                    &&& old(flash).contents()[page_id@].subrange(0, 4) == le32_enc(
                        H::spec_magic() as int,
                    )
                    &&& hr.0.enc() == old(flash).contents()[page_id@].subrange(
                        PAGE_HEADER_SIZE as int,
                        hdr_end::<H>(),
                    )
                    &&& hr.1.wf(old(flash).contents())
                    &&& hr.1.pid() == page_id@
                    &&& hr.1.skipped() == 0
                    &&& hr.1.off() == hdr_end::<H>()
                    &&& hr.1.segs(old(flash).contents()) == chunks_from(
                        old(flash).contents()[page_id@],
                        hdr_end::<H>(),
                    )
                    &&& hr.1.clean(old(flash).contents()) == tail_clean(
                        old(flash).contents()[page_id@],
                        hdr_end::<H>(),
                    )
                    &&& !step_corrupt(old(flash).contents()[page_id@], hdr_end::<H>())
                },
                Err(e) => {
                    &&& e == Error::Corrupted
                    &&& (old(flash).contents()[page_id@].subrange(0, 4) != le32_enc(
                        H::spec_magic() as int,
                    ) || step_corrupt(old(flash).contents()[page_id@], hdr_end::<H>()))
                },
            },
    {
        let header = self.read_header::<H>(flash, page_id)?;
        proof {
            H::lemma_size();
            old(flash).lemma_inv();
            use_type_invariant(page_id);
            lemma_chunks_total(old(flash).contents()[page_id@], hdr_end::<H>());
        }
        let mut r = PageReader {
            page_id,
            prev_chunks_len: 0,
            at_end: false,
            chunk_offset: PAGE_HEADER_SIZE + H::size(),
            chunk_pos: 0,
            chunk_len: 0,
            buf: Vec::new(),
        };
        r.open_chunk(flash)?;
        Ok((header, r))
    }

    /// Reopens the page for appending after its last committed chunk. If
    /// anything was written past that point without being committed, the
    /// page cannot be appended to safely: the returned writer then behaves
    /// as if the page were full and accepts nothing.
    #[verifier::rlimit(100)]
    #[verifier::spinoff_prover]
    pub fn write_append<H: Header>(&mut self, flash: &mut F, page_id: PageID) -> (r: Result<
        (H, PageWriter<H>),
        Error,
    >)
        requires
            old(flash).inv(),
            page_id@ < old(flash).contents().len(),
        ensures
            final(flash).inv(),
            final(flash).contents() == old(flash).contents(),
            match r {
                Ok(hw) => {
                    &&& old(flash).contents()[page_id@].subrange(0, 4) == le32_enc(
                        H::spec_magic() as int,
                    )
                    &&& hw.0.enc() == old(flash).contents()[page_id@].subrange(
                        PAGE_HEADER_SIZE as int,
                        hdr_end::<H>(),
                    )
                    &&& tail_clean(old(flash).contents()[page_id@], hdr_end::<H>())
                    &&& hw.1.wf(old(flash).contents())
                    &&& hw.1.pid() == page_id@
                    &&& !hw.1.fresh()
                    &&& hw.1.pending_len() == 0
                    &&& hw.1.pending(old(flash).contents()) == Seq::<u8>::empty()
                    &&& hw.1.written() == 0
                    &&& hw.1.off() == (if all_erased(
                        old(flash).contents()[page_id@],
                        end_off(old(flash).contents()[page_id@], hdr_end::<H>()),
                        PAGE_SIZE as int,
                    ) {
                        end_off(old(flash).contents()[page_id@], hdr_end::<H>())
                    } else {
                        PAGE_SIZE as int
                    })
                },
                Err(e) => {
                    &&& e == Error::Corrupted
                    &&& (old(flash).contents()[page_id@].subrange(0, 4) != le32_enc(
                        H::spec_magic() as int,
                    ) || !tail_clean(old(flash).contents()[page_id@], hdr_end::<H>()))
                },
            },
    {
        let ghost c = old(flash).contents();
        let ghost page = c[page_id@];
        proof {
            H::lemma_size();
            old(flash).lemma_inv();
            use_type_invariant(page_id);
        }
        let (header, mut rd) = match self.read::<H>(flash, page_id) {
            Ok(hr) => hr,
            Err(e) => {
                proof {
                    if step_corrupt(page, hdr_end::<H>()) {
                        assert(!tail_clean(page, hdr_end::<H>()));
                    }
                }
                return Err(e);
            },
        };
        while !rd.is_done()
            invariant
                flash.inv(),
                c == old(flash).contents(),
                flash.contents() == c,
                page == c[page_id@],
                0 <= page_id@ < c.len(),
                rd.wf(c),
                rd.pid() == page_id@,
                rd.skipped() == 0,
                end_off(page, rd.off()) == end_off(page, hdr_end::<H>()),
                rd.clean(c) == tail_clean(page, hdr_end::<H>()),
                rd.off() <= PAGE_SIZE,
            decreases PAGE_SIZE - rd.off(),
        {
            let ghost before = rd;
            match rd.next_chunk(flash) {
                Ok(_) => {
                    proof {
                        assert(end_off(page, rd.off()) == end_off(page, before.off()));
                    }
                },
                Err(e) => {
                    proof {
                        assert(!tail_clean(page, hdr_end::<H>()));
                    }
                    return Err(e);
                },
            }
        }
        let e_off = rd.end_offset();
        proof {
            assert(step_end(page, rd.off()));
            assert(end_off(page, rd.off()) == rd.off());
            assert(e_off as int == end_off(page, hdr_end::<H>()));
            assert(tail_clean(page, hdr_end::<H>()));
            crate::layout::lemma_end_off_aligned(page, hdr_end::<H>());
        }
        let mut clean_tail = true;
        if e_off != PAGE_SIZE {
            let tail_len = PAGE_SIZE - e_off;
            let mut buf: Vec<u8> = vec![0u8; tail_len];
            flash.read(page_id, e_off, buf.as_mut_slice());
            let mut i: usize = 0;
            while i < tail_len
                invariant
                    i <= tail_len,
                    tail_len == PAGE_SIZE - e_off,
                    0 <= e_off as int <= PAGE_SIZE,
                    buf@.len() == tail_len,
                    forall|j: int| 0 <= j < tail_len ==> buf@[j] == page[e_off + j],
                    clean_tail == all_erased(page, e_off as int, e_off + i),
                decreases tail_len - i,
            {
                if buf[i] != ERASE_VALUE {
                    clean_tail = false;
                    proof {
                        assert(page[e_off + i] != ERASE_VALUE);
                        assert(!all_erased(page, e_off as int, e_off + i + 1));
                    }
                } else {
                    proof {
                        assert(clean_tail ==> all_erased(page, e_off as int, e_off + i + 1));
                        if !clean_tail {
                            let j = choose|j: int|
                                e_off <= j < e_off + i && #[trigger] page[j] != ERASE_VALUE;
                            assert(!all_erased(page, e_off as int, e_off + i + 1));
                        }
                    }
                }
                i += 1;
            }
        }
        let align_buf: Vec<u8> = vec![0u8; ALIGN];
        let w = PageWriter::<H> {
            _phantom: PhantomData,
            page_id,
            needs_erase: false,
            align_buf,
            total_pos: rd.skip_count(),
            chunk_offset: if clean_tail {
                e_off
            } else {
                PAGE_SIZE
            },
            chunk_pos: 0,
        };
        Ok((header, w))
    }

    /// Opens the page for writing from scratch. The returned writer erases
    /// the page lazily, on its first write; until then the flash is
    /// untouched.
    pub fn write<H: Header>(&mut self, _flash: &mut F, page_id: PageID) -> (w: PageWriter<H>)
        requires
            old(_flash).inv(),
            page_id@ < old(_flash).contents().len(),
        ensures
            *final(_flash) == *old(_flash),
            w.wf(old(_flash).contents()),
            w.pid() == page_id@,
            w.fresh(),
            w.pending_len() == 0,
            w.pending(old(_flash).contents()) == Seq::<u8>::empty(),
            w.written() == 0,
            w.off() == hdr_end::<H>(),
    {
        proof {
            H::lemma_size();
            old(_flash).lemma_inv();
            use_type_invariant(page_id);
        }
        let align_buf: Vec<u8> = vec![0u8; ALIGN];
        let size = H::size();
        PageWriter {
            _phantom: PhantomData,
            page_id,
            needs_erase: true,
            align_buf,
            total_pos: 0,
            chunk_offset: PAGE_HEADER_SIZE + size,
            chunk_pos: 0,
        }
    }
}

/// How many bytes a read or skip asking for `d` bytes consumes when the
/// reader's remaining segments are `s`: the rest of the current chunk if any
/// of it remains, else the next chunk's data, one chunk at a time.
pub open spec fn step_take(s: Seq<Seq<u8>>, d: int) -> int {
    if s.len() == 0 || d == 0 {
        0
    } else if s[0].len() > 0 {
        if d < s[0].len() {
            d
        } else {
            s[0].len() as int
        }
    } else if s.len() == 1 {
        0
    } else if d < s[1].len() {
        d
    } else {
        s[1].len() as int
    }
}

/// The segments that remain after such a read or skip.
pub open spec fn step_rest(s: Seq<Seq<u8>>, d: int) -> Seq<Seq<u8>> {
    if s.len() == 0 || d == 0 {
        s
    } else if s[0].len() > 0 {
        seq![s[0].skip(step_take(s, d))] + s.drop_first()
    } else if s.len() == 1 {
        Seq::empty()
    } else {
        seq![s[1].skip(step_take(s, d))] + s.skip(2)
    }
}

/// The bytes such a read delivers.
pub open spec fn step_data(s: Seq<Seq<u8>>, d: int) -> Seq<u8> {
    if s.len() == 0 || d == 0 {
        Seq::empty()
    } else if s[0].len() > 0 {
        s[0].take(step_take(s, d))
    } else if s.len() == 1 {
        Seq::empty()
    } else {
        s[1].take(step_take(s, d))
    }
}

/// Such a read or skip steps onto the inconsistent length cell and fails.
pub open spec fn step_corrupts(s: Seq<Seq<u8>>, clean: bool, d: int) -> bool {
    d > 0 && s.len() == 1 && s[0].len() == 0 && !clean
}

/// Reads the committed chunks of one page in order, advancing chunk by
/// chunk; data after the last committed length cell is invisible to it.
pub struct PageReader {
    page_id: PageID,
    /// Bytes consumed through `skip` so far.
    prev_chunks_len: usize,
    /// The parse has passed the last committed chunk.
    at_end: bool,
    /// Offset of the current chunk's length cell.
    chunk_offset: usize,
    /// Read position within the current chunk's data.
    chunk_pos: usize,
    /// Data bytes in the current chunk.
    chunk_len: usize,
    /// The current chunk's data, padded to the write alignment.
    buf: Vec<u8>,
}

impl PageReader {
    /// The page this reader walks.
    pub closed spec fn pid(&self) -> int {
        self.page_id@
    }

    /// Offset of the current chunk's length cell.
    pub closed spec fn off(&self) -> int {
        self.chunk_offset as int
    }

    /// Bytes consumed through `skip` so far.
    pub closed spec fn skipped(&self) -> int {
        self.prev_chunks_len as int
    }

    /// The reader is consistent with the flash contents `c`.
    pub closed spec fn wf(&self, c: Seq<Seq<u8>>) -> bool {
        let page = c[self.page_id@];
        &&& 0 <= self.page_id@ < c.len()
        &&& is_page(page)
        &&& (self.chunk_offset as int) % (ALIGN as int) == 0
        &&& PAGE_HEADER_SIZE + ALIGN <= self.chunk_offset <= PAGE_SIZE
        &&& self.prev_chunks_len + total_len(self.segs(c)) <= PAGE_SIZE
        &&& if self.at_end {
            step_end(page, self.off())
        } else {
            &&& self.chunk_offset + CHUNK_HEADER_SIZE <= PAGE_SIZE
            &&& le32_at(page, self.off()) == self.chunk_len as int
            &&& self.chunk_offset + CHUNK_HEADER_SIZE + self.chunk_len <= PAGE_SIZE
            &&& self.chunk_pos <= self.chunk_len
            &&& self.buf@.len() == crate::layout::align_up(self.chunk_len as int)
            &&& self.chunk_offset + CHUNK_HEADER_SIZE + self.buf@.len() <= PAGE_SIZE
            &&& self.buf@.subrange(0, self.chunk_len as int) == page.subrange(
                self.off() + CHUNK_HEADER_SIZE,
                self.off() + CHUNK_HEADER_SIZE + self.chunk_len,
            )
        }
    }

    /// What remains to be read: the rest of the current chunk, then the data
    /// of each further committed chunk.
    pub closed spec fn segs(&self, c: Seq<Seq<u8>>) -> Seq<Seq<u8>> {
        let page = c[self.page_id@];
        if self.at_end {
            Seq::empty()
        } else {
            seq![
                page.subrange(
                    self.off() + CHUNK_HEADER_SIZE + self.chunk_pos,
                    self.off() + CHUNK_HEADER_SIZE + self.chunk_len,
                ),
            ] + chunks_from(page, next_off(page, self.off()))
        }
    }

    /// The data still ahead of the reader ends at an erased length cell or
    /// at the end of the page, not at an inconsistent one.
    pub closed spec fn clean(&self, c: Seq<Seq<u8>>) -> bool {
        if self.at_end {
            true
        } else {
            tail_clean(c[self.page_id@], next_off(c[self.page_id@], self.off()))
        }
    }

    /// The reader's position is a plausible chunk boundary, before the
    /// current chunk (if any) has been examined.
    spec fn pre_wf(&self, c: Seq<Seq<u8>>) -> bool {
        &&& 0 <= self.page_id@ < c.len()
        &&& is_page(c[self.page_id@])
        &&& (self.chunk_offset as int) % (ALIGN as int) == 0
        &&& PAGE_HEADER_SIZE + ALIGN <= self.chunk_offset <= PAGE_SIZE
        &&& self.prev_chunks_len + total_len(
            chunks_from(c[self.page_id@], self.chunk_offset as int),
        ) <= PAGE_SIZE
        &&& !self.at_end
    }

    /// Examines the length cell at `chunk_offset` and loads that chunk.
    /// `Ok(true)`: a chunk is loaded. `Ok(false)`: the parse is at its end.
    /// `Err`: the cell is written but inconsistent.
    fn open_chunk<F: Flash>(&mut self, flash: &mut F) -> (r: Result<bool, Error>)
        requires
            old(flash).inv(),
            old(self).pre_wf(old(flash).contents()),
        ensures
            final(flash).inv(),
            final(flash).contents() == old(flash).contents(),
            final(self).pid() == old(self).pid(),
            final(self).skipped() == old(self).skipped(),
            final(self).off() == old(self).off(),
            match r {
                Ok(b) => {
                    &&& final(self).wf(old(flash).contents())
                    &&& final(self).segs(old(flash).contents()) == chunks_from(
                        old(flash).contents()[old(self).pid()],
                        old(self).off(),
                    )
                    &&& final(self).clean(old(flash).contents()) == tail_clean(
                        old(flash).contents()[old(self).pid()],
                        old(self).off(),
                    )
                    &&& b == (final(self).segs(old(flash).contents()).len() > 0)
                },
                Err(e) => e == Error::Corrupted && step_corrupt(
                    old(flash).contents()[old(self).pid()],
                    old(self).off(),
                ),
            },
    {
        let ghost page = old(flash).contents()[old(self).pid()];
        let data_start = self.chunk_offset + CHUNK_HEADER_SIZE;
        if data_start > PAGE_SIZE {
            self.at_end = true;
            return Ok(false);
        }
        let mut hdr: Vec<u8> = vec![0u8; CHUNK_HEADER_SIZE];
        flash.read(self.page_id, self.chunk_offset, hdr.as_mut_slice());
        let header = ChunkHeader::from_bytes(hdr.as_slice(), 0);
        proof {
            assert(le32_at(hdr@, 0) == le32_at(page, old(self).off())) by {
                assert(forall|j: int| 0 <= j < 4 ==> hdr@[j] == page[old(self).off() + j]);
            }
        }
        if header.len == ERASED_LEN {
            self.at_end = true;
            return Ok(false);
        }
        let max = PAGE_SIZE - data_start;
        if header.len > max as u32 {
            return Err(Error::Corrupted);
        }
        let len = header.len as usize;
        let n = align_up(len);
        proof {
            lemma_align_up_le(len as int, max as int);
        }
        let mut buf: Vec<u8> = vec![0u8; n];
        flash.read(self.page_id, data_start, buf.as_mut_slice());
        self.chunk_pos = 0;
        self.chunk_len = len;
        self.buf = buf;
        proof {
            assert(self.buf@.subrange(0, len as int) =~= page.subrange(
                old(self).off() + CHUNK_HEADER_SIZE,
                old(self).off() + CHUNK_HEADER_SIZE + len,
            ));
            assert(!step_end(page, old(self).off()) && !step_corrupt(page, old(self).off()));
            assert(self.segs(old(flash).contents()) =~= chunks_from(page, old(self).off()));
        }
        Ok(true)
    }

    /// Moves past the current chunk and opens the one after it.
    fn next_chunk<F: Flash>(&mut self, flash: &mut F) -> (r: Result<bool, Error>)
        requires
            old(flash).inv(),
            old(self).wf(old(flash).contents()),
            !old(self).at_end,
        ensures
            final(flash).inv(),
            final(flash).contents() == old(flash).contents(),
            final(self).pid() == old(self).pid(),
            final(self).skipped() == old(self).skipped(),
            match r {
                Ok(b) => {
                    &&& final(self).wf(old(flash).contents())
                    &&& final(self).segs(old(flash).contents()) == old(self).segs(
                        old(flash).contents(),
                    ).drop_first()
                    &&& final(self).clean(old(flash).contents()) == old(self).clean(
                        old(flash).contents(),
                    )
                    &&& b == (final(self).segs(old(flash).contents()).len() > 0)
                    &&& old(self).off() < final(self).off() <= PAGE_SIZE
                    &&& end_off(old(flash).contents()[old(self).pid()], final(self).off())
                        == end_off(old(flash).contents()[old(self).pid()], old(self).off())
                    &&& !b ==> final(self).off() == end_off(
                        old(flash).contents()[old(self).pid()],
                        old(self).off(),
                    )
                },
                Err(e) => e == Error::Corrupted && old(self).segs(old(flash).contents()).len()
                    == 1 && !old(self).clean(old(flash).contents()),
            },
    {
        let ghost page = old(flash).contents()[old(self).pid()];
        let n = align_up(self.chunk_len);
        proof {
            lemma_align_up_le(
                self.chunk_len as int,
                PAGE_SIZE - self.chunk_offset - CHUNK_HEADER_SIZE,
            );
        }
        self.chunk_offset = self.chunk_offset + CHUNK_HEADER_SIZE + n;
        proof {
            assert(self.chunk_offset as int == next_off(page, old(self).off()));
            assert(end_off(page, old(self).off()) == end_off(page, self.chunk_offset as int));
            let s0 = old(self).segs(old(flash).contents());
            assert(s0.drop_first() =~= chunks_from(page, self.chunk_offset as int));
            assert(total_len(s0) == s0[0].len() + total_len(s0.drop_first()));
        }
        let r = self.open_chunk(flash);
        proof {
            if r is Ok {
                assert(self.segs(old(flash).contents()) =~= old(self).segs(
                    old(flash).contents(),
                ).drop_first());
                if self.segs(old(flash).contents()).len() == 0 {
                    assert(step_end(page, self.off()));
                    assert(end_off(page, self.off()) == self.off());
                }
            }
        }
        r
    }

    /// Whether the parse has already passed the last committed chunk.
    fn is_done(&self) -> (r: bool)
        ensures
            r == self.at_end,
    {
        self.at_end
    }

    /// The offset the parse has reached.
    fn end_offset(&self) -> (r: usize)
        ensures
            r as int == self.off(),
    {
        self.chunk_offset
    }

    /// How many bytes `skip` has passed.
    fn skip_count(&self) -> (r: usize)
        ensures
            r as int == self.skipped(),
    {
        self.prev_chunks_len
    }

    /// The page this reader reads.
    pub fn page_id(&self) -> (r: PageID)
        ensures
            r@ == self.pid(),
    {
        self.page_id
    }

    /// Copies up to `data.len()` bytes of committed data into `data`,
    /// advancing to the next committed chunk when the current one is
    /// exhausted. Returns how many bytes were copied; 0 at the end of the
    /// page's committed data.
    #[verifier::rlimit(50)]
    pub fn read<F: Flash>(&mut self, flash: &mut F, data: &mut [u8]) -> (r: Result<usize, Error>)
        requires
            old(flash).inv(),
            old(self).wf(old(flash).contents()),
        ensures
            final(flash).inv(),
            final(flash).contents() == old(flash).contents(),
            final(self).pid() == old(self).pid(),
            final(self).skipped() == old(self).skipped(),
            final(data)@.len() == old(data)@.len(),
            match r {
                Ok(n) => {
                    &&& final(self).wf(old(flash).contents())
                    &&& final(self).clean(old(flash).contents()) == old(self).clean(
                        old(flash).contents(),
                    )
                    &&& n as int == step_take(
                        old(self).segs(old(flash).contents()),
                        old(data)@.len() as int,
                    )
                    &&& final(self).segs(old(flash).contents()) == step_rest(
                        old(self).segs(old(flash).contents()),
                        old(data)@.len() as int,
                    )
                    &&& final(data)@ == step_data(
                        old(self).segs(old(flash).contents()),
                        old(data)@.len() as int,
                    ) + old(data)@.skip(n as int)
                },
                Err(e) => {
                    &&& e == Error::Corrupted
                    &&& step_corrupts(
                        old(self).segs(old(flash).contents()),
                        old(self).clean(old(flash).contents()),
                        old(data)@.len() as int,
                    )
                    &&& final(data)@ == old(data)@
                },
            },
    {
        let ghost c = old(flash).contents();
        let ghost s = old(self).segs(c);
        if self.at_end || data.len() == 0 {
            return Ok(0);
        }
        if self.chunk_pos == self.chunk_len {
            let more = self.next_chunk(flash)?;
            if !more {
                proof {
                    assert(self.segs(c) =~= step_rest(s, old(data)@.len() as int));
                }
                return Ok(0);
            }
        }
        let ghost t = self.segs(c);
        let ghost snap = *self;
        let ghost page = c[old(self).pid()];
        let rem = self.chunk_len - self.chunk_pos;
        let n = if data.len() < rem {
            data.len()
        } else {
            rem
        };
        let mut i: usize = 0;
        while i < n
            invariant
                *self == snap,
                self.wf(c),
                flash.inv(),
                flash.contents() == c,
                !self.at_end,
                i <= n,
                n <= data@.len(),
                n == if data@.len() < self.chunk_len - self.chunk_pos {
                    data@.len() as int
                } else {
                    self.chunk_len - self.chunk_pos
                },
                data@.len() == old(data)@.len(),
                forall|j: int| 0 <= j < i ==> data@[j] == self.buf@[self.chunk_pos + j],
                forall|j: int| n <= j < data@.len() ==> data@[j] == old(data)@[j],
            decreases n - i,
        {
            data[i] = self.buf[self.chunk_pos + i];
            i += 1;
        }
        self.chunk_pos = self.chunk_pos + n;
        proof {
            let d = old(data)@.len() as int;
            assert(t[0] =~= page.subrange(
                snap.off() + CHUNK_HEADER_SIZE + snap.chunk_pos,
                snap.off() + CHUNK_HEADER_SIZE + snap.chunk_len,
            ));
            assert(n as int == if d < t[0].len() { d } else { t[0].len() as int });
            assert(t[0].skip(n as int) =~= page.subrange(
                snap.off() + CHUNK_HEADER_SIZE + snap.chunk_pos + n,
                snap.off() + CHUNK_HEADER_SIZE + snap.chunk_len,
            ));
            assert(self.segs(c) =~= seq![t[0].skip(n as int)] + t.drop_first());
            assert(data@.subrange(0, n as int) =~= t[0].take(n as int)) by {
                assert forall|j: int| 0 <= j < n implies data@[j] == t[0][j] by {
                    assert(data@[j] == snap.buf@[snap.chunk_pos + j]);
                    assert(snap.buf@.subrange(0, snap.chunk_len as int) == page.subrange(
                        snap.off() + CHUNK_HEADER_SIZE,
                        snap.off() + CHUNK_HEADER_SIZE + snap.chunk_len,
                    ));
                    assert(snap.buf@[snap.chunk_pos + j] == snap.buf@.subrange(
                        0,
                        snap.chunk_len as int,
                    )[snap.chunk_pos + j]);
                }
            }
            if s[0].len() > 0 {
                assert(t == s);
                assert(self.segs(c) =~= step_rest(s, d));
            } else {
                assert(t == s.drop_first());
                assert(t[0] == s[1]);
                assert(t.drop_first() =~= s.skip(2));
                assert(self.segs(c) =~= step_rest(s, d));
            }
            assert(data@ =~= step_data(s, d) + old(data)@.skip(n as int));
            let u = self.segs(c);
            assert(u.drop_first() =~= t.drop_first());
            assert(total_len(u) == u[0].len() + total_len(u.drop_first()));
            assert(total_len(t) == t[0].len() + total_len(t.drop_first()));
            if s[0].len() == 0 {
                assert(total_len(s) == s[0].len() + total_len(s.drop_first()));
            }
        }
        Ok(n)
    }

    /// Advances past up to `len` bytes of committed data without copying
    /// them, chunk by chunk, counting what it skipped. Returns how many
    /// bytes it passed; 0 at the end of the page's committed data.
    pub fn skip<F: Flash>(&mut self, flash: &mut F, len: usize) -> (r: Result<usize, Error>)
        requires
            old(flash).inv(),
            old(self).wf(old(flash).contents()),
        ensures
            final(flash).inv(),
            final(flash).contents() == old(flash).contents(),
            final(self).pid() == old(self).pid(),
            match r {
                Ok(n) => {
                    &&& final(self).wf(old(flash).contents())
                    &&& final(self).clean(old(flash).contents()) == old(self).clean(
                        old(flash).contents(),
                    )
                    &&& n as int == step_take(old(self).segs(old(flash).contents()), len as int)
                    &&& final(self).segs(old(flash).contents()) == step_rest(
                        old(self).segs(old(flash).contents()),
                        len as int,
                    )
                    &&& final(self).skipped() == old(self).skipped() + n as int
                },
                Err(e) => {
                    &&& e == Error::Corrupted
                    &&& step_corrupts(
                        old(self).segs(old(flash).contents()),
                        old(self).clean(old(flash).contents()),
                        len as int,
                    )
                },
            },
    {
        let ghost c = old(flash).contents();
        let ghost s = old(self).segs(c);
        if self.at_end || len == 0 {
            return Ok(0);
        }
        if self.chunk_pos == self.chunk_len {
            let more = self.next_chunk(flash)?;
            if !more {
                proof {
                    assert(self.segs(c) =~= step_rest(s, len as int));
                }
                return Ok(0);
            }
        }
        let ghost t = self.segs(c);
        let ghost snap = *self;
        let ghost page = c[old(self).pid()];
        let rem = self.chunk_len - self.chunk_pos;
        let n = if len < rem {
            len
        } else {
            rem
        };
        proof {
            lemma_total_len_nonneg(t.drop_first());
            assert(total_len(t) == t[0].len() + total_len(t.drop_first()));
            if s[0].len() == 0 {
                assert(total_len(s) == s[0].len() + total_len(s.drop_first()));
            }
            assert(self.prev_chunks_len + n <= PAGE_SIZE);
        }
        self.prev_chunks_len = self.prev_chunks_len + n;
        self.chunk_pos = self.chunk_pos + n;
        proof {
            let d = len as int;
            assert(t[0] =~= page.subrange(
                snap.off() + CHUNK_HEADER_SIZE + snap.chunk_pos,
                snap.off() + CHUNK_HEADER_SIZE + snap.chunk_len,
            ));
            assert(n as int == if d < t[0].len() { d } else { t[0].len() as int });
            assert(t[0].skip(n as int) =~= page.subrange(
                snap.off() + CHUNK_HEADER_SIZE + snap.chunk_pos + n,
                snap.off() + CHUNK_HEADER_SIZE + snap.chunk_len,
            ));
            assert(self.segs(c) =~= seq![t[0].skip(n as int)] + t.drop_first());
            if s[0].len() > 0 {
                assert(t == s);
                assert(self.segs(c) =~= step_rest(s, d));
            } else {
                assert(t == s.drop_first());
                assert(t[0] == s[1]);
                assert(t.drop_first() =~= s.skip(2));
                assert(self.segs(c) =~= step_rest(s, d));
            }
            let u = self.segs(c);
            assert(u.drop_first() =~= t.drop_first());
            assert(total_len(u) == u[0].len() + total_len(u.drop_first()));
        }
        Ok(n)
    }

    /// Whether the reader has consumed all committed data, advancing to the
    /// next committed chunk to find out if need be.
    pub fn is_at_eof<F: Flash>(&mut self, flash: &mut F) -> (r: Result<bool, Error>)
        requires
            old(flash).inv(),
            old(self).wf(old(flash).contents()),
        ensures
            final(flash).inv(),
            final(flash).contents() == old(flash).contents(),
            final(self).pid() == old(self).pid(),
            final(self).skipped() == old(self).skipped(),
            match r {
                Ok(b) => {
                    &&& final(self).wf(old(flash).contents())
                    &&& final(self).clean(old(flash).contents()) == old(self).clean(
                        old(flash).contents(),
                    )
                    &&& b == (old(self).segs(old(flash).contents()).len() == 0 || (old(self).segs(
                        old(flash).contents(),
                    ).len() == 1 && old(self).segs(old(flash).contents())[0].len() == 0))
                    &&& (old(self).segs(old(flash).contents()).len() >= 1 && old(self).segs(
                        old(flash).contents(),
                    )[0].len() == 0) ==> final(self).segs(old(flash).contents()) == old(self).segs(
                        old(flash).contents(),
                    ).drop_first()
                    &&& !(old(self).segs(old(flash).contents()).len() >= 1 && old(self).segs(
                        old(flash).contents(),
                    )[0].len() == 0) ==> final(self).segs(old(flash).contents()) == old(self).segs(
                        old(flash).contents(),
                    )
                },
                Err(e) => {
                    &&& e == Error::Corrupted
                    &&& step_corrupts(
                        old(self).segs(old(flash).contents()),
                        old(self).clean(old(flash).contents()),
                        1,
                    )
                },
            },
    {
        let ghost c = old(flash).contents();
        let ghost s = old(self).segs(c);
        if self.at_end {
            return Ok(true);
        }
        if self.chunk_pos == self.chunk_len {
            let more = self.next_chunk(flash)?;
            if !more {
                proof {
                    assert(self.segs(c) =~= s.drop_first());
                }
                return Ok(true);
            }
            return Ok(false);
        }
        Ok(false)
    }
}

/// Appends data to one page, an alignment unit at a time, and publishes it
/// chunk by chunk: nothing it wrote can be read back until
/// [`PageWriter::commit`] writes the chunk's length cell.
pub struct PageWriter<H: Header> {
    _phantom: PhantomData<H>,
    page_id: PageID,
    /// The page is erased lazily, on the first write through this writer.
    needs_erase: bool,
    /// Staging buffer holding the bytes of the partly filled alignment unit.
    align_buf: Vec<u8>,
    /// Total data bytes this writer has accepted.
    total_pos: usize,
    /// Offset of the current chunk's length cell.
    chunk_offset: usize,
    /// Data bytes so far in the current, uncommitted chunk.
    chunk_pos: usize,
}

impl<H: Header> PageWriter<H> {
    /// The page this writer appends to.
    pub closed spec fn pid(&self) -> int {
        self.page_id@
    }

    /// Offset of the current chunk's length cell.
    pub closed spec fn off(&self) -> int {
        self.chunk_offset as int
    }

    /// Data bytes of the current chunk so far.
    pub closed spec fn pending_len(&self) -> int {
        self.chunk_pos as int
    }

    /// Total data bytes this writer has accepted.
    pub closed spec fn written(&self) -> int {
        self.total_pos as int
    }

    /// The writer has not yet erased its page.
    pub closed spec fn fresh(&self) -> bool {
        self.needs_erase
    }

    /// How many more data bytes the current chunk can take.
    pub open spec fn avail(&self) -> int {
        if self.off() + CHUNK_HEADER_SIZE + self.pending_len() >= PAGE_SIZE {
            0
        } else {
            PAGE_SIZE - CHUNK_HEADER_SIZE - self.off() - self.pending_len()
        }
    }

    /// The bytes of the current, uncommitted chunk: what the next commit
    /// would publish. Part lies on flash already; the rest waits in the
    /// staging buffer.
    pub closed spec fn pending(&self, c: Seq<Seq<u8>>) -> Seq<u8> {
        let page = c[self.page_id@];
        let flushed = self.chunk_pos as int - self.chunk_pos as int % (ALIGN as int);
        if self.needs_erase || self.chunk_offset + CHUNK_HEADER_SIZE > PAGE_SIZE {
            Seq::empty()
        } else {
            page.subrange(
                self.off() + CHUNK_HEADER_SIZE,
                self.off() + CHUNK_HEADER_SIZE + flushed,
            ) + self.align_buf@.subrange(0, self.chunk_pos as int % (ALIGN as int))
        }
    }

    /// The pending chunk holds exactly `pending_len` bytes; with none
    /// pending it is empty.
    pub proof fn lemma_pending_len(&self, c: Seq<Seq<u8>>)
        requires
            self.wf(c),
        ensures
            self.pending(c).len() == self.pending_len(),
            self.pending_len() == 0 ==> self.pending(c) == Seq::<u8>::empty(),
    {
        if self.pending_len() == 0 {
            assert(self.pending(c) =~= Seq::<u8>::empty());
        }
    }

    /// The writer is consistent with the flash contents `c`: its offset is
    /// where the page's parse stops, the length cell there and everything
    /// past the flushed data are still erased.
    pub closed spec fn wf(&self, c: Seq<Seq<u8>>) -> bool {
        let page = c[self.page_id@];
        let flushed = self.chunk_pos as int - self.chunk_pos as int % (ALIGN as int);
        &&& 0 <= self.page_id@ < c.len()
        &&& is_page(page)
        &&& self.align_buf@.len() == ALIGN
        &&& (self.chunk_offset as int) % (ALIGN as int) == 0
        &&& hdr_end::<H>() <= self.chunk_offset <= PAGE_SIZE
        &&& PAGE_HEADER_SIZE + ALIGN <= self.chunk_offset
        &&& self.total_pos + hdr_end::<H>() <= self.chunk_offset + self.chunk_pos
        &&& if self.needs_erase {
            self.chunk_pos == 0 && self.chunk_offset as int == hdr_end::<H>() && self.total_pos
                == 0
        } else if self.chunk_offset == PAGE_SIZE {
            self.chunk_pos == 0
        } else {
            &&& self.chunk_offset + CHUNK_HEADER_SIZE + self.chunk_pos <= PAGE_SIZE
            &&& end_off(page, hdr_end::<H>()) == self.chunk_offset as int
            &&& all_erased(
                page,
                self.off(),
                self.off() + CHUNK_HEADER_SIZE,
            )
            &&& all_erased(
                page,
                self.off() + CHUNK_HEADER_SIZE + flushed,
                PAGE_SIZE as int,
            )
        }
    }

    /// Total data bytes this writer has accepted.
    pub fn len(&self) -> (r: usize)
        ensures
            r as int == self.written(),
    {
        self.total_pos
    }

    /// The page this writer appends to.
    pub fn page_id(&self) -> (r: PageID)
        ensures
            r@ == self.pid(),
    {
        self.page_id
    }

    /// Erases the page now if this writer still owes it an erase.
    fn erase_if_needed<F: Flash>(&mut self, flash: &mut F)
        requires
            old(flash).inv(),
            old(self).wf(old(flash).contents()),
        ensures
            final(flash).inv(),
            final(self).wf(final(flash).contents()),
            !final(self).fresh(),
            final(self).pid() == old(self).pid(),
            final(self).off() == old(self).off(),
            final(self).pending_len() == old(self).pending_len(),
            final(self).written() == old(self).written(),
            final(self).align_buf == old(self).align_buf,
            if old(self).fresh() {
                final(flash).contents() == old(flash).contents().update(
                    old(self).pid(),
                    erased_page(),
                )
            } else {
                *final(self) == *old(self) && *final(flash) == *old(flash)
            },
    {
        if self.needs_erase {
            proof {
                use_type_invariant(self.page_id);
            }
            flash.erase(self.page_id);
            self.needs_erase = false;
            proof {
                H::lemma_size();
                crate::layout::lemma_erased_stop(erased_page(), hdr_end::<H>());
            }
        }
    }

    /// Appends up to `data.len()` bytes to the current chunk, as much as the
    /// page still has room for. Bytes short of a whole alignment unit wait
    /// in the staging buffer; none of it is readable until
    /// [`PageWriter::commit`]. Returns how many bytes were accepted.
    #[verifier::rlimit(100)]
    #[verifier::spinoff_prover]
    pub fn write<F: Flash>(&mut self, flash: &mut F, data: &[u8]) -> (n: usize)
        requires
            old(flash).inv(),
            old(self).wf(old(flash).contents()),
        ensures
            final(flash).inv(),
            final(self).wf(final(flash).contents()),
            final(self).pid() == old(self).pid(),
            final(self).off() == old(self).off(),
            n as int == if data@.len() < old(self).avail() {
                data@.len() as int
            } else {
                old(self).avail()
            },
            final(self).pending_len() == old(self).pending_len() + n,
            final(self).written() == old(self).written() + n,
            final(self).fresh() == (old(self).fresh() && n == 0),
            n == 0 ==> *final(flash) == *old(flash) && *final(self) == *old(self),
            n > 0 ==> final(flash).contents() == old(flash).contents().update(
                old(self).pid(),
                final(flash).contents()[old(self).pid()],
            ),
            n > 0 ==> final(self).pending(final(flash).contents()) == old(self).pending(
                old(flash).contents(),
            ) + data@.subrange(0, n as int),
            n > 0 ==> chunks_from(final(flash).contents()[old(self).pid()], hdr_end::<H>()) == (
            if old(self).fresh() {
                Seq::<Seq<u8>>::empty()
            } else {
                chunks_from(old(flash).contents()[old(self).pid()], hdr_end::<H>())
            }),
            n > 0 ==> tail_clean(final(flash).contents()[old(self).pid()], hdr_end::<H>()),
            n > 0 ==> end_off(
                final(flash).contents()[old(self).pid()],
                hdr_end::<H>(),
            ) == final(self).off(),
            n > 0 ==> all_erased(
                final(flash).contents()[old(self).pid()],
                final(self).off() + CHUNK_HEADER_SIZE + align_down(final(self).pending_len()),
                PAGE_SIZE as int,
            ),
            n > 0 ==> final(flash).contents()[old(self).pid()].subrange(
                final(self).off() + CHUNK_HEADER_SIZE,
                final(self).off() + CHUNK_HEADER_SIZE + align_down(final(self).pending_len()),
            ) == final(self).pending(final(flash).contents()).take(
                align_down(final(self).pending_len()),
            ),
            n > 0 ==> final(flash).contents()[old(self).pid()].subrange(0, hdr_end::<H>()) == (
            if old(self).fresh() {
                erased_page().subrange(0, hdr_end::<H>())
            } else {
                old(flash).contents()[old(self).pid()].subrange(0, hdr_end::<H>())
            }),
    {
        let used = self.chunk_offset + CHUNK_HEADER_SIZE + self.chunk_pos;
        let max_write = if used >= PAGE_SIZE {
            0
        } else {
            PAGE_SIZE - used
        };
        let total_n = if data.len() < max_write {
            data.len()
        } else {
            max_write
        };
        if total_n == 0 {
            return 0;
        }
        self.erase_if_needed(flash);
        let ghost c1 = flash.contents();
        let ghost page1 = c1[old(self).pid()];
        let ghost pend0 = old(self).pending(old(flash).contents());
        let ghost co = self.chunk_offset as int;
        let ghost ds = co + CHUNK_HEADER_SIZE;
        let ghost cp0 = self.chunk_pos as int;
        let ghost tp0 = self.total_pos as int;
        let ghost flushed0 = cp0 - cp0 % (ALIGN as int);
        proof {
            H::lemma_size();
            if old(self).fresh() {
                crate::layout::lemma_erased_stop(page1, hdr_end::<H>());
            }
            assert(self.pending(c1) =~= pend0 + data@.subrange(0, 0));
            assert(c1 =~= c1.update(old(self).pid(), c1[old(self).pid()]));
        }
        let ghost chunks1 = chunks_from(page1, hdr_end::<H>());
        let mut i: usize = 0;
        while i < total_n
            invariant
                flash.inv(),
                self.wf(flash.contents()),
                !self.needs_erase,
                self.page_id@ == old(self).pid(),
                0 <= self.page_id@ < flash.contents().len(),
                0 <= old(self).pid() < c1.len(),
                self.chunk_offset as int == co,
                ds == co + CHUNK_HEADER_SIZE,
                flushed0 == cp0 - cp0 % (ALIGN as int),
                0 <= cp0,
                i <= total_n,
                total_n <= data@.len(),
                ds + cp0 + total_n <= PAGE_SIZE,
                self.chunk_pos as int == cp0 + i,
                self.total_pos as int == tp0 + i,
                tp0 + total_n <= 2 * PAGE_SIZE,
                flash.contents() == c1.update(
                    old(self).pid(),
                    flash.contents()[old(self).pid()],
                ),
                forall|j: int|
                    0 <= j < ds + flushed0 ==> flash.contents()[old(self).pid()][j] == page1[j],
                chunks_from(flash.contents()[old(self).pid()], hdr_end::<H>()) == chunks1,
                self.pending(flash.contents()) == pend0 + data@.subrange(0, i as int),
            decreases total_n - i,
        {
            let ghost pre = *self;
            let ghost cpre = flash.contents();
            let ghost ppre = cpre[old(self).pid()];
            proof {
                assert(pend0.len() == cp0) by {
                    assert(pre.pending(cpre).len() == pre.chunk_pos as int);
                }
            }
            let r = self.chunk_pos % ALIGN;
            let b = data[i];
            self.align_buf.set(r, b);
            self.chunk_pos = self.chunk_pos + 1;
            self.total_pos = self.total_pos + 1;
            i = i + 1;
            let ghost cpn = self.chunk_pos as int;
            let ghost rhs = pend0 + data@.subrange(0, i as int);
            if self.chunk_pos % ALIGN == 0 {
                let woff = self.chunk_offset + CHUNK_HEADER_SIZE + self.chunk_pos - ALIGN;
                proof {
                    assert(all_erased(ppre, woff as int, woff + ALIGN));
                }
                flash.write(self.page_id, woff, self.align_buf.as_slice());
                proof {
                    let fl_pre = cpn - ALIGN;
                    let ppost = flash.contents()[old(self).pid()];
                    assert(self.page_id@ == old(self).pid());
                    assert(cpre == c1.update(old(self).pid(), ppre));
                    assert(flash.contents() == cpre.update(
                        old(self).pid(),
                        written_page(ppre, woff as int, self.align_buf@),
                    ));
                    assert(ppost =~= written_page(ppre, woff as int, self.align_buf@));
                    crate::layout::lemma_parse_split(ppre, ppost, hdr_end::<H>());
                    crate::layout::lemma_erased_stop(ppost, co);
                    assert(chunks_from(ppost, hdr_end::<H>()) =~= chunks1);
                    assert(0 <= old(self).pid() < c1.len());
                    assert(flash.contents().len() == c1.len());
                    assert forall|k: int|
                        0 <= k < flash.contents().len() implies flash.contents()[k] == c1.update(
                        old(self).pid(),
                        ppost,
                    )[k] by {
                        if k != old(self).pid() {
                            assert(flash.contents()[k] == cpre[k]);
                            assert(cpre[k] == c1[k]);
                        }
                    }
                    assert(flash.contents() =~= c1.update(old(self).pid(), ppost));
                    assert forall|j: int| 0 <= j < cpn implies ppost[ds + j] == rhs[j] by {
                        if j < fl_pre {
                            assert(ppost[ds + j] == ppre[ds + j]);
                            assert(ppre[ds + j] == pre.pending(cpre)[j]);
                        } else {
                            assert(ppost[ds + j] == self.align_buf@[j - fl_pre]);
                            if j - fl_pre < r {
                                assert(self.align_buf@[j - fl_pre] == pre.align_buf@[j - fl_pre]);
                                assert(pre.align_buf@[j - fl_pre] == pre.pending(cpre)[j]);
                            } else {
                                assert(self.align_buf@[j - fl_pre] == data@[i - 1]);
                            }
                        }
                    }
                    assert(self.pending(flash.contents()) =~= ppost.subrange(ds, ds + cpn));
                    assert(ppost.subrange(ds, ds + cpn) =~= rhs);
                }
            } else {
                proof {
                    let fl = cpn - cpn % (ALIGN as int);
                    let ppost = flash.contents()[old(self).pid()];
                    assert(ppost == ppre);
                    assert forall|j: int| 0 <= j < cpn implies #[trigger] self.pending(
                        flash.contents(),
                    )[j] == rhs[j] by {
                        if j < fl {
                            assert(self.pending(flash.contents())[j] == ppre[ds + j]);
                            assert(ppre[ds + j] == pre.pending(cpre)[j]);
                        } else if j < cpn - 1 {
                            assert(self.pending(flash.contents())[j] == self.align_buf@[j - fl]);
                            assert(self.align_buf@[j - fl] == pre.align_buf@[j - fl]);
                            assert(pre.align_buf@[j - fl] == pre.pending(cpre)[j]);
                        } else {
                            assert(self.pending(flash.contents())[j] == self.align_buf@[j - fl]);
                            assert(self.align_buf@[j - fl] == data@[i - 1]);
                        }
                    }
                    assert(self.pending(flash.contents()) =~= rhs);
                }
            }
        }
        proof {
            let pf = flash.contents()[old(self).pid()];
            crate::layout::lemma_parse_split(pf, pf, hdr_end::<H>());
            crate::layout::lemma_erased_stop(pf, co);
            assert(data@.subrange(0, total_n as int) == data@.subrange(0, total_n as int));
            assert(pf.subrange(0, hdr_end::<H>()) =~= page1.subrange(0, hdr_end::<H>()));
            if old(self).fresh() {
                assert(page1 == erased_page());
            }
            let fl = align_down(self.pending_len());
            assert(pf.subrange(ds, ds + fl) =~= self.pending(flash.contents()).take(fl));
        }
        total_n
    }

    /// Writes the page's headers (the page-layer magic and `header`) as one
    /// block at offset 0, erasing the page first if this writer still owes
    /// it an erase. The header area must still be erased: a page's header is
    /// written once per erase cycle.
    pub fn write_header<F: Flash>(&mut self, flash: &mut F, header: H)
        requires
            old(flash).inv(),
            old(self).wf(old(flash).contents()),
            !old(self).fresh() ==> all_erased(
                old(flash).contents()[old(self).pid()],
                0,
                hdr_end::<H>(),
            ),
        ensures
            final(flash).inv(),
            final(self).wf(final(flash).contents()),
            !final(self).fresh(),
            final(self).pid() == old(self).pid(),
            final(self).off() == old(self).off(),
            final(self).pending_len() == old(self).pending_len(),
            final(self).written() == old(self).written(),
            final(flash).contents() == old(flash).contents().update(
                old(self).pid(),
                final(flash).contents()[old(self).pid()],
            ),
            final(flash).contents()[old(self).pid()].subrange(0, PAGE_HEADER_SIZE as int)
                == le32_enc(H::spec_magic() as int),
            final(flash).contents()[old(self).pid()].subrange(
                PAGE_HEADER_SIZE as int,
                hdr_end::<H>(),
            ) == header.enc(),
            final(flash).contents()[old(self).pid()].subrange(hdr_end::<H>(), PAGE_SIZE as int)
                == (if old(self).fresh() {
                erased_page().subrange(hdr_end::<H>(), PAGE_SIZE as int)
            } else {
                old(flash).contents()[old(self).pid()].subrange(hdr_end::<H>(), PAGE_SIZE as int)
            }),
            chunks_from(final(flash).contents()[old(self).pid()], hdr_end::<H>()) == (if old(
                self,
            ).fresh() {
                Seq::<Seq<u8>>::empty()
            } else {
                chunks_from(old(flash).contents()[old(self).pid()], hdr_end::<H>())
            }),
            tail_clean(final(flash).contents()[old(self).pid()], hdr_end::<H>()) == (if old(
                self,
            ).fresh() {
                true
            } else {
                tail_clean(old(flash).contents()[old(self).pid()], hdr_end::<H>())
            }),
            final(self).pending(final(flash).contents()) == old(self).pending(
                old(flash).contents(),
            ),
            final(self).off() + CHUNK_HEADER_SIZE <= PAGE_SIZE ==> end_off(
                final(flash).contents()[old(self).pid()],
                hdr_end::<H>(),
            ) == final(self).off(),
            old(self).fresh() ==> all_erased(
                final(flash).contents()[old(self).pid()],
                hdr_end::<H>(),
                PAGE_SIZE as int,
            ),
    {
        let ghost c0 = old(flash).contents();
        let ghost pend0 = old(self).pending(c0);
        self.erase_if_needed(flash);
        let ghost c1 = flash.contents();
        let ghost page1 = c1[old(self).pid()];
        proof {
            H::lemma_size();
            header.lemma_enc();
            if old(self).fresh() {
                crate::layout::lemma_erased_stop(page1, hdr_end::<H>());
            }
            assert(all_erased(page1, 0, hdr_end::<H>()));
            assert(self.pending(c1) =~= pend0);
        }
        PageManager::<F>::write_header::<H>(flash, self.page_id, header);
        proof {
            let p2 = flash.contents()[old(self).pid()];
            let hb = le32_enc(H::spec_magic() as int) + header.enc();
            assert(p2 == written_page(page1, 0, hb));
            assert(hb.len() == hdr_end::<H>());
            assert(forall|j: int| hdr_end::<H>() <= j < PAGE_SIZE ==> p2[j] == page1[j]);
            crate::layout::lemma_parse_agree(page1, p2, hdr_end::<H>());
            assert(p2.subrange(0, PAGE_HEADER_SIZE as int) =~= le32_enc(H::spec_magic() as int));
            assert(p2.subrange(PAGE_HEADER_SIZE as int, hdr_end::<H>()) =~= header.enc());
            assert(p2.subrange(hdr_end::<H>(), PAGE_SIZE as int) =~= page1.subrange(
                hdr_end::<H>(),
                PAGE_SIZE as int,
            ));
            assert(flash.contents() =~= c0.update(old(self).pid(), p2));
            assert(self.pending(flash.contents()) =~= self.pending(c1));
        }
    }

    /// Publishes the current chunk: flushes the staging buffer, then writes
    /// the chunk's length cell, the step that makes the data readable. With
    /// no pending data this does nothing. Afterwards the writer stands at
    /// the next chunk.
    #[verifier::rlimit(100)]
    #[verifier::spinoff_prover]
    pub fn commit<F: Flash>(&mut self, flash: &mut F)
        requires
            old(flash).inv(),
            old(self).wf(old(flash).contents()),
        ensures
            final(flash).inv(),
            final(self).wf(final(flash).contents()),
            final(self).pid() == old(self).pid(),
            final(self).written() == old(self).written(),
            final(self).fresh() == old(self).fresh(),
            final(self).pending_len() == 0,
            final(self).pending(final(flash).contents()) == Seq::<u8>::empty(),
            old(self).pending_len() == 0 ==> *final(self) == *old(self) && *final(flash) == *old(
                flash,
            ),
            old(self).pending_len() > 0 ==> {
                &&& final(flash).contents() == old(flash).contents().update(
                    old(self).pid(),
                    final(flash).contents()[old(self).pid()],
                )
                &&& chunks_from(final(flash).contents()[old(self).pid()], hdr_end::<H>())
                    == chunks_from(old(flash).contents()[old(self).pid()], hdr_end::<H>())
                    + seq![old(self).pending(old(flash).contents())]
                &&& tail_clean(final(flash).contents()[old(self).pid()], hdr_end::<H>())
                &&& final(flash).contents()[old(self).pid()].subrange(0, hdr_end::<H>()) == old(
                    flash,
                ).contents()[old(self).pid()].subrange(0, hdr_end::<H>())
                &&& final(self).off() == old(self).off() + CHUNK_HEADER_SIZE
                    + crate::layout::align_up(old(self).pending_len())
                &&& end_off(final(flash).contents()[old(self).pid()], hdr_end::<H>())
                    == final(self).off()
                &&& all_erased(
                    final(flash).contents()[old(self).pid()],
                    final(self).off(),
                    PAGE_SIZE as int,
                )
            },
    {
        if self.chunk_pos == 0 {
            proof {
                assert(self.pending(flash.contents()) =~= Seq::<u8>::empty());
            }
            return ;
        }
        let ghost c0 = old(flash).contents();
        let ghost page0 = c0[old(self).pid()];
        let ghost pend = old(self).pending(c0);
        let ghost co = self.chunk_offset as int;
        let ghost ds = co + CHUNK_HEADER_SIZE;
        let ghost cp = self.chunk_pos as int;
        let ghost flushed = cp - cp % (ALIGN as int);
        proof {
            H::lemma_size();
            assert(pend.len() == cp);
            lemma_align_up_le(cp, PAGE_SIZE - ds);
        }
        let align_offs = self.chunk_pos % ALIGN;
        if align_offs != 0 {
            let woff = self.chunk_offset + CHUNK_HEADER_SIZE + self.chunk_pos - align_offs;
            flash.write(self.page_id, woff, self.align_buf.as_slice());
        }
        let ghost c1 = flash.contents();
        let ghost page1 = c1[old(self).pid()];
        proof {
            if align_offs != 0 {
                crate::layout::lemma_parse_split(page0, page1, hdr_end::<H>());
                crate::layout::lemma_erased_stop(page1, co);
            }
            assert(chunks_from(page1, hdr_end::<H>()) == chunks_from(page0, hdr_end::<H>()));
            assert(end_off(page1, hdr_end::<H>()) == co);
            assert(all_erased(page1, co, co + CHUNK_HEADER_SIZE));
            assert(all_erased(page1, ds + crate::layout::align_up(cp), PAGE_SIZE as int));
            assert(forall|j: int| 0 <= j < cp ==> page1[ds + j] == pend[j]);
        }
        let h = ChunkHeader { len: self.chunk_pos as u32 };
        let hb = h.to_bytes();
        flash.write(self.page_id, self.chunk_offset, hb.as_slice());
        let n = align_up(self.chunk_pos);
        self.chunk_offset = self.chunk_offset + CHUNK_HEADER_SIZE + n;
        self.chunk_pos = 0;
        proof {
            let p2 = flash.contents()[old(self).pid()];
            assert(p2 == written_page(page1, co, le32_enc(cp)));
            assert(forall|j: int| 0 <= j < PAGE_SIZE && !(co <= j < co + 4) ==> p2[j] == page1[j]);
            crate::layout::lemma_le32_roundtrip(cp);
            assert(le32_at(p2, co) == cp) by {
                assert(forall|j: int| 0 <= j < 4 ==> p2[co + j] == le32_enc(cp)[j]);
            }
            crate::layout::lemma_parse_split(page1, p2, hdr_end::<H>());
            assert(!step_end(p2, co) && !step_corrupt(p2, co));
            crate::layout::lemma_erased_stop(p2, self.chunk_offset as int);
            assert(next_off(p2, co) == self.chunk_offset as int);
            assert(p2.subrange(co + 4, co + 4 + cp) =~= pend);
            assert(chunks_from(p2, co) =~= seq![pend]);
            assert(chunks_from(p2, hdr_end::<H>()) =~= chunks_from(page0, hdr_end::<H>())
                + seq![pend]);
            assert(end_off(p2, hdr_end::<H>()) == self.chunk_offset as int);
            assert(tail_clean(p2, hdr_end::<H>()) == tail_clean(p2, self.chunk_offset as int));
            assert(p2.subrange(0, hdr_end::<H>()) =~= page0.subrange(0, hdr_end::<H>()));
            assert(flash.contents() =~= c0.update(old(self).pid(), p2));
        }
    }
}

} // verus!
