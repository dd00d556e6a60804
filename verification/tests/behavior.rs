//! Behaviour at the edges: crash boundaries, inconsistent cells, full pages,
//! and the in-memory flash device itself.

use norkv::config::{ALIGN, ERASE_VALUE, MAX_PAGE_COUNT, PAGE_SIZE};
use norkv::flash::{Flash, MemFlash, PageID};
use norkv::page::{
    ChunkHeader, Header, PageHeader, PageManager, PlainHeader, ReadError, CHUNK_HEADER_SIZE,
    MAX_CHUNK_SIZE, PAGE_HEADER_SIZE, PLAIN_MAGIC,
};
use norkv::Error;

const MAX_PAYLOAD: usize = PAGE_SIZE - PAGE_HEADER_SIZE - 4 - CHUNK_HEADER_SIZE;

fn page() -> PageID {
    PageID::from_raw(0).unwrap()
}

fn header() -> PlainHeader {
    PlainHeader { value: 7 }
}

/// A chunk whose length cell was never written reads back as though the
/// chunk never existed, at every byte boundary of the interrupted write.
#[test]
fn crash_before_length_cell_is_invisible() {
    for cut in 0..=12usize {
        let f = &mut MemFlash::new();
        let mut b = PageManager::new();

        let mut w = b.write::<PlainHeader>(f, page());
        assert_eq!(w.write(f, &[1, 2, 3, 4, 5]), 5);
        w.write_header(f, header());
        w.commit(f);

        // A second chunk is written but the trace is cut before commit:
        // only `cut` bytes of it reach the flash.
        let more = vec![9u8; cut];
        assert_eq!(w.write(f, &more), cut);
        drop(w);

        let (h, mut r) = b.read::<PlainHeader>(f, page()).unwrap();
        assert_eq!(h, header());
        let mut buf = vec![0u8; PAGE_SIZE];
        assert_eq!(r.read(f, &mut buf).unwrap(), 5);
        assert_eq!(&buf[..5], &[1, 2, 3, 4, 5]);
        assert_eq!(r.read(f, &mut buf).unwrap(), 0);
    }
}

/// Once the length cell is written, the chunk is visible in full.
#[test]
fn commit_publishes_whole_chunk() {
    let f = &mut MemFlash::new();
    let mut b = PageManager::new();

    let mut w = b.write::<PlainHeader>(f, page());
    assert_eq!(w.write(f, &[1, 2, 3, 4, 5]), 5);
    w.write_header(f, header());
    w.commit(f);
    assert_eq!(w.write(f, &[6, 7]), 2);
    w.commit(f);

    // Remount: both chunks are there, in order, byte for byte.
    let mut b = PageManager::new();
    let (_, mut r) = b.read::<PlainHeader>(f, page()).unwrap();
    let mut buf = vec![0u8; PAGE_SIZE];
    assert_eq!(r.read(f, &mut buf).unwrap(), 5);
    assert_eq!(&buf[..5], &[1, 2, 3, 4, 5]);
    assert_eq!(r.read(f, &mut buf).unwrap(), 2);
    assert_eq!(&buf[..2], &[6, 7]);
    assert_eq!(r.read(f, &mut buf).unwrap(), 0);
}

/// A length cell that points past the end of the page is reported as
/// `Corrupted`, not read.
#[test]
fn oversized_length_cell_is_corrupted() {
    let f = &mut MemFlash::new();
    let mut b = PageManager::new();

    PageManager::write_header(f, page(), header());
    // Forge a length cell claiming more data than the page can hold.
    let bad = 0xFFF0u32.to_le_bytes();
    f.write(page(), PAGE_HEADER_SIZE + 4, &bad);

    let res = b.read::<PlainHeader>(f, page());
    assert!(matches!(res, Err(Error::Corrupted)));
}

/// A full page accepts nothing more and what it holds stays intact.
#[test]
fn full_page_accepts_nothing_and_keeps_data() {
    let f = &mut MemFlash::new();
    let mut b = PageManager::new();

    let data: Vec<u8> = (0..MAX_PAYLOAD).map(|i| i as u8).collect();
    let mut w = b.write::<PlainHeader>(f, page());
    assert_eq!(w.write(f, &data), MAX_PAYLOAD);
    w.write_header(f, header());
    w.commit(f);

    assert_eq!(w.write(f, &[1, 2, 3]), 0);
    assert_eq!(w.len(), MAX_PAYLOAD);

    let (_, mut r) = b.read::<PlainHeader>(f, page()).unwrap();
    let mut buf = vec![0u8; PAGE_SIZE];
    assert_eq!(r.read(f, &mut buf).unwrap(), MAX_PAYLOAD);
    assert_eq!(&buf[..MAX_PAYLOAD], &data[..]);
}

/// `skip` is byte-accurate across chunk boundaries.
#[test]
fn skip_crosses_chunks() {
    let f = &mut MemFlash::new();
    let mut b = PageManager::new();

    let mut w = b.write::<PlainHeader>(f, page());
    assert_eq!(w.write(f, &[1, 2, 3, 4, 5]), 5);
    w.write_header(f, header());
    w.commit(f);
    assert_eq!(w.write(f, &[6, 7, 8]), 3);
    w.commit(f);

    let (_, mut r) = b.read::<PlainHeader>(f, page()).unwrap();
    // skip consumes at most the rest of the current chunk per call
    assert_eq!(r.skip(f, 4).unwrap(), 4);
    assert_eq!(r.skip(f, 3).unwrap(), 1);
    assert_eq!(r.skip(f, 3).unwrap(), 3);
    assert_eq!(r.skip(f, 3).unwrap(), 0);
}

/// `is_at_eof` is false while committed data remains and true after.
#[test]
fn eof_reporting() {
    let f = &mut MemFlash::new();
    let mut b = PageManager::new();

    let mut w = b.write::<PlainHeader>(f, page());
    assert_eq!(w.write(f, &[1, 2]), 2);
    w.write_header(f, header());
    w.commit(f);

    let (_, mut r) = b.read::<PlainHeader>(f, page()).unwrap();
    assert!(!r.is_at_eof(f).unwrap());
    let mut buf = vec![0u8; 2];
    assert_eq!(r.read(f, &mut buf).unwrap(), 2);
    assert!(r.is_at_eof(f).unwrap());
    assert_eq!(r.page_id(), page());
}

/// Page ids exist exactly below the page count.
#[test]
fn page_id_range() {
    assert!(PageID::from_raw(0).is_some());
    let last = PageID::from_raw((MAX_PAGE_COUNT - 1) as u16).unwrap();
    assert_eq!(last.index(), MAX_PAGE_COUNT - 1);
    assert!(PageID::from_raw(MAX_PAGE_COUNT as u16).is_none());
    assert!(PageID::from_raw(u16::MAX).is_none());
}

/// The in-memory flash: fresh devices are fully erased, erase restores a
/// page, counters track traffic and reset to zero.
#[test]
fn mem_flash_device() {
    let mut f = MemFlash::new();
    assert_eq!(f.page_count(), MAX_PAGE_COUNT);
    assert_eq!(f.data.len(), PAGE_SIZE * MAX_PAGE_COUNT);
    assert!(f.data.iter().all(|&x| x == ERASE_VALUE));

    f.write(page(), 0, &[1, 2, 3, 4]);
    assert_eq!(&f.data[..4], &[1, 2, 3, 4]);
    assert_eq!(f.write_count, 1);
    assert_eq!(f.write_bytes, 4);

    let mut buf = vec![0u8; 4];
    f.read(page(), 0, &mut buf);
    assert_eq!(buf, [1, 2, 3, 4]);
    assert_eq!(f.read_count, 1);
    assert_eq!(f.read_bytes, 4);

    f.erase(page());
    assert!(f.data[..PAGE_SIZE].iter().all(|&x| x == ERASE_VALUE));
    assert_eq!(f.erase_count, 1);
    assert_eq!(f.erase_bytes, PAGE_SIZE);

    f.reset_counters();
    assert_eq!(f.read_count, 0);
    assert_eq!(f.read_bytes, 0);
    assert_eq!(f.write_count, 0);
    assert_eq!(f.write_bytes, 0);
    assert_eq!(f.erase_count, 0);
    assert_eq!(f.erase_bytes, 0);
}

/// Every write the page layer makes is a whole number of alignment units:
/// the device's byte counter can never leave a multiple of the alignment.
#[test]
fn writes_stay_aligned() {
    let f = &mut MemFlash::new();
    let mut b = PageManager::new();

    let mut w = b.write::<PlainHeader>(f, page());
    for chunk in [5usize, 1, 7, 2] {
        let data = vec![3u8; chunk];
        w.write(f, &data);
        w.commit(f);
        assert_eq!(f.write_bytes % ALIGN, 0);
    }
    w.write_header(f, header());
    assert_eq!(f.write_bytes % ALIGN, 0);
}

/// Chunk headers round-trip through their byte encoding.
#[test]
fn header_values_round_trip() {
    let f = &mut MemFlash::new();
    let mut m = PageManager::new();

    let h = PlainHeader { value: u32::MAX };
    PageManager::write_header(f, page(), h);
    let got = m.read_header::<PlainHeader>(f, page()).unwrap();
    assert_eq!(got, h);
}

/// Errors lift into the reader-facing error kind.
#[test]
fn read_error_from_error() {
    assert_eq!(ReadError::from(Error::Corrupted), ReadError::Corrupted);
    assert_ne!(ReadError::Corrupted, ReadError::Eof);
}

/// The on-flash cells encode little-endian and decode to what was encoded.
#[test]
fn header_cells_encode_little_endian() {
    let ph = PageHeader { magic: 0x0403_0201 };
    let b = ph.to_bytes();
    assert_eq!(b, [1, 2, 3, 4]);
    assert_eq!(PageHeader::from_bytes(&b, 0), ph);

    let ch = ChunkHeader { len: 13 };
    let b = ch.to_bytes();
    assert_eq!(b, [13, 0, 0, 0]);
    assert_eq!(ChunkHeader::from_bytes(&b, 0), ch);
}

/// A page is a header area plus chunk frames; the headers take 8 bytes of
/// the largest chunk.
#[test]
fn geometry() {
    assert_eq!(MAX_CHUNK_SIZE, PAGE_SIZE - PAGE_HEADER_SIZE - CHUNK_HEADER_SIZE);
    assert_eq!(PAGE_SIZE % ALIGN, 0);
    let hb = PlainHeader { value: 1 }.to_bytes();
    assert_eq!(hb.len(), <PlainHeader as Header>::size());
    let magic_bytes = PageHeader { magic: PLAIN_MAGIC }.to_bytes();
    assert_eq!(magic_bytes.len(), PAGE_HEADER_SIZE);
}

/// The page is erased lazily: opening a writer touches nothing, the first
/// byte written erases the page once, and later writes do not erase again.
#[test]
fn erase_is_lazy_and_happens_once() {
    let f = &mut MemFlash::new();
    let mut b = PageManager::new();

    let mut w = b.write::<PlainHeader>(f, page());
    assert_eq!(f.erase_count, 0);
    assert_eq!(w.write(f, &[]), 0);
    assert_eq!(f.erase_count, 0);
    assert_eq!(w.write(f, &[1]), 1);
    assert_eq!(f.erase_count, 1);
    assert_eq!(w.write(f, &[2, 3, 4, 5]), 4);
    w.write_header(f, header());
    w.commit(f);
    assert_eq!(f.erase_count, 1);
}
