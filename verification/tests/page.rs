use norkv::flash::{MemFlash, PageID};
use norkv::page::{Header, PageManager, PlainHeader, CHUNK_HEADER_SIZE, PAGE_HEADER_SIZE};
use norkv::config::PAGE_SIZE;
use norkv::Error;

const MAX_PAYLOAD: usize = PAGE_SIZE - PAGE_HEADER_SIZE - 4 - CHUNK_HEADER_SIZE;

fn page() -> PageID {
    PageID::from_raw(0).unwrap()
}

fn header() -> PlainHeader {
    PlainHeader { value: 123456 }
}

fn dummy_data(len: usize) -> Vec<u8> {
    let mut res = vec![0; len];
    for (i, v) in res.iter_mut().enumerate() {
        *v = i as u8 ^ (i >> 8) as u8 ^ (i >> 16) as u8 ^ (i >> 24) as u8;
    }
    res
}

#[test]
fn test_header() {
    let f = &mut MemFlash::new();
    let mut m = PageManager::new();

    PageManager::write_header(f, page(), header());
    let h = m.read_header::<PlainHeader>(f, page()).unwrap();
    assert_eq!(h, header())
}

#[test]
fn test_header_read_unwritten() {
    let f = &mut MemFlash::new();
    let mut m = PageManager::new();

    let res = m.read_header::<PlainHeader>(f, page());
    assert!(matches!(res, Err(Error::Corrupted)))
}

#[test]
fn test_read_unwritten() {
    let f = &mut MemFlash::new();
    let mut b = PageManager::new();

    // Read
    let res = b.read::<PlainHeader>(f, page());
    assert!(matches!(res, Err(Error::Corrupted)));
}

#[test]
fn test_read_uncommitted() {
    let f = &mut MemFlash::new();
    let mut b = PageManager::new();

    let data = dummy_data(13);

    // Write
    let mut w = b.write::<PlainHeader>(f, page());
    w.write(f, &data);
    drop(w); // don't commit

    // Read
    let res = b.read::<PlainHeader>(f, page());
    assert!(matches!(res, Err(Error::Corrupted)));
}

#[test]
fn test_write_short() {
    let f = &mut MemFlash::new();
    let mut b = PageManager::new();

    let data = dummy_data(13);

    // Write
    let mut w = b.write::<PlainHeader>(f, page());
    let n = w.write(f, &data);
    assert_eq!(n, 13);
    w.write_header(f, header());
    w.commit(f);

    // Read
    let (h, mut r) = b.read::<PlainHeader>(f, page()).unwrap();
    assert_eq!(h, header());
    let mut buf = vec![0; data.len()];
    let n = r.read(f, &mut buf).unwrap();
    assert_eq!(n, 13);
    assert_eq!(data, buf);

    // Remount
    let mut b = PageManager::new();

    // Read
    let (h, mut r) = b.read::<PlainHeader>(f, page()).unwrap();
    assert_eq!(h, header());
    let mut buf = vec![0; data.len()];
    let n = r.read(f, &mut buf).unwrap();
    assert_eq!(n, 13);
    assert_eq!(data, buf);
}

#[test]
fn test_overread() {
    let f = &mut MemFlash::new();
    let mut b = PageManager::new();

    let data = dummy_data(13);

    // Write
    let mut w = b.write::<PlainHeader>(f, page());
    w.write(f, &data);
    w.write_header(f, header());
    w.commit(f);

    // Read
    let (h, mut r) = b.read::<PlainHeader>(f, page()).unwrap();
    assert_eq!(h, header());
    let mut buf = vec![0; 1024];
    let n = r.read(f, &mut buf).unwrap();
    assert_eq!(n, 13);
    assert_eq!(data, buf[..13]);
}

#[test]
fn test_overwrite() {
    let f = &mut MemFlash::new();
    let mut b = PageManager::new();

    let data = dummy_data(65536);

    // Write
    let mut w = b.write::<PlainHeader>(f, page());
    let n = w.write(f, &data);
    assert_eq!(n, MAX_PAYLOAD);
    w.write_header(f, header());
    w.commit(f);

    // Read
    let (h, mut r) = b.read::<PlainHeader>(f, page()).unwrap();
    assert_eq!(h, header());
    let mut buf = vec![0; MAX_PAYLOAD];
    let n = r.read(f, &mut buf).unwrap();
    assert_eq!(n, MAX_PAYLOAD);
    assert_eq!(data[..13], buf[..13]);
}

#[test]
fn test_write_many() {
    let f = &mut MemFlash::new();
    let mut b = PageManager::new();

    // Write
    let mut w = b.write::<PlainHeader>(f, page());
    let n = w.write(f, &[1, 2, 3]);
    assert_eq!(n, 3);
    let n = w.write(f, &[4, 5, 6, 7, 8, 9]);
    assert_eq!(n, 6);
    w.write_header(f, header());
    w.commit(f);

    // Read
    let (h, mut r) = b.read::<PlainHeader>(f, page()).unwrap();
    assert_eq!(h, header());
    let mut buf = vec![0; MAX_PAYLOAD];
    let n = r.read(f, &mut buf).unwrap();
    assert_eq!(n, 9);
    assert_eq!(buf[..9], [1, 2, 3, 4, 5, 6, 7, 8, 9]);
}

#[test]
fn test_read_many() {
    let f = &mut MemFlash::new();
    let mut b = PageManager::new();

    // Write
    let mut w = b.write::<PlainHeader>(f, page());
    let n = w.write(f, &[1, 2, 3, 4, 5, 6, 7, 8, 9]);
    assert_eq!(n, 9);
    w.write_header(f, header());
    w.commit(f);

    // Read
    let (h, mut r) = b.read::<PlainHeader>(f, page()).unwrap();
    assert_eq!(h, header());
    let mut buf = vec![0; MAX_PAYLOAD];

    let n = r.read(f, &mut buf[..3]).unwrap();
    assert_eq!(n, 3);
    assert_eq!(buf[..3], [1, 2, 3]);

    let n = r.read(f, &mut buf).unwrap();
    assert_eq!(n, 6);
    assert_eq!(buf[..6], [4, 5, 6, 7, 8, 9]);

    let n = r.read(f, &mut buf).unwrap();
    assert_eq!(n, 0);
}

#[test]
fn test_multichunk() {
    let f = &mut MemFlash::new();
    let mut b = PageManager::new();

    // Write
    let mut w = b.write::<PlainHeader>(f, page());
    let n = w.write(f, &[1, 2, 3, 4, 5, 6, 7, 8, 9]);
    assert_eq!(n, 9);
    w.write_header(f, header());
    w.commit(f);
    let n = w.write(f, &[10, 11, 12]);
    assert_eq!(n, 3);
    w.commit(f);

    // Read
    let (h, mut r) = b.read::<PlainHeader>(f, page()).unwrap();
    assert_eq!(h, header());
    let mut buf = vec![0; MAX_PAYLOAD];

    let n = r.read(f, &mut buf[..3]).unwrap();
    assert_eq!(n, 3);
    assert_eq!(buf[..3], [1, 2, 3]);

    let n = r.read(f, &mut buf).unwrap();
    assert_eq!(n, 6);
    assert_eq!(buf[..6], [4, 5, 6, 7, 8, 9]);

    let n = r.read(f, &mut buf).unwrap();
    assert_eq!(n, 3);
    assert_eq!(buf[..3], [10, 11, 12]);

    let n = r.read(f, &mut buf).unwrap();
    assert_eq!(n, 0);
}

#[test]
fn test_multichunk_no_commit() {
    let f = &mut MemFlash::new();
    let mut b = PageManager::new();

    // Write
    let mut w = b.write::<PlainHeader>(f, page());
    let n = w.write(f, &[1, 2, 3, 4, 5, 6, 7, 8, 9]);
    assert_eq!(n, 9);
    w.write_header(f, header());
    w.commit(f);
    let n = w.write(f, &[10, 11, 12]);
    assert_eq!(n, 3);
    // no commit!

    // Read
    let (h, mut r) = b.read::<PlainHeader>(f, page()).unwrap();
    assert_eq!(h, header());
    let mut buf = vec![0; MAX_PAYLOAD];

    let n = r.read(f, &mut buf).unwrap();
    assert_eq!(n, 9);
    assert_eq!(buf[..9], [1, 2, 3, 4, 5, 6, 7, 8, 9]);

    let n = r.read(f, &mut buf).unwrap();
    assert_eq!(n, 0);
}

#[test]
fn test_multichunk_append() {
    let f = &mut MemFlash::new();
    let mut b = PageManager::new();

    // Write
    let mut w = b.write::<PlainHeader>(f, page());
    let n = w.write(f, &[1, 2, 3, 4, 5, 6, 7, 8, 9]);
    assert_eq!(n, 9);
    w.write_header(f, header());
    w.commit(f);

    let (_, mut w) = b.write_append::<PlainHeader>(f, page()).unwrap();
    let n = w.write(f, &[10, 11, 12]);
    assert_eq!(n, 3);
    w.commit(f);

    // Read
    let (h, mut r) = b.read::<PlainHeader>(f, page()).unwrap();
    assert_eq!(h, header());
    let mut buf = vec![0; MAX_PAYLOAD];

    let n = r.read(f, &mut buf).unwrap();
    assert_eq!(n, 9);
    assert_eq!(buf[..9], [1, 2, 3, 4, 5, 6, 7, 8, 9]);

    let n = r.read(f, &mut buf).unwrap();
    assert_eq!(n, 3);
    assert_eq!(buf[..3], [10, 11, 12]);

    let n = r.read(f, &mut buf).unwrap();
    assert_eq!(n, 0);
}

#[test]
fn test_multichunk_append_no_commit() {
    let f = &mut MemFlash::new();
    let mut b = PageManager::new();

    // Write
    let mut w = b.write::<PlainHeader>(f, page());
    let n = w.write(f, &[1, 2, 3, 4, 5, 6, 7, 8, 9]);
    assert_eq!(n, 9);
    w.write_header(f, header());
    w.commit(f);

    let (_, mut w) = b.write_append::<PlainHeader>(f, page()).unwrap();
    let n = w.write(f, &[10, 11, 12]);
    assert_eq!(n, 3);
    // no commit!

    // Read
    let (h, mut r) = b.read::<PlainHeader>(f, page()).unwrap();
    assert_eq!(h, header());
    let mut buf = vec![0; MAX_PAYLOAD];

    let n = r.read(f, &mut buf).unwrap();
    assert_eq!(n, 9);
    assert_eq!(buf[..9], [1, 2, 3, 4, 5, 6, 7, 8, 9]);

    let n = r.read(f, &mut buf).unwrap();
    assert_eq!(n, 0);
}

#[test]
fn test_multichunk_append_no_commit_then_retry() {
    let f = &mut MemFlash::new();
    let mut b = PageManager::new();

    // Write
    let mut w = b.write::<PlainHeader>(f, page());
    let n = w.write(f, &[1, 2, 3, 4, 5, 6, 7, 8, 9]);
    assert_eq!(n, 9);
    w.write_header(f, header());
    w.commit(f);

    // Append but don't commit
    let (_, mut w) = b.write_append::<PlainHeader>(f, page()).unwrap();
    let n = w.write(f, &[10, 11, 12, 13, 14, 15]);
    assert_eq!(n, 6);
    // no commit!

    // Even though we didn't commit the appended stuff, it did get written to flash.
    // If there's "left over garbage" we can no longer append to this page. It must
    // behave as if it was full.
    let (_, mut w) = b.write_append::<PlainHeader>(f, page()).unwrap();
    let n = w.write(f, &[13, 14, 15]);
    assert_eq!(n, 0);

    // Read
    let (h, mut r) = b.read::<PlainHeader>(f, page()).unwrap();
    assert_eq!(h, header());
    let mut buf = vec![0; MAX_PAYLOAD];

    let n = r.read(f, &mut buf).unwrap();
    assert_eq!(n, 9);
    assert_eq!(buf[..9], [1, 2, 3, 4, 5, 6, 7, 8, 9]);

    let n = r.read(f, &mut buf).unwrap();
    assert_eq!(n, 0);
}

#[test]
fn test_plain_header_magic() {
    assert_eq!(<PlainHeader as Header>::magic(), norkv::page::PLAIN_MAGIC);
    assert_eq!(<PlainHeader as Header>::size(), 4);
}
