//! The flash device interface and an in-memory device for tests.

use vstd::prelude::*;
use crate::config::{ALIGN, ERASE_VALUE, MAX_PAGE_COUNT, PAGE_SIZE};
use crate::layout::{all_erased, erased_page, is_page};

verus! {

/// Identifies one page of the flash; always below `MAX_PAGE_COUNT`.
#[derive(Clone, Copy, PartialEq, Eq, Debug)]
pub struct PageID {
    raw: u16,
}

impl PageID {
    /// A page id never reaches `MAX_PAGE_COUNT`.
    #[verifier::type_invariant]
    pub open spec fn type_wf(self) -> bool {
        0 <= self@ < MAX_PAGE_COUNT as int
    }
}

impl View for PageID {
    type V = int;

    closed spec fn view(&self) -> int {
        self.raw as int
    }
}

impl PageID {
    /// The page id for `raw`, if it is within range.
    pub fn from_raw(raw: u16) -> (r: Option<PageID>)
        ensures
            match r {
                Some(id) => id@ == raw as int && (raw as int) < MAX_PAGE_COUNT as int,
                None => raw as int >= MAX_PAGE_COUNT as int,
            },
    {
        if (raw as usize) < MAX_PAGE_COUNT {
            Some(PageID { raw })
        } else {
            None
        }
    }

    /// The page's index.
    pub fn index(&self) -> (r: usize)
        ensures
            r as int == self@,
            r < MAX_PAGE_COUNT,
    {
        proof {
            use_type_invariant(&self);
        }
        self.raw as usize
    }
}

/// All pages of a device are full page images, and there are not more of
/// them than `MAX_PAGE_COUNT`.
pub open spec fn pages_wf(c: Seq<Seq<u8>>) -> bool {
    c.len() <= MAX_PAGE_COUNT && (forall|i: int| 0 <= i < c.len() ==> is_page(#[trigger] c[i]))
}

/// NOR flash: erasable by page, writable once per erased cell in aligned
/// units. `contents` is the device's state, one byte sequence per page, and
/// `inv` is whatever representation invariant the device maintains.
pub trait Flash: Sized {
    spec fn inv(&self) -> bool;

    spec fn contents(&self) -> Seq<Seq<u8>>;

    proof fn lemma_inv(&self)
        requires
            self.inv(),
        ensures
            pages_wf(self.contents()),
    ;

    fn page_count(&self) -> (n: usize)
        requires
            self.inv(),
        ensures
            n as int == self.contents().len(),
    ;

    /// Resets every byte of the page to `ERASE_VALUE`.
    fn erase(&mut self, page_id: PageID)
        requires
            old(self).inv(),
            page_id@ < old(self).contents().len(),
        ensures
            final(self).inv(),
            final(self).contents() == old(self).contents().update(page_id@, erased_page()),
    ;

    /// Reads `data.len()` bytes starting at `offset` of the page.
    fn read(&mut self, page_id: PageID, offset: usize, data: &mut [u8])
        requires
            old(self).inv(),
            page_id@ < old(self).contents().len(),
            offset + old(data)@.len() <= PAGE_SIZE,
            offset as int % (ALIGN as int) == 0,
            old(data)@.len() % (ALIGN as nat) == 0,
        ensures
            final(self).inv(),
            final(self).contents() == old(self).contents(),
            final(data)@ == old(self).contents()[page_id@].subrange(
                offset as int,
                offset + old(data)@.len(),
            ),
    ;

    /// Writes `data` starting at `offset` of the page. Every cell written
    /// must still be erased: a cell is written at most once per erase cycle.
    fn write(&mut self, page_id: PageID, offset: usize, data: &[u8])
        requires
            old(self).inv(),
            page_id@ < old(self).contents().len(),
            offset + data@.len() <= PAGE_SIZE,
            offset as int % (ALIGN as int) == 0,
            data@.len() % (ALIGN as nat) == 0,
            all_erased(old(self).contents()[page_id@], offset as int, offset + data@.len()),
        ensures
            final(self).inv(),
            final(self).contents() == old(self).contents().update(
                page_id@,
                written_page(old(self).contents()[page_id@], offset as int, data@),
            ),
    ;
}

/// `p` with `d` written at `off`.
pub open spec fn written_page(p: Seq<u8>, off: int, d: Seq<u8>) -> Seq<u8> {
    Seq::new(p.len(), |i: int| if off <= i < off + d.len() { d[i - off] } else { p[i] })
}

/// The per-page view of a flat byte vector.
pub open spec fn mem_pages(d: Seq<u8>) -> Seq<Seq<u8>> {
    Seq::new(MAX_PAGE_COUNT as nat, |i: int| d.subrange(i * PAGE_SIZE, (i + 1) * PAGE_SIZE))
}

/// An in-memory flash device: pages are held in one flat byte vector, and
/// counters record how much traffic the device has seen.
pub struct MemFlash {
    pub data: Vec<u8>,
    pub read_count: usize,
    pub read_bytes: usize,
    pub write_count: usize,
    pub write_bytes: usize,
    pub erase_count: usize,
    pub erase_bytes: usize,
}

impl MemFlash {
    /// A fully erased device with zeroed counters.
    pub fn new() -> (r: MemFlash)
        ensures
            r.inv(),
            r.contents() == Seq::new(MAX_PAGE_COUNT as nat, |i: int| erased_page()),
            r.read_count == 0 && r.read_bytes == 0,
            r.write_count == 0 && r.write_bytes == 0,
            r.erase_count == 0 && r.erase_bytes == 0,
    {
        let data: Vec<u8> = vec![ERASE_VALUE; PAGE_SIZE * MAX_PAGE_COUNT];
        let r = MemFlash {
            data,
            read_count: 0,
            read_bytes: 0,
            write_count: 0,
            write_bytes: 0,
            erase_count: 0,
            erase_bytes: 0,
        };
        proof {
            assert forall|i: int| 0 <= i < MAX_PAGE_COUNT implies r.contents()[i]
                =~= erased_page() by {
                assert(forall|j: int| 0 <= j < PAGE_SIZE ==> r.contents()[i][j] == ERASE_VALUE);
            }
            assert(r.contents() =~= Seq::new(MAX_PAGE_COUNT as nat, |i: int| erased_page()));
        }
        r
    }

    /// Zeroes the traffic counters; the pages are untouched.
    pub fn reset_counters(&mut self)
        ensures
            final(self).inv() == old(self).inv(),
            final(self).contents() == old(self).contents(),
            final(self).data == old(self).data,
            final(self).read_count == 0 && final(self).read_bytes == 0,
            final(self).write_count == 0 && final(self).write_bytes == 0,
            final(self).erase_count == 0 && final(self).erase_bytes == 0,
    {
        self.read_count = 0;
        self.read_bytes = 0;
        self.write_count = 0;
        self.write_bytes = 0;
        self.erase_count = 0;
        self.erase_bytes = 0;
    }
}

impl Flash for MemFlash {
    open spec fn inv(&self) -> bool {
        self.data@.len() == PAGE_SIZE * MAX_PAGE_COUNT
    }

    open spec fn contents(&self) -> Seq<Seq<u8>> {
        mem_pages(self.data@)
    }

    proof fn lemma_inv(&self) {
        assert forall|i: int| 0 <= i < MAX_PAGE_COUNT implies is_page(
            #[trigger] self.contents()[i],
        ) by {
            assert(0 <= i * PAGE_SIZE && (i + 1) * PAGE_SIZE <= self.data@.len()) by (
            nonlinear_arith)
                requires
                    0 <= i < MAX_PAGE_COUNT,
                    self.data@.len() == PAGE_SIZE * MAX_PAGE_COUNT,
            ;
        }
    }

    fn page_count(&self) -> (n: usize) {
        MAX_PAGE_COUNT
    }

    fn erase(&mut self, page_id: PageID)
        ensures
            final(self).erase_count == old(self).erase_count.wrapping_add(1),
            final(self).erase_bytes == old(self).erase_bytes.wrapping_add(PAGE_SIZE),
            final(self).read_count == old(self).read_count,
            final(self).read_bytes == old(self).read_bytes,
            final(self).write_count == old(self).write_count,
            final(self).write_bytes == old(self).write_bytes,
    {
        proof {
            old(self).lemma_inv();
        }
        let base = page_id.index() * PAGE_SIZE;
        let mut i: usize = 0;
        while i < PAGE_SIZE
            invariant
                self.data@.len() == PAGE_SIZE * MAX_PAGE_COUNT,
                base == page_id@ * PAGE_SIZE,
                0 <= page_id@ < MAX_PAGE_COUNT,
                i <= PAGE_SIZE,
                base + PAGE_SIZE <= self.data@.len(),
                forall|j: int|
                    0 <= j < self.data@.len() && !(base <= j < base + i) ==> self.data@[j]
                        == old(self).data@[j],
                forall|j: int| base <= j < base + i ==> self.data@[j] == ERASE_VALUE,
                self.read_count == old(self).read_count,
                self.read_bytes == old(self).read_bytes,
                self.write_count == old(self).write_count,
                self.write_bytes == old(self).write_bytes,
                self.erase_count == old(self).erase_count,
                self.erase_bytes == old(self).erase_bytes,
            decreases PAGE_SIZE - i,
        {
            self.data[base + i] = ERASE_VALUE;
            i += 1;
        }
        self.erase_count = self.erase_count.wrapping_add(1);
        self.erase_bytes = self.erase_bytes.wrapping_add(PAGE_SIZE);
        proof {
            lemma_mem_pages(old(self).data@, self.data@, page_id@, erased_page());
        }
    }

    fn read(&mut self, page_id: PageID, offset: usize, data: &mut [u8])
        ensures
            final(self).read_count == old(self).read_count.wrapping_add(1),
            final(self).read_bytes == old(self).read_bytes.wrapping_add(old(data)@.len() as usize),
            final(self).write_count == old(self).write_count,
            final(self).write_bytes == old(self).write_bytes,
            final(self).erase_count == old(self).erase_count,
            final(self).erase_bytes == old(self).erase_bytes,
    {
        proof {
            old(self).lemma_inv();
        }
        let base = page_id.index() * PAGE_SIZE + offset;
        let n = data.len();
        let mut i: usize = 0;
        while i < n
            invariant
                self.data@ == old(self).data@,
                self.data@.len() == PAGE_SIZE * MAX_PAGE_COUNT,
                base == page_id@ * PAGE_SIZE + offset,
                0 <= page_id@ < MAX_PAGE_COUNT,
                n == data@.len(),
                data@.len() == old(data)@.len(),
                offset + n <= PAGE_SIZE,
                i <= n,
                forall|j: int| 0 <= j < i ==> data@[j] == self.data@[base + j],
                self.read_count == old(self).read_count,
                self.read_bytes == old(self).read_bytes,
                self.write_count == old(self).write_count,
                self.write_bytes == old(self).write_bytes,
                self.erase_count == old(self).erase_count,
                self.erase_bytes == old(self).erase_bytes,
            decreases n - i,
        {
            data[i] = self.data[base + i];
            i += 1;
        }
        self.read_count = self.read_count.wrapping_add(1);
        self.read_bytes = self.read_bytes.wrapping_add(n);
        proof {
            assert(final(self).contents() =~= old(self).contents());
            assert(final(data)@ =~= old(self).contents()[page_id@].subrange(
                offset as int,
                offset + old(data)@.len(),
            ));
        }
    }

    fn write(&mut self, page_id: PageID, offset: usize, data: &[u8])
        ensures
            final(self).write_count == old(self).write_count.wrapping_add(1),
            final(self).write_bytes == old(self).write_bytes.wrapping_add(data@.len() as usize),
            final(self).read_count == old(self).read_count,
            final(self).read_bytes == old(self).read_bytes,
            final(self).erase_count == old(self).erase_count,
            final(self).erase_bytes == old(self).erase_bytes,
    {
        proof {
            old(self).lemma_inv();
        }
        let base = page_id.index() * PAGE_SIZE + offset;
        let n = data.len();
        let mut i: usize = 0;
        while i < n
            invariant
                self.data@.len() == PAGE_SIZE * MAX_PAGE_COUNT,
                base == page_id@ * PAGE_SIZE + offset,
                0 <= page_id@ < MAX_PAGE_COUNT,
                n == data@.len(),
                offset + n <= PAGE_SIZE,
                i <= n,
                forall|j: int|
                    0 <= j < self.data@.len() && !(base <= j < base + i) ==> self.data@[j]
                        == old(self).data@[j],
                forall|j: int| 0 <= j < i ==> self.data@[base + j] == data@[j],
                self.read_count == old(self).read_count,
                self.read_bytes == old(self).read_bytes,
                self.write_count == old(self).write_count,
                self.write_bytes == old(self).write_bytes,
                self.erase_count == old(self).erase_count,
                self.erase_bytes == old(self).erase_bytes,
            decreases n - i,
        {
            self.data[base + i] = data[i];
            i += 1;
        }
        self.write_count = self.write_count.wrapping_add(1);
        self.write_bytes = self.write_bytes.wrapping_add(n);
        proof {
            lemma_mem_pages(
                old(self).data@,
                self.data@,
                page_id@,
                written_page(old(self).contents()[page_id@], offset as int, data@),
            );
        }
    }
}

/// If the flat vector changed only within page `pid`, and that page now reads
/// as `np`, the per-page view is the old view with page `pid` replaced.
proof fn lemma_mem_pages(d1: Seq<u8>, d2: Seq<u8>, pid: int, np: Seq<u8>)
    requires
        d1.len() == PAGE_SIZE * MAX_PAGE_COUNT,
        d2.len() == d1.len(),
        0 <= pid < MAX_PAGE_COUNT,
        forall|j: int|
            0 <= j < d2.len() && !(pid * PAGE_SIZE <= j < (pid + 1) * PAGE_SIZE) ==> d2[j] == d1[j],
        np.len() == PAGE_SIZE,
        forall|j: int| 0 <= j < PAGE_SIZE ==> np[j] == d2[pid * PAGE_SIZE + j],
    ensures
        mem_pages(d2) == mem_pages(d1).update(pid, np),
{
    assert forall|i: int| 0 <= i < MAX_PAGE_COUNT implies mem_pages(d2)[i] == mem_pages(d1).update(
        pid,
        np,
    )[i] by {
        assert(0 <= i * PAGE_SIZE && (i + 1) * PAGE_SIZE <= d1.len()) by (nonlinear_arith)
            requires
                0 <= i < MAX_PAGE_COUNT,
                d1.len() == PAGE_SIZE * MAX_PAGE_COUNT,
        ;
        if i == pid {
            assert(mem_pages(d2)[i] =~= np);
        } else {
            assert((i + 1) * PAGE_SIZE <= pid * PAGE_SIZE || (pid + 1) * PAGE_SIZE <= i
                * PAGE_SIZE) by (nonlinear_arith)
                requires
                    0 <= i < MAX_PAGE_COUNT,
                    0 <= pid < MAX_PAGE_COUNT,
                    i != pid,
            ;
            assert(mem_pages(d2)[i] =~= mem_pages(d1)[i]);
        }
    }
    assert(mem_pages(d2) =~= mem_pages(d1).update(pid, np));
}

} // verus!
