//! Bitmap-based physical page allocator.
//!
//! One bit per physical page, over the whole addressable range up to the
//! highest usable address. Bit `i` stands for the page at byte offset
//! `i * PAGE_SIZE`; a set bit means "in use / reserved / unknown", a clear
//! bit means "free and allocatable". Within a byte, the most significant
//! bit holds the lowest page index.

use crate::mm::PAGE_SIZE;
use crate::util::spec_div_up;
use vstd::prelude::*;

verus! {

/// A physical address, kept distinct from virtual addresses and indices.
#[derive(Clone, Copy, PartialEq, Eq, Structural, Debug)]
pub struct PhysAddr(pub usize);

/// Classification of a memory-map region, as the bootloader reports it.
#[derive(Clone, Copy, PartialEq, Eq, Structural, Debug)]
pub enum RegionKind {
    /// Usable memory.
    Usable,
    /// Memory reserved by the system.
    Reserved,
    /// ACPI memory that can be reclaimed.
    AcpiReclaimable,
    /// ACPI memory that cannot be reclaimed.
    AcpiNvs,
    /// Memory marked as defective.
    BadMemory,
    /// Bootloader memory that can be reclaimed once boot is done.
    BootloaderReclaimable,
    /// Memory holding the kernel image and its modules.
    Kernel,
}

/// One entry of the bootloader-supplied memory map: the physical extent
/// `[start, start + length)` with its classification.
#[derive(Clone, Copy, Debug)]
pub struct Region {
    /// First byte of the region.
    pub start: usize,
    /// Length of the region in bytes.
    pub length: usize,
    /// What the region holds.
    pub kind: RegionKind,
}

/// Errors of the allocator. At boot time every one of them is fatal for the
/// caller; they are reported as values so that the caller owns the abort.
#[derive(Clone, Copy, PartialEq, Eq, Structural, Debug)]
pub enum PmmError {
    /// No usable region is large enough to host the allocator's own bitmap.
    NoRegionForBitmap,
    /// No contiguous run of free pages of the requested length exists.
    OutOfMemory,
    /// A page backing the bitmap itself was found marked free.
    SelfReservationViolated,
}

/// Whether `r` is usable memory.
pub open spec fn usable(r: Region) -> bool {
    r.kind is Usable
}

/// One-past-the-end address of `r`.
pub open spec fn region_end(r: Region) -> int {
    r.start + r.length
}

impl Region {
    /// Whether this region is usable memory.
    pub fn is_usable(&self) -> (b: bool)
        ensures
            b == usable(*self),
    {
        match self.kind {
            RegionKind::Usable => true,
            _ => false,
        }
    }
}

/// Bit `k` of `byte`, with bit 0 the most significant: the ordering of page
/// bits within a bitmap byte.
pub open spec fn nth_bit(byte: u8, k: int) -> bool
    recommends
        0 <= k < 8,
{
    (byte >> ((7 - k) as u8)) & 1u8 == 1u8
}

/// Highest one-past-the-end address over the usable regions of the map
/// (0 when there is none).
pub open spec fn spec_highest_end(regions: Seq<Region>) -> int
    decreases regions.len(),
{
    if regions.len() == 0 {
        0
    } else {
        let prev = spec_highest_end(regions.drop_last());
        let last = regions.last();
        if usable(last) && region_end(last) > prev {
            region_end(last)
        } else {
            prev
        }
    }
}

/// Number of addressable pages: one bit per page up to the highest usable
/// address.
pub open spec fn spec_bit_count(regions: Seq<Region>) -> int {
    spec_div_up(spec_highest_end(regions), PAGE_SIZE as int)
}

/// Number of bytes the bitmap needs.
pub open spec fn spec_bitmap_bytes(regions: Seq<Region>) -> int {
    spec_div_up(spec_bit_count(regions), 8)
}

/// Whether region `r` can host a bitmap of `nbytes` bytes.
pub open spec fn region_fits(r: Region, nbytes: int) -> bool {
    usable(r) && nbytes <= r.length
}

/// Whether some usable region can host the bitmap.
pub open spec fn has_host(regions: Seq<Region>) -> bool {
    exists|k: int|
        0 <= k < regions.len() && region_fits(
            #[trigger] regions[k],
            spec_bitmap_bytes(regions),
        )
}

/// `c` is the first usable region large enough to host the bitmap.
pub open spec fn is_chosen(regions: Seq<Region>, c: int) -> bool {
    &&& 0 <= c < regions.len()
    &&& region_fits(regions[c], spec_bitmap_bytes(regions))
    &&& forall|k: int|
        0 <= k < c ==> !region_fits(#[trigger] regions[k], spec_bitmap_bytes(regions))
}

/// Whether region `r` marks page `i` free: the page's address is page
/// aligned and lies in the region's extent, past the bitmap's own bytes
/// when `r` hosts them.
pub open spec fn region_frees(r: Region, is_host: bool, bmb: int, i: int) -> bool {
    &&& usable(r)
    &&& r.start + (if is_host {
        bmb
    } else {
        0
    }) <= i * (PAGE_SIZE as int)
    &&& i * (PAGE_SIZE as int) < region_end(r)
}

/// Whether the region at index `k` of the map marks page `i` free.
pub open spec fn frees_at(regions: Seq<Region>, c: int, bmb: int, k: int, i: int) -> bool {
    0 <= k < regions.len() && region_frees(regions[k], k == c, bmb, i)
}

/// Whether one of the first `upto` regions marks page `i` free.
pub open spec fn page_freed_upto(regions: Seq<Region>, c: int, bmb: int, i: int, upto: int) -> bool {
    exists|k: int| k < upto && #[trigger] frees_at(regions, c, bmb, k, i)
}

/// Whether any region of the map marks page `i` free.
pub open spec fn page_freed(regions: Seq<Region>, c: int, bmb: int, i: int) -> bool {
    page_freed_upto(regions, c, bmb, i, regions.len() as int)
}

/// Everything `init` establishes about the allocator it returns, with `c`
/// the index of the region chosen to host the bitmap: the sizes and the
/// base address are the ones the map dictates, the cursor starts at zero,
/// and a bit is clear exactly when some usable region frees its page.
pub open spec fn init_post(regions: Seq<Region>, c: int, pmm: Pmm) -> bool {
    &&& pmm.initialized()
    &&& pmm.nbits() == spec_bit_count(regions)
    &&& pmm.bytes().len() == spec_bitmap_bytes(regions)
    &&& pmm.base() == regions[c].start
    &&& pmm.cursor() == 0
    &&& forall|i: int|
        0 <= i < 8 * spec_bitmap_bytes(regions) ==> (#[trigger] pmm.bit(i) <==> !page_freed(
            regions,
            c,
            spec_bitmap_bytes(regions),
            i,
        ))
}

/// The pages `[q, q + n)` are all free in `pmm`.
pub open spec fn run_free(pmm: Pmm, q: int, n: int) -> bool {
    forall|j: int| q <= j < q + n ==> !(#[trigger] pmm.bit(j))
}

/// Everything a successful `alloc` of `pages` pages returning address
/// `addr` establishes: `addr` is the page-aligned address of the first run
/// of `pages` free pages at or after the cursor; those pages were free
/// before and are used after, no other bit changes, and the cursor moves
/// to the run's start.
pub open spec fn allocate_ok_post(pre: Pmm, post: Pmm, pages: int, addr: int) -> bool {
    let p = addr / (PAGE_SIZE as int);
    &&& post.initialized()
    &&& post.bytes().len() == pre.bytes().len()
    &&& post.base() == pre.base()
    &&& post.nbits() == pre.nbits()
    &&& addr == p * (PAGE_SIZE as int)
    &&& pre.cursor() <= p
    &&& p + pages <= pre.nbits()
    &&& run_free(pre, p, pages)
    &&& forall|j: int| p <= j < p + pages ==> #[trigger] post.bit(j)
    &&& forall|j: int|
        0 <= j < 8 * pre.bytes().len() && !(p <= j < p + pages) ==> #[trigger] post.bit(j)
            == pre.bit(j)
    &&& post.cursor() == p
    &&& forall|q: int| pre.cursor() <= q < p ==> !run_free(pre, q, pages)
}

/// What a failed `alloc` of `pages` pages establishes: the allocator is
/// untouched and no run of `pages` free pages exists at or after the
/// cursor.
pub open spec fn allocate_fail_post(pre: Pmm, post: Pmm, pages: int) -> bool {
    &&& post == pre
    &&& forall|q: int| pre.cursor() <= q && q + pages <= pre.nbits() ==> !run_free(pre, q, pages)
}

/// What `dealloc` of `pages` pages at address `addr` establishes: the
/// pages' bits are clear, no other bit changes, and the cursor does not
/// move.
pub open spec fn deallocate_post(pre: Pmm, post: Pmm, addr: int, pages: int) -> bool {
    let p = addr / (PAGE_SIZE as int);
    &&& post.initialized()
    &&& post.bytes().len() == pre.bytes().len()
    &&& post.base() == pre.base()
    &&& post.nbits() == pre.nbits()
    &&& post.cursor() == pre.cursor()
    &&& forall|j: int| p <= j < p + pages ==> !(#[trigger] post.bit(j))
    &&& forall|j: int|
        0 <= j < 8 * pre.bytes().len() && !(p <= j < p + pages) ==> #[trigger] post.bit(j)
            == pre.bit(j)
}

/// `a <= i * b` exactly when the ceiling of `a / b` is at most `i`.
pub proof fn lemma_div_up_bound(a: int, b: int, i: int)
    requires
        0 <= a,
        1 <= b,
        0 <= i,
    ensures
        (a <= i * b) <==> (spec_div_up(a, b) <= i),
{
    vstd::arithmetic::div_mod::lemma_fundamental_div_mod(a, b);
    let q = a / b;
    let r = a % b;
    if r == 0 {
        assert((a <= i * b) <==> (q <= i)) by (nonlinear_arith)
            requires
                a == b * q,
                b >= 1,
                i >= 0,
        ;
    } else {
        assert((a <= i * b) <==> (q + 1 <= i)) by (nonlinear_arith)
            requires
                a == b * q + r,
                1 <= r,
                r < b,
                b >= 1,
                i >= 0,
        ;
    }
}

/// Every usable region ends at or below the highest usable end address.
pub proof fn lemma_usable_le_highest(regions: Seq<Region>, k: int)
    requires
        0 <= k < regions.len(),
        usable(regions[k]),
    ensures
        region_end(regions[k]) <= spec_highest_end(regions),
    decreases regions.len(),
{
    if k == regions.len() - 1 {
    } else {
        lemma_usable_le_highest(regions.drop_last(), k);
    }
}

/// Extending the scanned prefix by one region frees the union of what the
/// prefix freed and what that region frees.
proof fn lemma_freed_upto_step(regions: Seq<Region>, c: int, bmb: int, i: int, upto: int)
    ensures
        page_freed_upto(regions, c, bmb, i, upto + 1) == (page_freed_upto(regions, c, bmb, i, upto)
            || frees_at(regions, c, bmb, upto, i)),
{
    if page_freed_upto(regions, c, bmb, i, upto + 1) {
        let k = choose|k: int| k < upto + 1 && #[trigger] frees_at(regions, c, bmb, k, i);
        if k < upto {
            assert(page_freed_upto(regions, c, bmb, i, upto));
        }
    }
    if page_freed_upto(regions, c, bmb, i, upto) {
        let k = choose|k: int| k < upto && #[trigger] frees_at(regions, c, bmb, k, i);
        assert(k < upto + 1 && frees_at(regions, c, bmb, k, i));
    }
    if frees_at(regions, c, bmb, upto, i) {
        assert(upto < upto + 1 && frees_at(regions, c, bmb, upto, i));
    }
}

/// Every bit of an all-ones byte is set.
proof fn lemma_all_ones_byte()
    by (bit_vector)
    ensures
        forall|t: u8| t < 8 ==> (0xFFu8 >> t) & 1u8 == 1u8,
{
}

/// Setting bit `s` (counted from the least significant end) leaves every
/// other bit of a byte as it was.
proof fn lemma_or_mask(b: u8, s: u8)
    by (bit_vector)
    requires
        s < 8,
    ensures
        ((b | (1u8 << s)) >> s) & 1u8 == 1u8,
        forall|t: u8| t < 8 && t != s ==> ((b | (1u8 << s)) >> t) & 1u8 == (b >> t) & 1u8,
{
}

/// Clearing bit `s` (counted from the least significant end) leaves every
/// other bit of a byte as it was.
proof fn lemma_and_not_mask(b: u8, s: u8)
    by (bit_vector)
    requires
        s < 8,
    ensures
        ((b & !(1u8 << s)) >> s) & 1u8 == 0u8,
        forall|t: u8| t < 8 && t != s ==> ((b & !(1u8 << s)) >> t) & 1u8 == (b >> t) & 1u8,
{
}

/// Two distinct page indices differ in their byte index or in their bit
/// position within the byte.
proof fn lemma_page_index_parts(j: int, o: int)
    requires
        j != o,
        0 <= j,
        0 <= o,
    ensures
        j / 8 != o / 8 || j % 8 != o % 8,
{
    if j / 8 == o / 8 && j % 8 == o % 8 {
        assert(j == 8 * (j / 8) + j % 8) by {
            vstd::arithmetic::div_mod::lemma_fundamental_div_mod(j, 8);
        }
        assert(o == 8 * (o / 8) + o % 8) by {
            vstd::arithmetic::div_mod::lemma_fundamental_div_mod(o, 8);
        }
    }
}

/// The physical page allocator.
///
/// `bitmap` holds the allocator's backing bytes; `bitmap_ptr` records the
/// physical address chosen to host them, so the pages of that extent are
/// kept reserved; `highest_bit` is the total number of addressable pages;
/// `last_used_page` is the low-water mark at which the next allocation
/// search begins.
#[derive(Debug)]
pub struct Pmm {
    bitmap: Vec<u8>,
    bitmap_ptr: Option<usize>,
    highest_bit: Option<usize>,
    last_used_page: usize,
}

impl Pmm {
    /// The bitmap's backing bytes.
    pub closed spec fn bytes(self) -> Seq<u8> {
        self.bitmap@
    }

    /// Total number of addressable pages (valid bits of the bitmap).
    pub closed spec fn nbits(self) -> int {
        self.highest_bit.unwrap() as int
    }

    /// Physical address at which the bitmap was sited.
    pub closed spec fn base(self) -> int {
        self.bitmap_ptr.unwrap() as int
    }

    /// The search cursor: the page index at which the next search begins.
    pub closed spec fn cursor(self) -> int {
        self.last_used_page as int
    }

    /// Well-formedness: the allocator has been populated by `init` and the
    /// recorded quantities agree with each other.
    pub closed spec fn initialized(self) -> bool {
        &&& self.bitmap_ptr is Some
        &&& self.highest_bit is Some
        &&& self.bitmap@.len() == spec_div_up(self.nbits(), 8)
        &&& self.nbits() <= self.bitmap@.len() * 8
        &&& self.cursor() <= self.nbits()
        &&& self.base() + self.bitmap@.len() <= self.nbits() * (PAGE_SIZE as int)
        &&& self.base() + self.bitmap@.len() <= usize::MAX
        &&& self.nbits() >= 1 ==> (self.nbits() - 1) * (PAGE_SIZE as int) <= usize::MAX
    }

    /// The bitmap bit for page `i`.
    pub closed spec fn bit(self, i: int) -> bool
        recommends
            0 <= i < self.bytes().len() * 8,
    {
        nth_bit(self.bitmap@[i / 8], i % 8)
    }

    /// Set the bit of page `offset`: mark the page used.
    pub fn bitmap_set_bit(&mut self, offset: usize)
        requires
            old(self).initialized(),
            offset < old(self).nbits(),
        ensures
            final(self).initialized(),
            final(self).bytes().len() == old(self).bytes().len(),
            final(self).base() == old(self).base(),
            final(self).nbits() == old(self).nbits(),
            final(self).cursor() == old(self).cursor(),
            final(self).bit(offset as int),
            forall|j: int|
                0 <= j < old(self).bytes().len() * 8 && j != offset ==> final(self).bit(j)
                    == old(self).bit(j),
    {
        proof {
            assert(offset / 8 < self.bitmap@.len());
        }
        let byte_idx: usize = offset / 8;
        let k: u8 = (offset % 8) as u8;
        let b: u8 = self.bitmap[byte_idx];
        let nb: u8 = b | (1u8 << (7 - k));
        self.bitmap.set(byte_idx, nb);
        proof {
            lemma_or_mask(b, (7 - k) as u8);
            assert forall|j: int|
                0 <= j < old(self).bytes().len() * 8 && j != offset implies final(self).bit(j)
                == old(self).bit(j) by {
                lemma_page_index_parts(j, offset as int);
                if j / 8 == offset as int / 8 {
                    let t: u8 = (7 - j % 8) as u8;
                    assert(t < 8 && t != 7 - k);
                    assert(((nb >> t) & 1u8) == ((b >> t) & 1u8));
                }
            }
        }
    }

    /// Clear the bit of page `offset`: mark the page free.
    pub fn bitmap_reset_bit(&mut self, offset: usize)
        requires
            old(self).initialized(),
            offset < old(self).nbits(),
        ensures
            final(self).initialized(),
            final(self).bytes().len() == old(self).bytes().len(),
            final(self).base() == old(self).base(),
            final(self).nbits() == old(self).nbits(),
            final(self).cursor() == old(self).cursor(),
            !final(self).bit(offset as int),
            forall|j: int|
                0 <= j < old(self).bytes().len() * 8 && j != offset ==> final(self).bit(j)
                    == old(self).bit(j),
    {
        proof {
            assert(offset / 8 < self.bitmap@.len());
        }
        let byte_idx: usize = offset / 8;
        let k: u8 = (offset % 8) as u8;
        let b: u8 = self.bitmap[byte_idx];
        let nb: u8 = b & !(1u8 << (7 - k));
        self.bitmap.set(byte_idx, nb);
        proof {
            lemma_and_not_mask(b, (7 - k) as u8);
            assert forall|j: int|
                0 <= j < old(self).bytes().len() * 8 && j != offset implies final(self).bit(j)
                == old(self).bit(j) by {
                lemma_page_index_parts(j, offset as int);
                if j / 8 == offset as int / 8 {
                    let t: u8 = (7 - j % 8) as u8;
                    assert(t < 8 && t != 7 - k);
                    assert(((nb >> t) & 1u8) == ((b >> t) & 1u8));
                }
            }
        }
    }

    /// Number of addressable pages.
    pub fn get_highest_bit(&self) -> (r: usize)
        requires
            self.initialized(),
        ensures
            r == self.nbits(),
    {
        self.highest_bit.unwrap()
    }

    /// Physical address at which the bitmap was sited.
    pub fn get_bitmap_ptr(&self) -> (r: PhysAddr)
        requires
            self.initialized(),
        ensures
            r.0 == self.base(),
    {
        PhysAddr(self.bitmap_ptr.unwrap())
    }

    /// Size in bytes of the bitmap's backing storage.
    pub fn bitmap_len(&self) -> (r: usize)
        ensures
            r == self.bytes().len(),
    {
        self.bitmap.len()
    }

    /// Page index at which the next allocation search begins.
    pub fn get_last_used_page(&self) -> (r: usize)
        requires
            self.initialized(),
        ensures
            r == self.cursor(),
    {
        self.last_used_page
    }

    /// Test the bit of page `offset`.
    pub fn bitmap_test_bit(&self, offset: usize) -> (r: bool)
        requires
            self.initialized(),
            offset < self.nbits(),
        ensures
            r == self.bit(offset as int),
    {
        proof {
            assert(offset / 8 < self.bitmap@.len());
        }
        let byte: u8 = self.bitmap[offset / 8];
        let k: u8 = (offset % 8) as u8;
        ((byte >> (7 - k)) & 1u8) == 1u8
    }

    /// Allocate `pages` contiguous free pages with a next-fit search from
    /// the cursor, mark them used, advance the cursor to the run's start,
    /// and return the run's physical address. Fails with `OutOfMemory`
    /// when no such run exists at or after the cursor.
    #[verifier::loop_isolation(false)]
    pub fn allocate(&mut self, pages: usize) -> (result: Result<PhysAddr, PmmError>)
        requires
            old(self).initialized(),
            1 <= pages,
        ensures
            final(self).initialized(),
            final(self).cursor() >= old(self).cursor(),
            match result {
                Ok(addr) => allocate_ok_post(*old(self), *final(self), pages as int, addr.0 as int),
                Err(e) => e == PmmError::OutOfMemory && allocate_fail_post(
                    *old(self),
                    *final(self),
                    pages as int,
                ),
            },
    {
        let mut contiguous: usize = 0;
        let highest = self.get_highest_bit();
        let mut offset = self.get_last_used_page();
        while offset < highest
            invariant
                *self == *old(self),
                offset <= highest,
                contiguous <= offset,
                contiguous < pages,
                self.cursor() <= offset - contiguous,
                forall|j: int| offset - contiguous <= j < offset ==> !(#[trigger] self.bit(j)),
                offset - contiguous == self.cursor() || self.bit(offset - contiguous - 1),
                forall|q: int|
                    self.cursor() <= q && q + pages <= offset ==> !run_free(*self, q, pages as int),
            decreases highest - offset,
        {
            if !self.bitmap_test_bit(offset) {
                contiguous += 1;
                if contiguous == pages {
                    let page = offset + 1 - pages;
                    proof {
                        assert(run_free(*self, page as int, pages as int));
                        assert forall|q: int| self.cursor() <= q < page implies !run_free(
                            *self,
                            q,
                            pages as int,
                        ) by {
                            assert(q + pages <= offset);
                        }
                        assert((highest - 1) * (PAGE_SIZE as int) <= usize::MAX);
                        vstd::arithmetic::mul::lemma_mul_inequality(
                            page as int,
                            highest - 1,
                            PAGE_SIZE as int,
                        );
                        vstd::arithmetic::div_mod::lemma_div_by_multiple(
                            page as int,
                            PAGE_SIZE as int,
                        );
                    }
                    self.last_used_page = page;
                    let mut p2 = page;
                    while p2 < offset + 1
                        invariant
                            page <= p2 <= offset + 1,
                            self.initialized(),
                            self.bytes().len() == old(self).bytes().len(),
                            self.base() == old(self).base(),
                            self.nbits() == old(self).nbits(),
                            self.cursor() == page,
                            forall|j: int| page <= j < p2 ==> #[trigger] self.bit(j),
                            forall|j: int|
                                0 <= j < 8 * old(self).bytes().len() && !(page <= j < p2)
                                    ==> #[trigger] self.bit(j) == old(self).bit(j),
                        decreases offset + 1 - p2,
                    {
                        self.bitmap_set_bit(p2);
                        p2 += 1;
                    }
                    return Ok(PhysAddr(page * PAGE_SIZE));
                }
            } else {
                contiguous = 0;
                proof {
                    assert forall|q: int|
                        self.cursor() <= q && q + pages <= offset + 1 implies !run_free(
                        *self,
                        q,
                        pages as int,
                    ) by {
                        if q + pages == offset + 1 {
                            assert(q <= offset < q + pages);
                            assert(self.bit(offset as int));
                        }
                    }
                }
            }
            proof {
                if contiguous > 0 {
                    // the run was just extended by the clear bit at `offset`
                    assert forall|q: int|
                        self.cursor() <= q && q + pages <= offset + 1 implies !run_free(
                        *self,
                        q,
                        pages as int,
                    ) by {
                        if q + pages == offset + 1 {
                            let start_run = offset - contiguous + 1;
                            assert(q < start_run);
                            if start_run != self.cursor() {
                                assert(self.bit(start_run - 1));
                                assert(q <= start_run - 1 < q + pages);
                            }
                        }
                    }
                }
            }
            offset += 1;
        }
        Err(PmmError::OutOfMemory)
    }

    /// Clear the `pages` bits starting at the page of `addr`. The caller
    /// is trusted: nothing checks that those pages were handed out by this
    /// allocator, and the cursor is not rewound.
    #[verifier::loop_isolation(false)]
    pub fn deallocate(&mut self, addr: PhysAddr, pages: usize)
        requires
            old(self).initialized(),
            addr.0 % PAGE_SIZE == 0,
            addr.0 as int / (PAGE_SIZE as int) + pages <= old(self).nbits(),
        ensures
            final(self).initialized(),
            deallocate_post(*old(self), *final(self), addr.0 as int, pages as int),
    {
        let first = addr.0 / PAGE_SIZE;
        let mut k: usize = 0;
        while k < pages
            invariant
                k <= pages,
                self.initialized(),
                self.bytes().len() == old(self).bytes().len(),
                self.base() == old(self).base(),
                self.nbits() == old(self).nbits(),
                self.cursor() == old(self).cursor(),
                forall|j: int| first <= j < first + k ==> !(#[trigger] self.bit(j)),
                forall|j: int|
                    0 <= j < 8 * old(self).bytes().len() && !(first <= j < first + k)
                        ==> #[trigger] self.bit(j) == old(self).bit(j),
            decreases pages - k,
        {
            self.bitmap_reset_bit(first + k);
            k += 1;
        }
    }
}

/// Index of the first usable region whose length is at least `nbytes`,
/// in enumeration order of the map.
fn find_host(regions: &Vec<Region>, nbytes: usize) -> (r: Option<usize>)
    ensures
        match r {
            Some(c) => {
                &&& c < regions@.len()
                &&& region_fits(regions@[c as int], nbytes as int)
                &&& forall|k: int|
                    0 <= k < c ==> !region_fits(#[trigger] regions@[k], nbytes as int)
            },
            None => forall|k: int|
                0 <= k < regions@.len() ==> !region_fits(#[trigger] regions@[k], nbytes as int),
        },
{
    let mut idx: usize = 0;
    while idx < regions.len()
        invariant
            idx <= regions@.len(),
            forall|k: int| 0 <= k < idx ==> !region_fits(#[trigger] regions@[k], nbytes as int),
        decreases regions@.len() - idx,
    {
        let r = regions[idx];
        if r.is_usable() && r.length >= nbytes {
            return Some(idx);
        }
        idx += 1;
    }
    None
}

/// Build the allocator from the bootloader-supplied memory map.
///
/// Scans the usable regions to size the bitmap, sites the bitmap in the
/// first usable region large enough to hold it, marks every page used, and
/// then frees every page-aligned address inside a usable region, excluding
/// the bytes the bitmap itself occupies. Fails with `NoRegionForBitmap`
/// when no usable region can host the bitmap.
#[verifier::loop_isolation(false)]
pub fn init(regions: &Vec<Region>) -> (result: Result<Pmm, PmmError>)
    requires
        forall|k: int| 0 <= k < regions@.len() ==> region_end(#[trigger] regions@[k]) <= usize::MAX,
    ensures
        result is Ok <==> has_host(regions@),
        match result {
            Ok(pmm) => exists|c: int| #[trigger] is_chosen(regions@, c) && init_post(regions@, c, pmm),
            Err(e) => e == PmmError::NoRegionForBitmap,
        },
{
    // First pass: highest end address over the usable regions.
    let mut highest_page: usize = 0;
    let mut i: usize = 0;
    while i < regions.len()
        invariant
            i <= regions@.len(),
            highest_page == spec_highest_end(regions@.take(i as int)),
        decreases regions@.len() - i,
    {
        let r = regions[i];
        proof {
            assert(regions@.take(i + 1).drop_last() =~= regions@.take(i as int));
            assert(regions@.take(i + 1).last() == regions@[i as int]);
        }
        if r.is_usable() {
            let e = r.start + r.length;
            if e > highest_page {
                highest_page = e;
            }
        }
        i += 1;
    }
    proof {
        assert(regions@.take(regions@.len() as int) =~= regions@);
    }

    let highest_bit = crate::util::div_up(highest_page, PAGE_SIZE);
    let bitmap_size = crate::util::div_up(highest_bit, 8);
    proof {
        assert(highest_bit == spec_bit_count(regions@));
        assert(bitmap_size == spec_bitmap_bytes(regions@));
    }

    // Second pass: choose the first usable region that can host the bitmap.
    let bitmap_entry = find_host(regions, bitmap_size);

    let c: usize = match bitmap_entry {
        Some(c) => c,
        None => {
            proof {
                assert(!has_host(regions@));
            }
            return Err(PmmError::NoRegionForBitmap);
        },
    };
    proof {
        assert(has_host(regions@));
    }

    // The fail-safe default: every byte all-ones, every page used.
    let mut bitmap: Vec<u8> = Vec::new();
    let mut j: usize = 0;
    while j < bitmap_size
        invariant
            j <= bitmap_size,
            bitmap@.len() == j,
            forall|t: int| 0 <= t < j ==> bitmap@[t] == 0xFFu8,
        decreases bitmap_size - j,
    {
        bitmap.push(0xFF);
        j += 1;
    }

    let chosen_start = regions[c].start;
    let mut pmm = Pmm {
        bitmap,
        bitmap_ptr: Some(chosen_start),
        highest_bit: Some(highest_bit),
        last_used_page: 0,
    };
    proof {
        lemma_div_up_bound(highest_bit as int, 8, bitmap_size as int);
        lemma_usable_le_highest(regions@, c as int);
        lemma_div_up_bound(highest_page as int, PAGE_SIZE as int, highest_bit as int);
        if highest_bit >= 1 {
            lemma_div_up_bound(highest_page as int, PAGE_SIZE as int, highest_bit - 1);
        }
        assert(pmm.initialized());
        lemma_all_ones_byte();
        assert forall|t: int| 0 <= t < 8 * bitmap_size implies pmm.bit(t) by {
            assert(0 <= t / 8 < bitmap_size);
            assert(pmm.bytes()[t / 8] == 0xFFu8);
            let s: u8 = (7 - t % 8) as u8;
            assert(s < 8);
            assert((0xFFu8 >> s) & 1u8 == 1u8);
        }
    }

    // Third pass: free every page-aligned address within a usable region,
    // excluding the bitmap's own bytes in the hosting region.
    let ghost bmb: int = bitmap_size as int;
    let mut ridx: usize = 0;
    while ridx < regions.len()
        invariant
            ridx <= regions@.len(),
            pmm.initialized(),
            pmm.base() == chosen_start,
            pmm.nbits() == highest_bit,
            pmm.bytes().len() == bitmap_size,
            pmm.cursor() == 0,
            forall|t: int|
                0 <= t < 8 * bitmap_size ==> (#[trigger] pmm.bit(t) <==> !page_freed_upto(
                    regions@,
                    c as int,
                    bmb,
                    t,
                    ridx as int,
                )),
        decreases regions@.len() - ridx,
    {
        let r = regions[ridx];
        if r.is_usable() {
            let mut size = r.length;
            let mut addr = r.start;
            if ridx == c {
                size -= bitmap_size;
                addr += bitmap_size;
            }
            let p_start = crate::util::div_up(addr, PAGE_SIZE);
            let p_end = crate::util::div_up(addr + size, PAGE_SIZE);
            proof {
                lemma_usable_le_highest(regions@, ridx as int);
                lemma_div_up_bound(highest_page as int, PAGE_SIZE as int, highest_bit as int);
                assert(p_end <= highest_bit) by {
                    lemma_div_up_bound((addr + size) as int, PAGE_SIZE as int, highest_bit as int);
                }
            }
            let mut p = p_start;
            while p < p_end
                invariant
                    p_start <= p,
                    p <= p_end || p == p_start,
                    pmm.initialized(),
                    pmm.base() == chosen_start,
                    pmm.nbits() == highest_bit,
                    pmm.bytes().len() == bitmap_size,
                    pmm.cursor() == 0,
                    forall|t: int|
                        0 <= t < 8 * bitmap_size ==> (#[trigger] pmm.bit(t) <==> !(page_freed_upto(
                            regions@,
                            c as int,
                            bmb,
                            t,
                            ridx as int,
                        ) || (p_start <= t < p))),
                decreases p_end - p,
            {
                pmm.bitmap_reset_bit(p);
                p += 1;
            }
            proof {
                assert forall|t: int| 0 <= t < 8 * bitmap_size implies (#[trigger] pmm.bit(t)
                    <==> !page_freed_upto(regions@, c as int, bmb, t, ridx + 1)) by {
                    lemma_freed_upto_step(regions@, c as int, bmb, t, ridx as int);
                    lemma_div_up_bound(addr as int, PAGE_SIZE as int, t);
                    lemma_div_up_bound((addr + size) as int, PAGE_SIZE as int, t);
                    assert(frees_at(regions@, c as int, bmb, ridx as int, t) <==> (p_start <= t
                        < p_end));
                    assert((p_start <= t < p) <==> (p_start <= t < p_end));
                }
            }
        } else {
            proof {
                assert forall|t: int| 0 <= t < 8 * bitmap_size implies (#[trigger] pmm.bit(t)
                    <==> !page_freed_upto(regions@, c as int, bmb, t, ridx + 1)) by {
                    lemma_freed_upto_step(regions@, c as int, bmb, t, ridx as int);
                    assert(!frees_at(regions@, c as int, bmb, ridx as int, t));
                }
            }
        }
        ridx += 1;
    }

    proof {
        assert(is_chosen(regions@, c as int));
        assert(init_post(regions@, c as int, pmm));
    }
    Ok(pmm)
}

/// Every page whose extent overlaps the bitmap's backing bytes is marked
/// used.
pub open spec fn self_reserved(pmm: Pmm) -> bool {
    forall|i: int|
        pmm.base() / (PAGE_SIZE as int) <= i && i * (PAGE_SIZE as int) < pmm.base()
            + pmm.bytes().len() ==> #[trigger] pmm.bit(i)
}

/// Validate the allocator right after `init`, before any client uses it:
/// every page backing the bitmap must still be marked used, and a one-page
/// allocation must round-trip, leaving the bitmap exactly as it was.
#[verifier::loop_isolation(false)]
pub fn sanity_check(pmm: &mut Pmm) -> (result: Result<(), PmmError>)
    requires
        old(pmm).initialized(),
    ensures
        final(pmm).initialized(),
        match result {
            Ok(()) => {
                &&& self_reserved(*old(pmm))
                &&& final(pmm).bytes().len() == old(pmm).bytes().len()
                &&& final(pmm).base() == old(pmm).base()
                &&& final(pmm).nbits() == old(pmm).nbits()
                &&& final(pmm).cursor() >= old(pmm).cursor()
                &&& forall|j: int|
                    0 <= j < 8 * old(pmm).bytes().len() ==> #[trigger] final(pmm).bit(j) == old(
                        pmm,
                    ).bit(j)
            },
            Err(PmmError::SelfReservationViolated) => !self_reserved(*old(pmm)) && *final(pmm)
                == *old(pmm),
            Err(PmmError::OutOfMemory) => self_reserved(*old(pmm)) && allocate_fail_post(
                *old(pmm),
                *final(pmm),
                1,
            ),
            Err(_) => false,
        },
{
    // Self-reservation: the pages that host the bitmap's own bytes.
    let base = pmm.get_bitmap_ptr();
    let nbytes = pmm.bitmap_len();
    let p_first = base.0 / PAGE_SIZE;
    let p_end = crate::util::div_up(base.0 + nbytes, PAGE_SIZE);
    proof {
        lemma_div_up_bound((base.0 + nbytes) as int, PAGE_SIZE as int, pmm.nbits());
    }
    let mut p = p_first;
    while p < p_end
        invariant
            p_first <= p,
            p <= p_end || p == p_first,
            *pmm == *old(pmm),
            forall|i: int| p_first <= i < p ==> #[trigger] pmm.bit(i),
        decreases p_end - p,
    {
        proof {
            lemma_div_up_bound((base.0 + nbytes) as int, PAGE_SIZE as int, p as int);
        }
        if !pmm.bitmap_test_bit(p) {
            proof {
                assert(p as int * (PAGE_SIZE as int) < pmm.base() + pmm.bytes().len());
                assert(!self_reserved(*old(pmm)));
            }
            return Err(PmmError::SelfReservationViolated);
        }
        p += 1;
    }
    proof {
        assert forall|i: int|
            pmm.base() / (PAGE_SIZE as int) <= i && i * (PAGE_SIZE as int) < pmm.base()
                + pmm.bytes().len() implies #[trigger] pmm.bit(i) by {
            lemma_div_up_bound((base.0 + nbytes) as int, PAGE_SIZE as int, i);
        }
        assert(self_reserved(*old(pmm)));
    }

    // Round trip: allocate one page, check its bit, free it, check again.
    let ghost before = *pmm;
    let addr = match pmm.allocate(1) {
        Ok(a) => a,
        Err(e) => {
            return Err(e);
        },
    };
    let ghost mid = *pmm;
    proof {
        // The allocated page's bit is now set; `allocate`'s contract
        // proves what a run-time assertion would probe.
        assert(pmm.bit(addr.0 as int / (PAGE_SIZE as int)));
        vstd::arithmetic::div_mod::lemma_mod_multiples_basic(
            addr.0 as int / (PAGE_SIZE as int),
            PAGE_SIZE as int,
        );
    }
    pmm.deallocate(addr, 1);
    proof {
        // And it is clear again after the deallocation.
        assert(!pmm.bit(addr.0 as int / (PAGE_SIZE as int)));
        lemma_allocate_deallocate_round_trip(before, mid, *pmm, 1, addr.0 as int);
    }
    Ok(())
}

/// Law: deallocating exactly what a successful allocation returned
/// restores every bit of the bitmap to its prior value, and no other.
pub proof fn lemma_allocate_deallocate_round_trip(s0: Pmm, s1: Pmm, s2: Pmm, pages: int, addr: int)
    requires
        allocate_ok_post(s0, s1, pages, addr),
        deallocate_post(s1, s2, addr, pages),
    ensures
        forall|j: int| 0 <= j < 8 * s0.bytes().len() ==> #[trigger] s2.bit(j) == s0.bit(j),
{
    let p = addr / (PAGE_SIZE as int);
    assert forall|j: int| 0 <= j < 8 * s0.bytes().len() implies #[trigger] s2.bit(j) == s0.bit(
        j,
    ) by {
        if p <= j < p + pages {
            assert(!s0.bit(j));
            assert(!s2.bit(j));
        }
    }
}

/// At most one region index is the first usable host for the bitmap.
pub proof fn lemma_chosen_unique(regions: Seq<Region>, c1: int, c2: int)
    requires
        is_chosen(regions, c1),
        is_chosen(regions, c2),
    ensures
        c1 == c2,
{
}

/// Law: after `init`, every page-aligned address inside a usable region is
/// free, except for pages overlapping the bitmap's own storage.
pub proof fn lemma_init_coverage(regions: Seq<Region>, c: int, pmm: Pmm, k: int, addr: int)
    requires
        is_chosen(regions, c),
        init_post(regions, c, pmm),
        0 <= k < regions.len(),
        usable(regions[k]),
        regions[k].start <= addr < region_end(regions[k]),
        addr % (PAGE_SIZE as int) == 0,
        // the page at `addr` does not overlap the bitmap's storage
        addr + PAGE_SIZE <= regions[c].start || regions[c].start + spec_bitmap_bytes(regions)
            <= addr,
    ensures
        !pmm.bit(addr / (PAGE_SIZE as int)),
{
    let ps = PAGE_SIZE as int;
    let bmb = spec_bitmap_bytes(regions);
    let i = addr / ps;
    vstd::arithmetic::div_mod::lemma_fundamental_div_mod(addr, ps);
    assert(addr == i * ps);
    if k == c {
        assert(regions[c].start <= addr);
        assert(regions[c].start + bmb <= addr);
    }
    assert(frees_at(regions, c, bmb, k, i));
    assert(page_freed(regions, c, bmb, i));
    lemma_usable_le_highest(regions, k);
    lemma_div_up_bound(spec_highest_end(regions), ps, pmm.nbits());
    assert(i < pmm.nbits()) by (nonlinear_arith)
        requires
            addr == i * ps,
            addr < pmm.nbits() * ps,
            ps >= 1,
    ;
}

/// Usable regions are pairwise disjoint as byte extents.
pub open spec fn usable_disjoint(regions: Seq<Region>) -> bool {
    forall|k1: int, k2: int|
        0 <= k1 < regions.len() && 0 <= k2 < regions.len() && k1 != k2 && usable(
            #[trigger] regions[k1],
        ) && usable(#[trigger] regions[k2]) ==> (region_end(regions[k1]) <= regions[k2].start
            || region_end(regions[k2]) <= regions[k1].start)
}

/// Every usable region starts on a page boundary.
pub open spec fn usable_page_aligned(regions: Seq<Region>) -> bool {
    forall|k: int|
        0 <= k < regions.len() && usable(#[trigger] regions[k]) ==> (regions[k].start as int) % (
        PAGE_SIZE as int) == 0
}

/// Law: immediately after `init`, every page overlapping the bitmap's own
/// backing bytes is marked used. Holds for memory maps whose usable
/// regions are pairwise disjoint and page aligned; an overlapping or
/// misaligned map may free part of the hosting page through another
/// region.
pub proof fn lemma_init_self_reservation(regions: Seq<Region>, c: int, pmm: Pmm, i: int)
    requires
        is_chosen(regions, c),
        init_post(regions, c, pmm),
        usable_disjoint(regions),
        usable_page_aligned(regions),
        0 <= i,
        i * (PAGE_SIZE as int) < pmm.base() + pmm.bytes().len(),
        pmm.base() < (i + 1) * (PAGE_SIZE as int),
    ensures
        pmm.bit(i),
{
    let ps = PAGE_SIZE as int;
    let bmb = spec_bitmap_bytes(regions);
    let b = regions[c].start as int;
    assert(b % ps == 0);
    vstd::arithmetic::div_mod::lemma_fundamental_div_mod(b, ps);
    let q = b / ps;
    assert(b <= i * ps) by (nonlinear_arith)
        requires
            b == ps * q,
            b < (i + 1) * ps,
            ps >= 1,
            0 <= i,
    ;
    assert(i < pmm.nbits()) by (nonlinear_arith)
        requires
            i * ps < pmm.nbits() * ps,
            ps >= 1,
            0 <= i,
    ;
    if page_freed(regions, c, bmb, i) {
        let k = choose|k: int|
            k < regions.len() && #[trigger] frees_at(regions, c, bmb, k, i);
        assert(frees_at(regions, c, bmb, k, i));
        if k == c {
            assert(b + bmb <= i * ps);
            assert(false);
        } else {
            assert(regions[k].start <= i * ps < region_end(regions[k]));
            assert(b <= i * ps < b + bmb);
            assert(b + bmb <= region_end(regions[c]));
            assert(false);
        }
    }
}

/// Law: after `init`, every page outside every usable region is marked
/// used — the fail-safe default. This covers the padding bits past the
/// last addressable page as well.
pub proof fn lemma_init_fail_safe(regions: Seq<Region>, c: int, pmm: Pmm, i: int)
    requires
        is_chosen(regions, c),
        init_post(regions, c, pmm),
        0 <= i < 8 * spec_bitmap_bytes(regions),
        forall|k: int|
            0 <= k < regions.len() && usable(#[trigger] regions[k]) ==> (region_end(regions[k])
                <= i * (PAGE_SIZE as int) || i * (PAGE_SIZE as int) + PAGE_SIZE
                <= regions[k].start),
    ensures
        pmm.bit(i),
{
    let ps = PAGE_SIZE as int;
    let bmb = spec_bitmap_bytes(regions);
    if page_freed(regions, c, bmb, i) {
        let k = choose|k: int|
            k < regions.len() && #[trigger] frees_at(regions, c, bmb, k, i);
        assert(frees_at(regions, c, bmb, k, i));
        assert(regions[k].start <= i * ps < region_end(regions[k]));
        assert(false);
    }
}

} // verus!
