//! Behaviour of the bitmap physical page allocator.

use bruhos::mm::pmm::{init, sanity_check, PhysAddr, PmmError, Region, RegionKind};
use bruhos::mm::PAGE_SIZE;

/// One usable MiB at 0x100000: 256 usable pages, 512 addressable pages.
fn one_region_map() -> Vec<Region> {
    vec![Region { start: 0x100000, length: 0x100000, kind: RegionKind::Usable }]
}

#[test]
fn init_sites_bitmap_and_frees_remaining_pages() {
    let regions = one_region_map();
    let pmm = init(&regions).unwrap();
    assert_eq!(pmm.get_bitmap_ptr(), PhysAddr(0x100000));
    assert_eq!(pmm.get_highest_bit(), 512);
    assert_eq!(pmm.bitmap_len(), 64);
    assert_eq!(pmm.get_last_used_page(), 0);
    let mut free = 0;
    for p in 0..512 {
        if !pmm.bitmap_test_bit(p) {
            free += 1;
        }
    }
    assert_eq!(free, 255);
}

#[test]
fn init_coverage_of_usable_pages() {
    let regions = one_region_map();
    let pmm = init(&regions).unwrap();
    // Every page-aligned address in the usable region is free, except the
    // page hosting the bitmap itself.
    for p in 257..512 {
        assert!(!pmm.bitmap_test_bit(p));
    }
}

#[test]
fn init_self_reservation() {
    let regions = one_region_map();
    let pmm = init(&regions).unwrap();
    // The bitmap lives at 0x100000 and is 64 bytes long: page 256 hosts it
    // and must stay marked used.
    assert!(pmm.bitmap_test_bit(256));
}

#[test]
fn init_fail_safe_default() {
    let mut regions = one_region_map();
    regions.push(Region { start: 0x300000, length: 0x1000, kind: RegionKind::Reserved });
    let pmm = init(&regions).unwrap();
    // Pages below the usable region stay used, and so do reserved pages.
    for p in 0..256 {
        assert!(pmm.bitmap_test_bit(p));
    }
    assert_eq!(pmm.get_highest_bit(), 512);
}

#[test]
fn init_skips_too_small_host_region() {
    // 16 usable bytes cannot host the 64-byte bitmap that the second
    // region forces; the second region is the first fitting host.
    let regions = vec![
        Region { start: 0x1000, length: 16, kind: RegionKind::Usable },
        Region { start: 0x100000, length: 0x100000, kind: RegionKind::Usable },
    ];
    let pmm = init(&regions).unwrap();
    assert_eq!(pmm.get_bitmap_ptr(), PhysAddr(0x100000));
}

#[test]
fn init_fails_without_usable_region() {
    let regions = vec![Region { start: 0x100000, length: 0x100000, kind: RegionKind::Reserved }];
    assert_eq!(init(&regions).unwrap_err(), PmmError::NoRegionForBitmap);
}

#[test]
fn init_fails_when_no_region_can_host_the_bitmap() {
    // The usable region ends at 1 MiB, so the bitmap needs 32 bytes, but
    // the region itself is only 8 bytes long.
    let regions = vec![Region { start: 0xFFFF8, length: 8, kind: RegionKind::Usable }];
    assert_eq!(init(&regions).unwrap_err(), PmmError::NoRegionForBitmap);
}

#[test]
fn allocate_returns_two_distinct_ascending_pages() {
    let regions = one_region_map();
    let mut pmm = init(&regions).unwrap();
    let a1 = pmm.allocate(1).unwrap();
    let a2 = pmm.allocate(1).unwrap();
    assert_ne!(a1, a2);
    assert!(a2.0 >= a1.0 + PAGE_SIZE);
    assert_eq!(a1, PhysAddr(257 * PAGE_SIZE));
    assert_eq!(a2, PhysAddr(258 * PAGE_SIZE));
}

#[test]
fn allocate_contiguity() {
    let regions = one_region_map();
    let mut pmm = init(&regions).unwrap();
    for p in 257..261 {
        assert!(!pmm.bitmap_test_bit(p));
    }
    let a = pmm.allocate(4).unwrap();
    assert_eq!(a.0 % PAGE_SIZE, 0);
    assert_eq!(a, PhysAddr(257 * PAGE_SIZE));
    for p in 257..261 {
        assert!(pmm.bitmap_test_bit(p));
    }
    assert!(!pmm.bitmap_test_bit(261));
}

#[test]
fn allocate_out_of_memory_is_not_partial() {
    let regions = one_region_map();
    let mut pmm = init(&regions).unwrap();
    // Only 255 pages are free in the whole map.
    let before: Vec<bool> = (0..512).map(|p| pmm.bitmap_test_bit(p)).collect();
    assert_eq!(pmm.allocate(1000).unwrap_err(), PmmError::OutOfMemory);
    let after: Vec<bool> = (0..512).map(|p| pmm.bitmap_test_bit(p)).collect();
    assert_eq!(before, after);
    assert_eq!(pmm.get_last_used_page(), 0);
}

#[test]
fn allocate_skips_used_run_that_is_too_short() {
    let regions = one_region_map();
    let mut pmm = init(&regions).unwrap();
    // Mark page 259 used: pages 257 and 258 form a hole of two pages.
    pmm.bitmap_set_bit(259);
    let a = pmm.allocate(3).unwrap();
    // Pages 257..259 do not fit three pages; the first fitting run
    // starts at 260.
    assert_eq!(a, PhysAddr(260 * PAGE_SIZE));
}

#[test]
fn deallocate_restores_exactly_the_allocated_bits() {
    let regions = one_region_map();
    let mut pmm = init(&regions).unwrap();
    let before: Vec<bool> = (0..512).map(|p| pmm.bitmap_test_bit(p)).collect();
    let a = pmm.allocate(4).unwrap();
    pmm.deallocate(a, 4);
    let after: Vec<bool> = (0..512).map(|p| pmm.bitmap_test_bit(p)).collect();
    assert_eq!(before, after);
}

#[test]
fn deallocate_trusts_the_caller() {
    let regions = one_region_map();
    let mut pmm = init(&regions).unwrap();
    // Nothing checks that these pages were ever allocated: the bits are
    // cleared regardless.
    assert!(pmm.bitmap_test_bit(10));
    pmm.deallocate(PhysAddr(10 * PAGE_SIZE), 2);
    assert!(!pmm.bitmap_test_bit(10));
    assert!(!pmm.bitmap_test_bit(11));
    assert!(pmm.bitmap_test_bit(12));
}

#[test]
fn cursor_is_monotonic_and_never_rewinds() {
    let regions = one_region_map();
    let mut pmm = init(&regions).unwrap();
    let c0 = pmm.get_last_used_page();
    let a1 = pmm.allocate(2).unwrap();
    let c1 = pmm.get_last_used_page();
    assert!(c1 >= c0);
    pmm.deallocate(a1, 2);
    // Deallocation does not rewind the cursor.
    assert_eq!(pmm.get_last_used_page(), c1);
    let _ = pmm.allocate(1).unwrap();
    let c2 = pmm.get_last_used_page();
    assert!(c2 >= c1);
}

#[test]
fn sanity_check_passes_after_init() {
    let regions = one_region_map();
    let mut pmm = init(&regions).unwrap();
    assert!(sanity_check(&mut pmm).is_ok());
}

#[test]
fn sanity_check_round_trip_leaves_bitmap_unchanged() {
    let regions = one_region_map();
    let mut pmm = init(&regions).unwrap();
    let before: Vec<bool> = (0..512).map(|p| pmm.bitmap_test_bit(p)).collect();
    sanity_check(&mut pmm).unwrap();
    let after: Vec<bool> = (0..512).map(|p| pmm.bitmap_test_bit(p)).collect();
    assert_eq!(before, after);
}

#[test]
fn sanity_check_detects_corrupted_self_reservation() {
    let regions = one_region_map();
    let mut pmm = init(&regions).unwrap();
    assert!(sanity_check(&mut pmm).is_ok());
    // Deliberately clear the bit of the page hosting the bitmap.
    pmm.bitmap_reset_bit(256);
    assert_eq!(sanity_check(&mut pmm).unwrap_err(), PmmError::SelfReservationViolated);
}

#[test]
fn sanity_check_reports_exhaustion() {
    let regions = one_region_map();
    let mut pmm = init(&regions).unwrap();
    // Fill every free page, then the round-trip allocation cannot succeed.
    while pmm.allocate(1).is_ok() {}
    assert_eq!(sanity_check(&mut pmm).unwrap_err(), PmmError::OutOfMemory);
}

#[test]
fn bit_interface_round_trip() {
    let regions = one_region_map();
    let mut pmm = init(&regions).unwrap();
    assert!(!pmm.bitmap_test_bit(300));
    pmm.bitmap_set_bit(300);
    assert!(pmm.bitmap_test_bit(300));
    assert!(!pmm.bitmap_test_bit(299));
    assert!(!pmm.bitmap_test_bit(301));
    pmm.bitmap_reset_bit(300);
    assert!(!pmm.bitmap_test_bit(300));
}

#[test]
fn two_usable_regions_both_freed() {
    let regions = vec![
        Region { start: 0x100000, length: 0x100000, kind: RegionKind::Usable },
        Region { start: 0x300000, length: 0x2000, kind: RegionKind::Usable },
    ];
    let pmm = init(&regions).unwrap();
    assert_eq!(pmm.get_highest_bit(), 0x302);
    // Second region's two pages are free; the gap between regions is not.
    assert!(!pmm.bitmap_test_bit(0x300));
    assert!(!pmm.bitmap_test_bit(0x301));
    assert!(pmm.bitmap_test_bit(0x2FF));
}
