use segment_alloc::{AllocError, SegmentBitmapPageAllocator, MAX_ALIGN_1GB, SEGMENT_PAGES};

const PAGE: usize = 4096;
const SEGMENT: usize = PAGE * 512;

fn one_segment() -> SegmentBitmapPageAllocator<2> {
    let mut pa = SegmentBitmapPageAllocator::<2>::new();
    pa.init_with_page_size(PAGE, SEGMENT, 0, SEGMENT);
    pa
}

#[test]
fn full_segment_runs_out_of_memory() {
    let mut pa = one_segment();
    assert_eq!(pa.page_size(), PAGE);
    assert_eq!(pa.segment_granularity(), SEGMENT);
    assert_eq!(pa.base(), 0);
    assert_eq!(pa.total_pages(), 512);
    assert_eq!(pa.used_pages(), 0);
    assert_eq!(pa.available_pages(), 512);
    assert!(pa.is_active(0));
    assert!(!pa.is_active(1));
    for i in 0..512 {
        assert_eq!(pa.alloc_pages(1, PAGE), Ok(i * PAGE));
    }
    assert_eq!(pa.used_pages(), 512);
    assert_eq!(pa.available_pages(), 0);
    assert_eq!(pa.alloc_pages(1, PAGE), Err(AllocError::NoMemory));
    assert_eq!(pa.alloc_pages(2, PAGE), Err(AllocError::NoMemory));
    assert_eq!(pa.used_pages(), 512);
}

#[test]
fn malformed_requests_are_invalid() {
    let mut pa = one_segment();
    // More than 1 GiB.
    assert_eq!(pa.alloc_pages(1, MAX_ALIGN_1GB * 2), Err(AllocError::InvalidParam));
    // Not a multiple of the page size.
    assert_eq!(pa.alloc_pages(1, PAGE / 2), Err(AllocError::InvalidParam));
    assert_eq!(pa.alloc_pages(1, PAGE + 1), Err(AllocError::InvalidParam));
    // Not a power of two.
    assert_eq!(pa.alloc_pages(1, PAGE * 3), Err(AllocError::InvalidParam));
    assert_eq!(pa.alloc_pages(4, 0), Err(AllocError::InvalidParam));
    // No pages.
    assert_eq!(pa.alloc_pages(0, PAGE), Err(AllocError::InvalidParam));
    assert_eq!(pa.used_pages(), 0);
    assert_eq!(pa.available_pages(), 512);

    assert_eq!(pa.alloc_pages_at(PAGE, 1, MAX_ALIGN_1GB * 2), Err(AllocError::InvalidParam));
    assert_eq!(pa.alloc_pages_at(PAGE, 1, PAGE * 3), Err(AllocError::InvalidParam));
    assert_eq!(pa.alloc_pages_at(PAGE, 1, 0), Err(AllocError::InvalidParam));
    assert_eq!(pa.alloc_pages_at(PAGE, 1, PAGE / 2), Err(AllocError::InvalidParam));
    // The address is not a multiple of the alignment.
    assert_eq!(pa.alloc_pages_at(PAGE, 2, PAGE * 2), Err(AllocError::InvalidParam));
    assert_eq!(pa.alloc_pages_at(PAGE + 8, 1, PAGE), Err(AllocError::InvalidParam));
    assert_eq!(pa.used_pages(), 0);
    // The largest alignment is accepted; one page ignores it.
    assert_eq!(pa.alloc_pages(1, MAX_ALIGN_1GB), Ok(0));
}

#[test]
fn runs_are_aligned_in_bytes() {
    let mut pa = one_segment();
    assert_eq!(pa.alloc_pages(1, PAGE), Ok(0));
    assert_eq!(pa.alloc_pages(2, PAGE * 2), Ok(2 * PAGE));
    assert_eq!(pa.alloc_pages(3, PAGE * 8), Ok(8 * PAGE));
    assert_eq!(pa.alloc_pages(1, PAGE * 8), Ok(PAGE));
    assert_eq!(pa.alloc_pages(4, PAGE), Ok(4 * PAGE));
    assert_eq!(pa.alloc_pages(64, PAGE * 64), Ok(64 * PAGE));
    assert_eq!(pa.used_pages(), 1 + 2 + 3 + 1 + 4 + 64);
    // No run of 512 pages is left, nor one aligned to 1 GiB.
    assert_eq!(pa.alloc_pages(512, PAGE), Err(AllocError::NoMemory));
    assert_eq!(pa.alloc_pages(2, MAX_ALIGN_1GB), Err(AllocError::NoMemory));
}

#[test]
fn pages_at_a_given_address() {
    let mut pa = one_segment();
    assert_eq!(pa.alloc_pages_at(0x8000, 2, PAGE), Ok(0x8000));
    assert_eq!(pa.used_pages(), 2);
    assert!(!pa.page_is_free(8));
    assert!(!pa.page_is_free(9));
    assert!(pa.page_is_free(10));
    assert_eq!(pa.alloc_pages_at(0x8000, 2, PAGE), Err(AllocError::NoMemory));
    assert_eq!(pa.alloc_pages_at(0x9000, 1, PAGE), Err(AllocError::NoMemory));
    assert_eq!(pa.alloc_pages_at(0xa000, 0, PAGE), Err(AllocError::NoMemory));
    // Beyond the active segment nothing is free.
    assert_eq!(pa.alloc_pages_at(SEGMENT, 1, PAGE), Err(AllocError::NoMemory));
    assert_eq!(pa.alloc_pages_at(SEGMENT - PAGE, 2, PAGE), Err(AllocError::NoMemory));
    assert_eq!(pa.alloc_pages_at(SEGMENT - PAGE, 1, PAGE), Ok(SEGMENT - PAGE));
    assert_eq!(pa.alloc_pages_at(0x10000, 16, 0x10000), Ok(0x10000));
    assert_eq!(pa.used_pages(), 19);
}

#[test]
fn returned_pages_are_counted_once() {
    let mut pa = one_segment();
    let a = pa.alloc_pages(1, PAGE).unwrap();
    let b = pa.alloc_pages(4, PAGE).unwrap();
    assert_eq!(pa.used_pages(), 5);
    pa.dealloc_pages(a, 1);
    assert_eq!(pa.used_pages(), 4);
    // Returned twice: the counter stays.
    pa.dealloc_pages(a, 1);
    assert_eq!(pa.used_pages(), 4);
    pa.dealloc_pages(b, 4);
    assert_eq!(pa.used_pages(), 0);
    pa.dealloc_pages(b, 4);
    assert_eq!(pa.used_pages(), 0);
    // No pages: nothing happens.
    pa.dealloc_pages(b, 0);
    assert_eq!(pa.used_pages(), 0);
    assert_eq!(pa.available_pages(), 512);
    assert!((0..512).all(|i| pa.page_is_free(i)));
}

#[test]
fn segments_come_and_go() {
    let mut pa = SegmentBitmapPageAllocator::<4>::new();
    pa.init_with_page_size(PAGE, SEGMENT, 0, SEGMENT);
    assert!(!pa.increase_segment_at(0));
    assert!(pa.increase_segment_at(SEGMENT));
    assert!(pa.increase_segment_at(3 * SEGMENT));
    assert!(pa.is_active(0) && pa.is_active(1) && !pa.is_active(2) && pa.is_active(3));
    assert!((512..1024).all(|i| pa.page_is_free(i)));
    assert!((1024..1536).all(|i| !pa.page_is_free(i)));
    assert!((1536..2048).all(|i| pa.page_is_free(i)));

    // A page of segment 1 is in use: the segment stays.
    assert_eq!(pa.alloc_pages_at(SEGMENT + PAGE, 1, PAGE), Ok(SEGMENT + PAGE));
    pa.try_decrease_segment();
    assert!(pa.is_active(1));
    assert!(!pa.is_active(0));
    assert!(!pa.is_active(3));
    assert!((0..512).all(|i| !pa.page_is_free(i)));
    assert!(pa.page_is_free(512));
    assert!(!pa.page_is_free(513));
    assert!((514..1024).all(|i| pa.page_is_free(i)));
    assert!((1536..2048).all(|i| !pa.page_is_free(i)));

    // Once the page is back, the segment goes too.
    pa.dealloc_pages(SEGMENT + PAGE, 1);
    pa.try_decrease_segment();
    assert!(!pa.is_active(1));
    assert!((0..2048).all(|i| !pa.page_is_free(i)));
    assert_eq!(pa.alloc_pages(1, PAGE), Err(AllocError::NoMemory));

    // And may come back.
    assert!(pa.increase_segment_at(SEGMENT));
    assert_eq!(pa.alloc_pages(1, PAGE), Ok(SEGMENT));
}

#[test]
fn addresses_are_relative_to_a_gigabyte_base() {
    let start = MAX_ALIGN_1GB + SEGMENT;
    let mut pa = SegmentBitmapPageAllocator::<4>::new();
    pa.init_with_page_size(PAGE, SEGMENT, start, SEGMENT + 3 * PAGE + 17);
    assert_eq!(pa.base(), MAX_ALIGN_1GB);
    assert_eq!(pa.total_pages(), 512 + 3);
    assert!(pa.is_active(1));
    assert!(!pa.is_active(0));
    assert!((0..512).all(|i| !pa.page_is_free(i)));
    assert!((512..1027).all(|i| pa.page_is_free(i)));
    assert!(!pa.page_is_free(1027));
    assert_eq!(pa.alloc_pages(1, PAGE), Ok(start));
    assert_eq!(pa.alloc_pages(2, 2 * PAGE), Ok(start + 2 * PAGE));
    assert_eq!(pa.alloc_pages_at(start + SEGMENT, 3, PAGE), Ok(start + SEGMENT));
    pa.dealloc_pages(start, 1);
    assert!(pa.page_is_free(512));
    assert_eq!(pa.used_pages(), 5);
    assert!(pa.increase_segment_at(MAX_ALIGN_1GB));
    assert!(!pa.increase_segment_at(start));
    assert_eq!(pa.alloc_pages(1, PAGE), Ok(MAX_ALIGN_1GB));
}

#[test]
fn unaligned_span_keeps_whole_pages_only() {
    let mut pa = SegmentBitmapPageAllocator::<2>::new();
    pa.init_with_page_size(PAGE, SEGMENT, 0, 10 * PAGE + 100);
    assert_eq!(pa.total_pages(), 10);
    assert_eq!(pa.available_pages(), 10);
    assert!((0..10).all(|i| pa.page_is_free(i)));
    assert!(!pa.page_is_free(10));

    let mut empty = SegmentBitmapPageAllocator::<2>::new();
    empty.init_with_page_size(PAGE, SEGMENT, 0, 100);
    assert_eq!(empty.total_pages(), 0);
    assert_eq!(empty.alloc_pages(1, PAGE), Err(AllocError::NoMemory));
}

#[test]
fn more_memory_is_refused() {
    let mut pa = one_segment();
    assert_eq!(pa.add_memory(SEGMENT, SEGMENT), Err(AllocError::NoMemory));
    assert_eq!(pa.total_pages(), 512);
    assert_eq!(SEGMENT_PAGES, 512);
}

#[test]
fn later_span_is_cut_to_whole_pages() {
    let mut pa = SegmentBitmapPageAllocator::<2>::new();
    pa.init_with_page_size(PAGE, SEGMENT, 0, 0);
    assert_eq!(pa.total_pages(), 0);
    // The span 100..12388 holds the pages 1 and 2.
    pa.init(100, 3 * PAGE);
    assert_eq!(pa.base(), 0);
    assert_eq!(pa.total_pages(), 2);
    assert!(!pa.page_is_free(0));
    assert!(pa.page_is_free(1));
    assert!(pa.page_is_free(2));
    assert!(!pa.page_is_free(3));
    assert_eq!(pa.alloc_pages(2, PAGE), Ok(PAGE));
    assert_eq!(pa.alloc_pages(1, PAGE), Err(AllocError::NoMemory));
}

#[test]
fn base_is_rounded_down_to_a_gigabyte() {
    let base = 3 * MAX_ALIGN_1GB;
    let mut pa = SegmentBitmapPageAllocator::<1024>::new();
    pa.init_with_page_size(PAGE, SEGMENT, base + 500 * SEGMENT, SEGMENT);
    assert_eq!(pa.base(), base);
    assert!(pa.is_active(500));
    assert!(!pa.is_active(0));
    assert_eq!(pa.alloc_pages(1, PAGE), Ok(base + 500 * SEGMENT));
    assert!(pa.increase_segment_at(base + 1023 * SEGMENT));
    assert_eq!(
        pa.alloc_pages_at(base + 1023 * SEGMENT + 511 * PAGE, 1, PAGE),
        Ok(base + 1023 * SEGMENT + 511 * PAGE)
    );
    pa.dealloc_pages(base + 500 * SEGMENT, 1);
    pa.try_decrease_segment();
    assert!(!pa.is_active(500));
    assert!(pa.is_active(1023));
}
