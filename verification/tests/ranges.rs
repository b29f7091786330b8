use segment_alloc::{
    check_contiguous, find_contiguous, BitAlloc, BitAlloc512, BitAlloc64, SegmentBitAllocCascade,
};

type BitAlloc4K = SegmentBitAllocCascade<BitAlloc512, 8>;

#[test]
fn leaf_skips_removed_hole() {
    let mut ba = BitAlloc64::default();
    ba.insert(0..16);
    ba.remove(2..8);
    assert_eq!(ba.allocate(), Some(0));
    assert_eq!(ba.allocate(), Some(1));
    assert_eq!(ba.allocate(), Some(8));
}

#[test]
fn cascade_keeps_both_ends() {
    let mut ba = BitAlloc4K::default();
    ba.insert(0..4096);
    ba.remove(2..4094);
    let free: Vec<usize> = (0..4096).filter(|&i| ba.test(i)).collect();
    assert_eq!(free, vec![0, 1, 4094, 4095]);
    assert_eq!(ba.allocate(), Some(0));
    assert_eq!(ba.allocate(), Some(1));
    assert_eq!(ba.allocate(), Some(4094));
    assert_eq!(ba.allocate(), Some(4095));
    assert!(ba.is_empty());
    assert_eq!(ba.allocate(), None);
}

#[test]
fn aligned_run_skips_single_free_bit() {
    let mut ba = BitAlloc64::default();
    // Bit 3 free, bits 1 and 2 used, bits 4 and 5 free.
    ba.insert(3..6);
    assert!(!ba.test(1));
    assert!(!ba.test(2));
    assert_eq!(ba.alloc_contiguous(None, 2, 1), Some(4));
    assert!(ba.test(3));
    assert!(!ba.test(4));
    assert!(!ba.test(5));
}

#[test]
fn aligned_run_skips_single_free_bit_in_cascade() {
    let mut ba = BitAlloc512::default();
    ba.insert(3..6);
    assert_eq!(ba.alloc_contiguous(None, 2, 1), Some(4));
    assert!(ba.test(3));
    assert!(!ba.test(4));
    assert!(!ba.test(5));
}

#[test]
fn empty_ranges_change_nothing() {
    let mut ba = BitAlloc64::default();
    ba.insert(5..9);
    ba.insert(0..0);
    ba.insert(64..64);
    ba.remove(7..7);
    ba.remove(64..64);
    let free: Vec<usize> = (0..64).filter(|&i| ba.test(i)).collect();
    assert_eq!(free, vec![5, 6, 7, 8]);

    let mut big = BitAlloc4K::default();
    big.insert(510..514);
    big.insert(0..0);
    big.insert(512..512);
    big.insert(4096..4096);
    big.remove(0..0);
    big.remove(511..511);
    big.remove(4096..4096);
    let free: Vec<usize> = (0..4096).filter(|&i| big.test(i)).collect();
    assert_eq!(free, vec![510, 511, 512, 513]);
}

#[test]
fn whole_word_and_whole_tree_ranges() {
    let mut ba = BitAlloc64::default();
    ba.insert(0..64);
    assert!((0..64).all(|i| ba.test(i)));
    assert_eq!(ba.next(63), Some(63));
    assert_eq!(ba.next(64), None);
    ba.remove(0..64);
    assert!(ba.is_empty());
    assert!(!ba.any());

    let mut big = BitAlloc4K::default();
    big.insert(0..4096);
    assert_eq!(big.next(4095), Some(4095));
    assert_eq!(big.next(4096), None);
    assert_eq!(big.next(100_000), None);
    big.remove(0..4096);
    assert!(big.is_empty());
}

#[test]
fn next_crosses_children() {
    let mut ba = BitAlloc4K::default();
    ba.insert(70..72);
    ba.insert(1000..1001);
    ba.insert(4095..4096);
    assert_eq!(ba.next(0), Some(70));
    assert_eq!(ba.next(70), Some(70));
    assert_eq!(ba.next(71), Some(71));
    assert_eq!(ba.next(72), Some(1000));
    assert_eq!(ba.next(1001), Some(4095));
    // The child of 71 has free bits, but none from 72 on.
    assert_eq!(ba.next(520), Some(1000));
}

#[test]
fn release_of_a_range() {
    let mut ba = BitAlloc64::default();
    assert!(ba.dealloc_contiguous(4, 8));
    assert!((4..12).all(|i| ba.test(i)));
    // Part of the range is free already: nothing changes.
    assert!(!ba.dealloc_contiguous(10, 4));
    assert!(!ba.test(12));
    assert!(!ba.test(13));
    // The range leaves the word.
    assert!(!ba.dealloc_contiguous(60, 8));
    assert!(!ba.test(60));
    // An empty range within the word.
    assert!(ba.dealloc_contiguous(20, 0));
    assert!(!ba.test(20));
}

#[test]
fn release_across_children_stops_at_first_failure() {
    let mut ba = BitAlloc512::default();
    // Bits 128..132 are free already. A release of 60..140 frees its parts
    // in the first two words, which are all used, and fails in the third.
    ba.insert(128..132);
    assert!(!ba.dealloc_contiguous(60, 80));
    assert!((60..128).all(|i| ba.test(i)));
    assert!((128..132).all(|i| ba.test(i)));
    assert!((132..140).all(|i| !ba.test(i)));
    assert!(!ba.test(59));

    // Capacity exceeded: rejected, nothing changes.
    let mut other = BitAlloc512::default();
    assert!(!other.dealloc_contiguous(500, 13));
    assert!(other.is_empty());
    // All used: the whole range is freed.
    assert!(other.dealloc_contiguous(500, 12));
    assert!((500..512).all(|i| other.test(i)));
    assert_eq!(other.next(0), Some(500));
}

#[test]
fn requested_run_must_be_aligned_and_free() {
    let mut ba = BitAlloc512::default();
    ba.insert(0..512);
    assert_eq!(ba.alloc_contiguous(Some(3), 2, 1), None);
    assert_eq!(ba.alloc_contiguous(Some(4), 2, 1), Some(4));
    assert_eq!(ba.alloc_contiguous(Some(4), 2, 1), None);
    assert_eq!(ba.alloc_contiguous(Some(510), 4, 1), None);
    assert_eq!(ba.alloc_contiguous(Some(508), 4, 2), Some(508));
    assert_eq!(ba.alloc_contiguous(Some(0), 0, 0), None);
    assert_eq!(ba.alloc_contiguous(None, 0, 0), None);
    // The capacity is below the alignment.
    assert_eq!(ba.alloc_contiguous(None, 1, 10), None);
    assert_eq!(ba.alloc_contiguous(Some(0), 1, 10), None);
    assert_eq!(ba.alloc_contiguous(None, 1, 9), Some(0));
}

#[test]
fn release_reads_the_range_alone() {
    // Free bits outside the range do not stand in the way.
    let mut ba = BitAlloc64::default();
    ba.insert(0..4);
    ba.insert(12..64);
    assert!(ba.dealloc_contiguous(4, 8));
    assert!((0..64).all(|i| ba.test(i)));
    // One free bit at either end of the range does.
    let mut ba = BitAlloc64::default();
    ba.insert(11..12);
    assert!(!ba.dealloc_contiguous(4, 8));
    assert!(!ba.test(4));
    let mut ba = BitAlloc64::default();
    ba.insert(4..5);
    assert!(!ba.dealloc_contiguous(4, 8));
    assert!(!ba.test(5));
}

#[test]
fn search_reports_without_taking() {
    let mut ba = BitAlloc512::default();
    ba.insert(10..20);
    ba.insert(64..80);
    assert_eq!(find_contiguous(&ba, 512, 4, 2), Some(12));
    assert_eq!(find_contiguous(&ba, 512, 9, 2), Some(64));
    assert_eq!(find_contiguous(&ba, 512, 17, 0), None);
    assert_eq!(find_contiguous(&ba, 70, 9, 2), None);
    assert_eq!(find_contiguous(&ba, 72, 8, 3), Some(64));
    assert_eq!(find_contiguous(&ba, 512, 0, 0), None);
    assert!(check_contiguous(&ba, 12, 512, 8, 2));
    assert!(!check_contiguous(&ba, 12, 512, 9, 2));
    assert!(!check_contiguous(&ba, 11, 512, 4, 1));
    assert!(check_contiguous(&ba, 11, 512, 4, 0));
    assert!(check_contiguous(&ba, 10, 512, 4, 1));
    assert!(!check_contiguous(&ba, 64, 70, 8, 3));
    assert!(!check_contiguous(&ba, 64, 512, 0, 0));
    // Nothing was taken.
    assert!((10..20).all(|i| ba.test(i)));
    assert!((64..80).all(|i| ba.test(i)));
}

#[test]
fn summary_byte_follows_single_bits() {
    let mut ba = BitAlloc512::default();
    assert!(ba.dealloc(200));
    assert_eq!(ba.next(0), Some(200));
    assert!(ba.summary_at(3));
    assert!(!ba.summary_at(2));
    assert_eq!(ba.allocate(), Some(200));
    assert!(!ba.summary_at(3));
    assert!(ba.is_empty());
}

#[test]
fn the_ends_of_a_word() {
    let mut ba = BitAlloc64::default();
    ba.insert(63..64);
    ba.insert(0..1);
    assert!(ba.test(0) && ba.test(63));
    assert!((1..63).all(|i| !ba.test(i)));
    assert_eq!(ba.next(1), Some(63));
    assert!(!ba.dealloc_contiguous(62, 2));
    assert!(ba.dealloc_contiguous(1, 62));
    assert!((0..64).all(|i| ba.test(i)));
    ba.remove(63..64);
    ba.remove(0..1);
    assert_eq!(ba.allocate(), Some(1));
    assert_eq!(ba.alloc_contiguous(Some(62), 1, 1), Some(62));
    assert_eq!(ba.alloc_contiguous(None, 60, 2), None);
    assert_eq!(ba.alloc_contiguous(None, 58, 2), Some(4));
    assert_eq!(ba.allocate(), Some(2));
    assert_eq!(ba.allocate(), Some(3));
    assert!(ba.is_empty());
}

#[test]
fn wide_cascade_crosses_summary_words() {
    type Wide = SegmentBitAllocCascade<BitAlloc64, 300>;
    let mut ba = Wide::default();
    assert_eq!(Wide::cap(), 19200);
    assert!(ba.is_empty());
    let lo = 64 * 127 + 5;
    let hi = 64 * 129 + 3;
    ba.insert(lo..hi);
    assert!(!ba.summary_at(126));
    assert!(ba.summary_at(127) && ba.summary_at(128) && ba.summary_at(129));
    assert!(!ba.summary_at(130));
    assert_eq!(ba.next(0), Some(lo));
    assert_eq!(ba.next(64 * 128), Some(64 * 128));
    assert_eq!(ba.allocate(), Some(lo));
    ba.remove(lo..64 * 128);
    assert!(!ba.summary_at(127));
    assert_eq!(ba.allocate(), Some(64 * 128));
    ba.remove(64 * 128..hi);
    assert!(ba.is_empty());
    assert!(ba.dealloc(19199));
    assert!(ba.summary_at(299));
    assert_eq!(ba.next(0), Some(19199));
    assert_eq!(ba.allocate(), Some(19199));
    assert_eq!(ba.allocate(), None);
    assert!(!ba.segment_is_free(0));
    ba.insert(0..64);
    assert!(ba.segment_is_free(0));
    ba.remove(63..64);
    assert!(!ba.segment_is_free(0));
}
