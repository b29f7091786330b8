use segment_alloc::{
    align_up_log2, is_aligned_log2, BitAlloc, BitAlloc512, BitAlloc64, SegmentBitAllocCascade,
    SegmentBitmapPageAllocator,
};

type BitAlloc4K = SegmentBitAllocCascade<BitAlloc512, 8>;

fn summary_agrees_512(ba: &BitAlloc512) {
    for q in 0..8 {
        assert_eq!(ba.summary_at(q), !ba.child_is_empty(q));
    }
}

fn summary_agrees_4k(ba: &BitAlloc4K) {
    for q in 0..8 {
        assert_eq!(ba.summary_at(q), !ba.child_is_empty(q));
    }
}

#[test]
fn summary_tells_which_child_has_a_free_index() {
    let mut ba = BitAlloc512::default();
    summary_agrees_512(&ba);
    ba.insert(60..200);
    summary_agrees_512(&ba);
    assert!(ba.summary_at(0) && ba.summary_at(1) && ba.summary_at(2) && ba.summary_at(3));
    assert!(!ba.summary_at(4));
    ba.remove(64..128);
    summary_agrees_512(&ba);
    assert!(!ba.summary_at(1));
    for _ in 0..4 {
        ba.allocate();
        summary_agrees_512(&ba);
    }
    assert!(!ba.summary_at(0));
    ba.dealloc(300);
    summary_agrees_512(&ba);
    assert!(ba.summary_at(4));
    ba.dealloc_contiguous(400, 50);
    summary_agrees_512(&ba);
    ba.alloc_contiguous(None, 16, 4);
    summary_agrees_512(&ba);

    let mut big = BitAlloc4K::default();
    summary_agrees_4k(&big);
    big.insert(500..1030);
    summary_agrees_4k(&big);
    assert!(big.summary_at(0) && big.summary_at(1) && big.summary_at(2));
    assert!(!big.summary_at(3));
    big.remove(512..1024);
    summary_agrees_4k(&big);
    assert!(!big.summary_at(1));
    big.dealloc(4095);
    summary_agrees_4k(&big);
    big.dealloc_contiguous(2000, 100);
    summary_agrees_4k(&big);
    while big.allocate().is_some() {
        summary_agrees_4k(&big);
    }
    assert!(big.is_empty());
}

#[test]
fn taken_index_is_used_and_returned_index_is_free() {
    let mut ba = BitAlloc4K::default();
    ba.insert(100..3000);
    let k = ba.allocate().unwrap();
    assert_eq!(k, 100);
    assert!(!ba.test(k));
    assert!(ba.dealloc(k));
    assert!(ba.test(k));

    let mut leaf = BitAlloc64::default();
    leaf.insert(7..9);
    let k = leaf.allocate().unwrap();
    assert_eq!(k, 7);
    assert!(!leaf.test(k));
    assert!(leaf.dealloc(k));
    assert!(leaf.test(k));
}

#[test]
fn granted_runs_are_aligned_and_were_free() {
    let mut ba = BitAlloc4K::default();
    ba.insert(0..4096);
    ba.remove(0..5);
    ba.remove(100..130);
    ba.remove(1000..1001);
    let requests = [(3usize, 0usize), (2, 1), (5, 3), (64, 6), (100, 7), (512, 9), (7, 2)];
    for &(size, align_log2) in &requests {
        let before: Vec<bool> = (0..4096).map(|i| ba.test(i)).collect();
        let base = ba.alloc_contiguous(None, size, align_log2).unwrap();
        assert_eq!(base % (1 << align_log2), 0);
        assert!((base..base + size).all(|i| before[i]));
        assert!((base..base + size).all(|i| !ba.test(i)));
        // No lower aligned run was free.
        let step = 1usize << align_log2;
        let mut lower = 0;
        while lower < base {
            assert!(!(lower..lower + size).all(|i| before[i]));
            lower += step;
        }
    }
}

#[test]
fn counters_stay_in_step_with_the_free_pages() {
    let mut pa = SegmentBitmapPageAllocator::<2>::new();
    pa.init_with_page_size(4096, 4096 * 512, 0, 4096 * 512);
    let free_pages = |pa: &SegmentBitmapPageAllocator<2>| {
        (0..1024).filter(|&i| pa.page_is_free(i)).count()
    };
    assert_eq!(pa.used_pages() + pa.available_pages(), pa.total_pages());
    assert_eq!(pa.available_pages(), free_pages(&pa));
    let a = pa.alloc_pages(1, 4096).unwrap();
    let b = pa.alloc_pages(8, 4096 * 8).unwrap();
    let c = pa.alloc_pages_at(4096 * 100, 3, 4096).unwrap();
    assert_eq!(pa.used_pages(), 12);
    assert_eq!(pa.used_pages() + pa.available_pages(), pa.total_pages());
    assert_eq!(pa.available_pages(), free_pages(&pa));
    pa.dealloc_pages(b, 8);
    assert_eq!(pa.used_pages(), 4);
    assert_eq!(pa.available_pages(), free_pages(&pa));
    pa.dealloc_pages(a, 1);
    pa.dealloc_pages(c, 3);
    assert_eq!(pa.used_pages(), 0);
    assert_eq!(pa.available_pages(), 512);
    assert_eq!(pa.available_pages(), free_pages(&pa));
}

#[test]
fn second_activation_changes_nothing() {
    let mut pa = SegmentBitmapPageAllocator::<4>::new();
    pa.init_with_page_size(4096, 0x20_0000, 0, 0x20_0000);
    let snapshot = |pa: &SegmentBitmapPageAllocator<4>| -> Vec<bool> {
        (0..2048).map(|i| pa.page_is_free(i)).collect()
    };
    assert!(pa.increase_segment_at(0x40_0000));
    let first = snapshot(&pa);
    assert!((1024..1536).all(|i| first[i]));
    assert!((512..1024).all(|i| !first[i]));
    assert!(!pa.increase_segment_at(0x40_0000));
    assert_eq!(snapshot(&pa), first);
    assert!(pa.is_active(2));
    assert!(!pa.is_active(1));
}

#[test]
fn alignment_by_logarithm() {
    assert_eq!(align_up_log2(0, 3), 0);
    assert_eq!(align_up_log2(1, 3), 8);
    assert_eq!(align_up_log2(8, 3), 8);
    assert_eq!(align_up_log2(9, 3), 16);
    assert_eq!(align_up_log2(5, 0), 5);
    assert_eq!(align_up_log2(4095, 12), 4096);
    assert!(is_aligned_log2(0, 5));
    assert!(is_aligned_log2(64, 5));
    assert!(!is_aligned_log2(48, 5));
    assert!(is_aligned_log2(7, 0));
}
