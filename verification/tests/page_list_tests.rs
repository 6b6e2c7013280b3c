use simple_allocator2::page_list::{PAGE_DATA_SIZE, PAGE_HEADER_SIZE};
use simple_allocator2::{MyPage, PageListHead};

const BASE: usize = 0x10_0000;
const OTHER: usize = 0x20_0000;

#[test]
fn new_list_is_empty() {
    let h = PageListHead::new(64);
    assert_eq!(h.get_sizeclass(), 64);
    assert_eq!(h.page_count(), 0);
}

#[test]
fn reserve_page_appends_fresh_page() {
    let mut h = PageListHead::new(32);
    assert_eq!(h.reserve_page(BASE), BASE);
    assert_eq!(h.reserve_page(OTHER), OTHER);
    assert_eq!(h.page_count(), 2);
    assert_eq!(h.page(0), MyPage { addr: BASE, free_list: [0; 4], size_class: 32 });
    assert_eq!(h.page(1), MyPage { addr: OTHER, free_list: [0; 4], size_class: 32 });
}

#[test]
fn reserve_large_page_keeps_its_size() {
    let mut h = PageListHead::new(2049);
    assert_eq!(h.reserve_large_page(BASE, 5000), BASE);
    assert_eq!(h.page(0), MyPage { addr: BASE, free_list: [0; 4], size_class: 5000 });
}

#[test]
fn take_slot_on_empty_list_is_none() {
    let mut h = PageListHead::new(16);
    assert_eq!(h.take_slot(), None);
    assert_eq!(h.page_count(), 0);
}

#[test]
fn take_slot_hands_out_consecutive_blocks() {
    let mut h = PageListHead::new(16);
    h.reserve_page(BASE);
    let data = BASE + PAGE_HEADER_SIZE;
    assert_eq!(h.take_slot(), Some(data));
    assert_eq!(h.take_slot(), Some(data + 16));
    assert_eq!(h.take_slot(), Some(data + 32));
    assert_eq!(h.page(0).free_list, [0b111, 0, 0, 0]);
}

#[test]
fn take_slot_second_word_class_16() {
    let mut h = PageListHead::new(16);
    h.reserve_page(BASE);
    for _ in 0..64 {
        h.take_slot();
    }
    assert_eq!(h.take_slot(), Some(BASE + PAGE_HEADER_SIZE + 1024));
    assert_eq!(h.page(0).free_list, [u64::MAX, 1, 0, 0]);
}

#[test]
fn take_slot_fills_page_then_none() {
    let mut h = PageListHead::new(128);
    h.reserve_page(BASE);
    for k in 0..32usize {
        assert_eq!(h.take_slot(), Some(BASE + PAGE_HEADER_SIZE + k * 128));
    }
    assert_eq!(h.take_slot(), None);
    h.reserve_page(OTHER);
    assert_eq!(h.take_slot(), Some(OTHER + PAGE_HEADER_SIZE));
}

#[test]
fn release_slot_undoes_take_slot() {
    for sc in [16usize, 32, 64, 128] {
        let mut h = PageListHead::new(sc);
        h.reserve_page(BASE);
        h.reserve_page(OTHER);
        let a = h.take_slot().unwrap();
        let b = h.take_slot().unwrap();
        assert!(h.release_slot(a));
        assert_eq!(h.page(0).free_list, [0b10, 0, 0, 0]);
        assert!(h.release_slot(b));
        assert_eq!(h.page(0).free_list, [0, 0, 0, 0]);
    }
}

#[test]
fn class_32_second_word_blocks_follow_first_word() {
    let mut h = PageListHead::new(32);
    h.reserve_page(BASE);
    let mut seen: Vec<usize> = Vec::new();
    for _ in 0..64 {
        seen.push(h.take_slot().unwrap());
    }
    let a = h.take_slot().unwrap();
    assert_eq!(a, BASE + PAGE_HEADER_SIZE + 64 * 32);
    assert!(!seen.contains(&a));
    assert!(h.release_slot(a));
    assert_eq!(h.page(0).free_list, [u64::MAX, 0, 0, 0]);
}

#[test]
fn class_32_freed_first_word_block_not_repeated() {
    // With the first word full but for bit 32, two requests in a row get
    // different blocks.
    let mut h = PageListHead::new(32);
    h.reserve_page(BASE);
    for _ in 0..65 {
        h.take_slot();
    }
    assert!(h.release_slot(BASE + PAGE_HEADER_SIZE + 32 * 32));
    let a = h.take_slot().unwrap();
    let b = h.take_slot().unwrap();
    assert_eq!(a, BASE + PAGE_HEADER_SIZE + 32 * 32);
    assert_eq!(b, BASE + PAGE_HEADER_SIZE + 65 * 32);
    assert_ne!(a, b);
}

#[test]
fn release_slot_refuses_unknown_address() {
    let mut h = PageListHead::new(16);
    h.reserve_page(BASE);
    assert!(!h.release_slot(OTHER));
    assert!(!h.release_slot(BASE));
    assert_eq!(h.page(0).free_list, [0; 4]);
}

#[test]
fn release_slot_refuses_past_free_list() {
    // The end of the data belongs to the page, but its slot lies past the
    // four words of the free list.
    let mut h = PageListHead::new(16);
    h.reserve_page(BASE);
    assert!(!h.release_slot(BASE + PAGE_HEADER_SIZE + PAGE_DATA_SIZE));
}

#[test]
fn release_slot_refuses_free_block_below_mask() {
    let mut h = PageListHead::new(16);
    h.reserve_page(BASE);
    h.take_slot();
    // word 0 is 1, smaller than the mask of slot 1
    assert!(!h.release_slot(BASE + PAGE_HEADER_SIZE + 16));
    assert_eq!(h.page(0).free_list, [1, 0, 0, 0]);
}

#[test]
fn release_slot_size_class_zero_refused() {
    let mut h = PageListHead::new(0);
    h.reserve_page(BASE);
    assert!(!h.release_slot(BASE + PAGE_HEADER_SIZE));
}

#[test]
fn remove_large_takes_page_out() {
    let mut h = PageListHead::new(2049);
    h.reserve_large_page(BASE, 3000);
    h.reserve_large_page(OTHER, 4000);
    assert_eq!(h.remove_large(OTHER + PAGE_HEADER_SIZE), Some(OTHER));
    assert_eq!(h.page_count(), 1);
    assert_eq!(h.page(0).addr, BASE);
    assert_eq!(h.remove_large(OTHER + PAGE_HEADER_SIZE), None);
    assert_eq!(h.remove_large(BASE + PAGE_HEADER_SIZE), Some(BASE));
    assert_eq!(h.page_count(), 0);
}

#[test]
fn take_slot_never_repeats_an_address() {
    for sc in [16usize, 32, 64, 128] {
        let mut h = PageListHead::new(sc);
        h.reserve_page(BASE);
        h.reserve_page(OTHER);
        let mut seen: Vec<usize> = Vec::new();
        while let Some(a) = h.take_slot() {
            assert!(!seen.contains(&a));
            assert!(a >= BASE + PAGE_HEADER_SIZE);
            seen.push(a);
        }
        assert_eq!(seen.len(), 2 * (PAGE_DATA_SIZE / sc));
    }
}
