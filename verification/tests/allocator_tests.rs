use simple_allocator2::page_list::PAGE_HEADER_SIZE;
use simple_allocator2::{AllocStep, DeallocStep, ReallocStep, Report, SimpleAllocator, ZeroedStep};

const BASE: usize = 0x10_0000;
const LARGE: usize = 0x40_0000;

fn started() -> SimpleAllocator {
    let mut a = SimpleAllocator::new();
    a.init();
    a
}

#[test]
fn new_allocator_is_off() {
    let mut a = SimpleAllocator::new();
    assert!(!a.get_flag());
    assert_eq!(a.alloc_step(16), AllocStep::UseDefault);
    assert_eq!(a.dealloc_step(BASE, 16), DeallocStep::UseDefault);
    assert_eq!(a.realloc_step(16, 4000), ReallocStep::UseDefault);
    assert_eq!(a.alloc_zeroed_step(16), ZeroedStep::UseDefault);
    for i in 0..5 {
        assert_eq!(a.page_list(i).page_count(), 0);
    }
    assert_eq!(a.page_list(0).get_sizeclass(), 16);
    assert_eq!(a.page_list(4).get_sizeclass(), 2049);
}

#[test]
fn small_request_needs_page_then_is_placed() {
    let mut a = started();
    assert_eq!(a.alloc_step(10), AllocStep::NeedPage(0));
    a.add_page(0, BASE);
    assert_eq!(a.alloc_step(10), AllocStep::Placed(BASE + PAGE_HEADER_SIZE));
    assert_eq!(a.alloc_step(16), AllocStep::Placed(BASE + PAGE_HEADER_SIZE + 16));
    assert_eq!(a.count().msg_count(), 2);
    assert_eq!(a.count().msg(0), (1, 10));
    assert_eq!(a.count().msg(1), (1, 16));
}

#[test]
fn classes_map_to_lists() {
    let mut a = started();
    assert_eq!(a.alloc_step(20), AllocStep::NeedPage(1));
    assert_eq!(a.alloc_step(64), AllocStep::NeedPage(2));
    assert_eq!(a.alloc_step(100), AllocStep::NeedPage(3));
}

#[test]
fn sizes_without_a_list() {
    let mut a = started();
    assert_eq!(a.alloc_step(200), AllocStep::NeedLargePage);
    assert_eq!(a.alloc_step(3000), AllocStep::NeedLargePage);
    assert_eq!(a.alloc_step(300), AllocStep::Refused);
    assert_eq!(a.alloc_step(2048), AllocStep::Refused);
    assert_eq!(a.dealloc_step(BASE, 300), DeallocStep::Refused);
}

#[test]
fn dealloc_gives_back_block() {
    let mut a = started();
    a.add_page(2, BASE);
    let addr = match a.alloc_step(50) {
        AllocStep::Placed(addr) => addr,
        other => panic!("{:?}", other),
    };
    assert_eq!(a.page_list(2).page(0).free_list, [1, 0, 0, 0]);
    assert_eq!(a.dealloc_step(addr, 50), DeallocStep::Released);
    assert_eq!(a.page_list(2).page(0).free_list, [0, 0, 0, 0]);
    assert_eq!(a.count().msg(1), (2, 50));
    let r = a.finish();
    assert_eq!(r, Report { allocated: 50, deallocated: 50, remaining: 0, peak: 50, temp: 0 });
}

#[test]
fn dealloc_of_unknown_block_refused() {
    let mut a = started();
    a.add_page(0, BASE);
    assert_eq!(a.dealloc_step(LARGE, 16), DeallocStep::Refused);
    assert_eq!(a.count().msg_count(), 0);
}

#[test]
fn large_request_round_trip() {
    let mut a = started();
    assert_eq!(a.alloc_step(5000), AllocStep::NeedLargePage);
    assert_eq!(a.place_large(LARGE, 5000), Some(LARGE + PAGE_HEADER_SIZE));
    assert_eq!(a.page_list(4).page_count(), 1);
    assert_eq!(a.page_list(4).page(0).size_class, 5000);
    assert_eq!(a.dealloc_step(LARGE + PAGE_HEADER_SIZE, 5000), DeallocStep::FreeLargePage(LARGE));
    assert_eq!(a.page_list(4).page_count(), 0);
    assert_eq!(a.dealloc_step(LARGE + PAGE_HEADER_SIZE, 5000), DeallocStep::Refused);
}

#[test]
fn peak_tracks_highest_use() {
    let mut a = started();
    a.update_alloc(100);
    a.update_alloc(50);
    a.update_dealloc(120);
    a.update_alloc(10);
    let r = a.finish();
    assert_eq!(r.allocated, 160);
    assert_eq!(r.deallocated, 120);
    assert_eq!(r.remaining, 40);
    assert_eq!(r.peak, 150);
    assert!(!a.get_flag());
}

#[test]
fn remaining_can_be_negative() {
    let mut a = started();
    a.update_dealloc(30);
    a.update_alloc(10);
    let r = a.finish();
    assert_eq!(r.remaining, -20);
    assert_eq!(r.peak, 0);
}

#[test]
fn can_update_alloc_checks_overflow() {
    let mut a = started();
    assert!(a.can_update_alloc(100));
    a.update_alloc(100);
    assert!(!a.can_update_alloc(usize::MAX));
    assert_eq!(a.alloc_step(usize::MAX), AllocStep::NeedLargePage);
    assert_eq!(a.alloc_zeroed_step(usize::MAX), ZeroedStep::Refused);
}

#[test]
fn realloc_keeps_when_new_size_fits_block() {
    let a = started();
    assert_eq!(a.realloc_step(10, 16), ReallocStep::Keep);
    assert_eq!(a.realloc_step(10, 17), ReallocStep::Move);
    assert_eq!(a.realloc_step(100, 10), ReallocStep::Move);
    assert_eq!(a.realloc_step(100, 70), ReallocStep::Keep);
    assert_eq!(a.realloc_step(100, 128), ReallocStep::Keep);
    assert_eq!(a.realloc_step(128, 129), ReallocStep::Move);
}

#[test]
fn realloc_large_page_keeps_only_when_not_growing() {
    let a = started();
    assert_eq!(a.realloc_step(3000, 5000), ReallocStep::Move);
    assert_eq!(a.realloc_step(200, 250), ReallocStep::Move);
    assert_eq!(a.realloc_step(5000, 3000), ReallocStep::Keep);
    assert_eq!(a.realloc_step(3000, 3000), ReallocStep::Keep);
    assert_eq!(a.realloc_step(3000, 16), ReallocStep::Move);
    assert_eq!(a.realloc_step(3000, 200), ReallocStep::Keep);
}

#[test]
fn large_page_round_trip_keeps_order() {
    let mut a = started();
    assert_eq!(a.place_large(LARGE, 3000), Some(LARGE + PAGE_HEADER_SIZE));
    assert_eq!(a.place_large(BASE, 4000), Some(BASE + PAGE_HEADER_SIZE));
    assert_eq!(a.place_large(0x80_0000, 5000), Some(0x80_0000 + PAGE_HEADER_SIZE));
    assert_eq!(a.dealloc_step(BASE + PAGE_HEADER_SIZE, 4000), DeallocStep::FreeLargePage(BASE));
    assert_eq!(a.page_list(4).page_count(), 2);
    assert_eq!(a.page_list(4).page(0).addr, LARGE);
    assert_eq!(a.page_list(4).page(1).addr, 0x80_0000);
}

#[test]
fn peak_stays_above_use_over_updates() {
    let mut a = started();
    a.update_alloc(40);
    a.update_dealloc(30);
    a.update_alloc(10);
    a.update_dealloc(20);
    a.update_alloc(5);
    let r = a.finish();
    assert_eq!(r.peak, 40);
    assert!(r.peak as i64 >= r.remaining);
}

#[test]
fn alloc_zeroed_counts_request() {
    let mut a = started();
    assert_eq!(a.alloc_zeroed_step(64), ZeroedStep::Counted);
    assert_eq!(a.count().msg(0), (1, 64));
    assert_eq!(a.finish().allocated, 64);
}

#[test]
fn record_msg_through_allocator() {
    let mut a = started();
    a.record_msg(8, 2);
    assert_eq!(a.count().msg(0), (2, 8));
}

#[test]
fn place_large_refused_on_overflow() {
    let mut a = started();
    a.update_alloc(usize::MAX - 10);
    assert_eq!(a.place_large(LARGE, 100), None);
    assert_eq!(a.page_list(4).page_count(), 0);
}

#[test]
fn dealloc_refused_on_overflow() {
    let mut a = started();
    a.add_page(0, BASE);
    let addr = match a.alloc_step(8) {
        AllocStep::Placed(addr) => addr,
        other => panic!("{:?}", other),
    };
    a.update_dealloc(usize::MAX - 4);
    assert!(!a.can_update_dealloc(8));
    assert_eq!(a.dealloc_step(addr, 8), DeallocStep::Refused);
    assert_eq!(a.page_list(0).page(0).free_list, [1, 0, 0, 0]);
}

#[test]
fn breakpoint_style_flag_toggle() {
    let mut a = started();
    a.set_flag(false);
    assert_eq!(a.alloc_step(8), AllocStep::UseDefault);
    a.set_flag(true);
    assert_eq!(a.alloc_step(8), AllocStep::NeedPage(0));
}

#[test]
fn place_is_free_sees_every_list() {
    let mut a = started();
    assert!(a.place_is_free(BASE, PAGE_HEADER_SIZE + 4096));
    a.add_page(0, BASE);
    assert!(!a.place_is_free(BASE, 1));
    assert!(!a.place_is_free(BASE + PAGE_HEADER_SIZE + 4095, 10));
    assert!(a.place_is_free(BASE + PAGE_HEADER_SIZE + 4096, 10));
    assert!(a.place_is_free(BASE - 10, 10));
    assert!(!a.place_is_free(BASE - 10, 11));
    a.place_large(LARGE, 5000);
    assert!(!a.place_is_free(LARGE + 5000, 48));
    assert!(a.place_is_free(LARGE + 5048, 48));
}

#[test]
fn realloc_kept_block_is_given_back_with_new_size() {
    let mut a = started();
    a.add_page(3, BASE);
    let addr = match a.alloc_step(100) {
        AllocStep::Placed(addr) => addr,
        other => panic!("{:?}", other),
    };
    assert_eq!(a.realloc_step(100, 70), ReallocStep::Keep);
    assert_eq!(a.dealloc_step(addr, 70), DeallocStep::Released);
    assert_eq!(a.page_list(3).page(0).free_list, [0, 0, 0, 0]);
}

#[test]
fn live_blocks_of_mixed_classes_do_not_overlap() {
    let mut a = started();
    a.add_page(0, BASE);
    a.add_page(1, BASE + 0x2000);
    let mut live: Vec<(usize, usize)> = Vec::new();
    for (k, size) in [8usize, 20, 16, 32, 1, 30].iter().enumerate() {
        let addr = match a.alloc_step(*size) {
            AllocStep::Placed(addr) => addr,
            other => panic!("{:?}", other),
        };
        let len = if *size <= 16 { 16 } else { 32 };
        for &(b, l) in live.iter() {
            assert!(addr + len <= b || b + l <= addr);
        }
        live.push((addr, len));
        if k == 2 {
            let (b, _) = live.remove(0);
            assert_eq!(a.dealloc_step(b, 8), DeallocStep::Released);
        }
    }
}
