use simple_allocator2::{Count, Report, MSG_CAPACITY};

#[test]
fn new_count_is_off_and_empty() {
    let c = Count::new();
    assert!(!c.get_flag());
    assert_eq!(c.msg_count(), 0);
    assert_eq!(c.msg(0), (0, 0));
    assert_eq!(c.msg(MSG_CAPACITY - 1), (0, 0));
}

#[test]
fn init_switches_on() {
    let mut c = Count::new();
    c.init();
    assert!(c.get_flag());
    c.set_flag(false);
    assert!(!c.get_flag());
}

#[test]
fn record_msg_keeps_order() {
    let mut c = Count::new();
    c.record_msg(16, 1);
    c.record_msg(3000, 2);
    assert_eq!(c.msg_count(), 2);
    assert_eq!(c.msg(0), (1, 16));
    assert_eq!(c.msg(1), (2, 3000));
    assert_eq!(c.msg(2), (0, 0));
}

#[test]
fn record_msg_drops_entries_once_full() {
    let mut c = Count::new();
    for k in 0..MSG_CAPACITY {
        c.record_msg(k, 1);
    }
    assert_eq!(c.msg_count(), MSG_CAPACITY);
    c.record_msg(7, 2);
    assert_eq!(c.msg_count(), MSG_CAPACITY);
    assert_eq!(c.msg(MSG_CAPACITY - 1), (1, MSG_CAPACITY - 1));
    assert_eq!(c.msg(0), (1, 0));
}

#[test]
fn finish_reports_and_empties_record() {
    let mut c = Count::new();
    c.init();
    c.set_temp(42);
    c.record_msg(10, 1);
    let r = c.finish();
    assert_eq!(
        r,
        Report { allocated: 0, deallocated: 0, remaining: 0, peak: 0, temp: 42 }
    );
    assert!(!c.get_flag());
    assert_eq!(c.msg_count(), 0);
    assert_eq!(c.msg(0), (1, 10));
}
