use comet::closer::{DeferredCloser, CLOSE_TIMEOUT_MS};

#[test]
fn not_closed_before_timeout() {
    let mut c = DeferredCloser::new();
    c.schedule_close(7, 5000);
    assert!(c.sweep(5000 + CLOSE_TIMEOUT_MS - 1).is_empty());
    assert_eq!(c.len(), 1);
    assert_eq!(c.sweep(5000 + CLOSE_TIMEOUT_MS), vec![7]);
    assert_eq!(c.len(), 0);
}

#[test]
fn closed_once_when_scheduled_twice() {
    let mut c = DeferredCloser::new();
    c.schedule_close(7, 5000);
    c.schedule_close(7, 5100);
    assert_eq!(c.sweep(7000), vec![7]);
    assert!(c.sweep(9000).is_empty());
}

#[test]
fn clock_going_back_keeps_order() {
    let mut c = DeferredCloser::new();
    c.schedule_close(1, 5000);
    c.schedule_close(2, 4000);
    assert!(c.sweep(5999).is_empty());
    assert_eq!(c.sweep(6000), vec![1, 2]);
}

#[test]
fn batches_in_enqueue_order_and_stops_at_first_not_due() {
    let mut c = DeferredCloser::new();
    c.schedule_close(1, 100);
    c.schedule_close(2, 200);
    c.schedule_close(3, 900);
    assert_eq!(c.sweep(1250), vec![1, 2]);
    assert_eq!(c.len(), 1);
    assert_eq!(c.sweep(1900), vec![3]);
}
