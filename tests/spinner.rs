use netmon::spinner::{frame, ActivityMonitor};

#[test]
fn spinner_advances_only_after_the_frame_time() {
    let mut a = ActivityMonitor::new(0);
    assert_eq!(a.tick(80), "\u{280b}");
    assert_eq!(a.tick(81), "\u{2819}");
    assert_eq!(a.tick(150), "\u{2819}");
    assert_eq!(a.tick(162), "\u{2839}");
}

#[test]
fn spinner_wraps_after_the_last_frame() {
    let mut a = ActivityMonitor::new(0);
    let mut t = 0;
    for _ in 0..10 {
        t += 100;
        a.tick(t);
    }
    assert_eq!(a.tick(t), frame(0));
    assert_eq!(frame(9), "\u{280f}");
}
