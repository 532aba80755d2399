use sigil_chat::trace::VideoTrace;

#[test]
fn a_trace_that_is_off_notes_nothing() {
    let mut t = VideoTrace::new(false);
    assert_eq!(t.repaint(10_000), None);
    t.landed(1, 1, 10);
    assert_eq!(t.reported_ms(), 0);
}

#[test]
fn every_five_seconds_the_repaints_are_reported() {
    let mut t = VideoTrace::new(true);
    for w in [0u64, 16, 33, 50, 100] {
        assert_eq!(t.repaint(w), None);
    }
    t.landed(0, 0, 0);
    t.landed(40, 33, 33);
    t.landed(120, 100, 100);
    let s = t.repaint(5_000).expect("five seconds on");
    assert_eq!(s.repaints, 6);
    assert_eq!(s.gap_median, 17);
    assert_eq!(s.gap_max, 4_900);
    assert_eq!(s.gap_p90, 4_900);
    assert_eq!(s.pictures, 3);
    assert_eq!(s.skipped, 1, "33 to 100 is more than 40 ms of picture");
    assert_eq!(s.late_median, 7);
    assert_eq!(s.late_max, 20);
    assert_eq!(s.between_min, 33);
    assert_eq!(s.between_max, 67);
    assert_eq!(t.reported_ms(), 5_000);
    assert_eq!(t.repaint(6_000), None, "noting starts again");
}

#[test]
fn a_single_repaint_is_not_a_report() {
    let mut t = VideoTrace::new(true);
    assert_eq!(t.repaint(6_000), None);
    assert_eq!(t.reported_ms(), 6_000);
    assert!(t.has_room());
}
