use rand_bot::throttle::StatusThrottle;

#[test]
fn reports_at_most_once_per_second() {
    let mut t = StatusThrottle::new(100);
    let mut reported = vec![];
    for now in [100, 100, 100, 101, 101, 101, 101, 103, 103, 104] {
        if t.tick(now) {
            reported.push(now);
        }
    }
    assert_eq!(reported, vec![101, 103, 104]);
}

#[test]
fn clock_going_back_does_not_report() {
    let mut t = StatusThrottle::new(50);
    assert!(!t.tick(49));
    assert!(!t.tick(50));
    assert!(t.tick(51));
    assert!(!t.tick(51));
}
