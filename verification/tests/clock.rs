use wavesyncdb::clock::Hlc;

#[test]
fn advancing_wall_clock_resets_counter() {
    let mut c = Hlc::new();
    assert_eq!(c.next_timestamp(100), (100, 0));
    assert_eq!(c.next_timestamp(200), (200, 0));
}

#[test]
fn stalled_wall_clock_bumps_counter() {
    let mut c = Hlc::new();
    assert_eq!(c.next_timestamp(100), (100, 0));
    assert_eq!(c.next_timestamp(100), (100, 1));
    assert_eq!(c.next_timestamp(100), (100, 2));
}

#[test]
fn regressing_wall_clock_stays_monotonic() {
    let mut c = Hlc::new();
    let reads: [u64; 6] = [100, 90, 95, 100, 50, 101];
    let mut last = c.next_timestamp(reads[0]);
    let mut i = 1;
    while i < reads.len() {
        let next = c.next_timestamp(reads[i]);
        assert!(next.0 > last.0 || (next.0 == last.0 && next.1 > last.1));
        last = next;
        i += 1;
    }
}

#[test]
fn observe_moves_past_remote() {
    let mut c = Hlc::new();
    c.next_timestamp(100);
    let merged = c.observe(100, 500, 3);
    assert_eq!(merged, (500, 4));
    let next = c.next_timestamp(100);
    assert!(next.0 > 500 || (next.0 == 500 && next.1 > 4));
}

#[test]
fn observe_with_equal_times_continues_counter() {
    let mut c = Hlc::new();
    c.next_timestamp(100);
    let merged = c.observe(100, 100, 7);
    assert_eq!(merged, (100, 8));
}
