use message_brocker::clock::{MonotonicClock, unix_millis, unix_time_ms};
use message_brocker::ids::{new_id, new_ids};

#[test]
fn ids_are_hyphenated_lower_case_uuids() {
    let id = new_id();
    assert_eq!(id.len(), 36);
    for (i, c) in id.chars().enumerate() {
        if i == 8 || i == 13 || i == 18 || i == 23 {
            assert_eq!(c, '-');
        } else {
            assert!(c.is_ascii_hexdigit() && !c.is_ascii_uppercase());
        }
    }
    let chars: Vec<char> = id.chars().collect();
    assert_eq!(chars[14], '4');
    assert!(matches!(chars[19], '8' | '9' | 'a' | 'b'));
    let ids = new_ids(3);
    assert_eq!(ids.len(), 3);
    assert_ne!(ids[0], ids[1]);
}

#[test]
fn unix_time_is_after_2020() {
    assert!(unix_time_ms() > 1_577_836_800_000);
    assert_eq!(unix_millis(None), 0);
    assert_eq!(unix_millis(Some(1_700_000_000_123)), 1_700_000_000_123);
    assert_eq!(unix_millis(Some(u128::from(u64::MAX) + 2)), 1);
}

#[test]
fn monotonic_clock_does_not_go_back() {
    let clock = MonotonicClock::new();
    let a = clock.now_ns();
    let b = clock.now_ns();
    assert!(b >= a);
}
