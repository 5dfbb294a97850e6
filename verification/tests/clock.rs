use downtime::clock::{clock_reading, now_us};
use std::time::{SystemTime, UNIX_EPOCH};

#[test]
fn a_reading_is_the_low_half_of_the_count() {
    assert_eq!(clock_reading(None), None);
    assert_eq!(clock_reading(Some(0)), Some(0));
    assert_eq!(clock_reading(Some(1_777_152_621_000_000)), Some(1_777_152_621_000_000));
    assert_eq!(clock_reading(Some(u64::MAX as u128)), Some(u64::MAX));
    assert_eq!(clock_reading(Some(u64::MAX as u128 + 6)), Some(5));
}

#[test]
fn the_clock_tells_the_time() {
    let micros = || SystemTime::now().duration_since(UNIX_EPOCH).unwrap().as_micros() as u64;
    let before = micros();
    let now = now_us().unwrap();
    let after = micros();
    assert!(before <= now && now <= after);
}
