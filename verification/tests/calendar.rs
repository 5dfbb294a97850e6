use downtime::calendar::days_since_epoch;

#[test]
fn days_are_counted_from_the_epoch() {
    assert_eq!(days_since_epoch(1970, 1, 1), 0);
    assert_eq!(days_since_epoch(1969, 12, 31), -1);
    assert_eq!(days_since_epoch(2000, 2, 29), 11016);
    assert_eq!(days_since_epoch(2026, 4, 25), 20568);
    assert_eq!(days_since_epoch(1600, 1, 1), -135140);
    assert_eq!(days_since_epoch(9999, 12, 31), 2932896);
    assert_eq!(days_since_epoch(1, 1, 1), -719162);
    assert_eq!(days_since_epoch(1900, 3, 1), -25508);
}

#[test]
fn a_century_is_a_leap_year_every_fourth_time() {
    assert_eq!(days_since_epoch(1900, 3, 1) - days_since_epoch(1900, 2, 28), 1);
    assert_eq!(days_since_epoch(2000, 3, 1) - days_since_epoch(2000, 2, 28), 2);
    assert_eq!(days_since_epoch(2024, 3, 1) - days_since_epoch(2024, 2, 28), 2);
    assert_eq!(days_since_epoch(2023, 3, 1) - days_since_epoch(2023, 2, 28), 1);
}

#[test]
fn the_days_of_a_year_follow_one_another() {
    let lengths = [31, 29, 31, 30, 31, 30, 31, 31, 30, 31, 30, 31];
    let mut day = days_since_epoch(2024, 1, 1);
    for (i, length) in lengths.iter().enumerate() {
        for d in 1..=*length {
            assert_eq!(days_since_epoch(2024, i as i64 + 1, d), day);
            day += 1;
        }
    }
    assert_eq!(days_since_epoch(2025, 1, 1), day);
}

#[test]
fn days_beyond_the_month_count_on() {
    assert_eq!(days_since_epoch(2026, 4, 31), days_since_epoch(2026, 5, 1));
    assert_eq!(days_since_epoch(2026, 4, 0), days_since_epoch(2026, 3, 31));
    assert_eq!(days_since_epoch(-1, 3, 1), days_since_epoch(-1, 2, 28) + 1);
}
