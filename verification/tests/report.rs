use downtime::downtime::{Downtime, Finding};
use downtime::report::{fmt_pretty, report, words_due, Share};

#[test]
fn a_duration_is_worded_in_units() {
    assert_eq!(fmt_pretty(0), "0s");
    assert_eq!(fmt_pretty(59), "59s");
    assert_eq!(fmt_pretty(60), "1m");
    assert_eq!(fmt_pretty(3600), "1h");
    assert_eq!(fmt_pretty(86400), "1d");
    assert_eq!(fmt_pretty(90061), "1d 1h 1m 1s");
    assert_eq!(fmt_pretty(86400 + 1), "1d 1s");
    assert_eq!(fmt_pretty(2 * 3600 + 5), "2h 5s");
    assert_eq!(fmt_pretty(10 * 86400 + 23 * 3600 + 59 * 60), "10d 23h 59m");
    assert_eq!(fmt_pretty(u64::MAX), "213503982334601d 7h 15s");
}

#[test]
fn a_worded_duration_tells_the_seconds() {
    for secs in [0u64, 1, 61, 3599, 3600, 86399, 86400, 100000, 987654321] {
        let mut sum = 0u64;
        for part in fmt_pretty(secs).split(' ') {
            let (number, unit) = part.split_at(part.len() - 1);
            let scale = match unit {
                "d" => 86400,
                "h" => 3600,
                "m" => 60,
                "s" => 1,
                _ => panic!("{part}"),
            };
            sum += number.parse::<u64>().unwrap() * scale;
        }
        assert_eq!(sum, secs);
    }
}

fn downtime(clipped: Vec<(u64, u64)>, truncated: bool) -> Finding {
    let total_us = clipped.iter().map(|w| w.1 - w.0).sum();
    Finding::Past(Downtime { clipped, total_us, truncated, window_us: 1, oldest_known: 0 })
}

fn share(at_most_half_percent: bool) -> Share {
    Share { at_most_half_percent, percent: "12.3".to_string() }
}

#[test]
fn the_short_report_is_a_number_of_seconds() {
    let finding = downtime(vec![(0, 61_999_999)], true);
    assert_eq!(report(&finding, false, &share(true), "then"), "61\n");
    assert_eq!(report(&downtime(vec![], false), false, &share(true), ""), "0\n");
}

#[test]
fn the_long_report_tells_the_share_and_the_windows() {
    let finding = downtime(vec![(0, 61_000_000)], false);
    assert_eq!(
        report(&finding, true, &share(false), "then"),
        "downtime: 1m 1s (over 12.3%)\nacross 1 window.\n"
    );
    let finding = downtime(vec![(0, 1), (5_000_000, 8_000_000)], false);
    assert_eq!(
        report(&finding, true, &share(true), "then"),
        "downtime: 3s (more reliable than github)\nacross 2 windows.\n"
    );
}

#[test]
fn the_long_report_tells_how_far_back_it_knows() {
    let finding = downtime(vec![(0, 60_000_000)], true);
    assert_eq!(
        report(&finding, true, &share(false), "2026-04-25"),
        "downtime: 1m (over 12.3%)\nacross 1 window.\n\
         (only known back to 2026-04-25; older downtime is invisible to us.)\n"
    );
    assert_eq!(
        report(&downtime(vec![], true), true, &share(true), "then"),
        "no recorded downtime since the requested time. show-off.\n\
         (only known back to then; older downtime is invisible to us.)\n"
    );
    assert_eq!(
        report(&downtime(vec![], false), true, &share(true), "then"),
        "no recorded downtime since the requested time. show-off.\n"
    );
}

#[test]
fn the_report_on_the_future_declines() {
    let text = "you're asking about downtime in the future. it's not down then either.\n\
                (probably. don't quote me on that.)\n";
    assert_eq!(report(&Finding::Future, true, &share(true), ""), text);
    assert_eq!(report(&Finding::Future, false, &share(true), ""), text);
}

#[test]
fn the_oldest_instant_is_worded_only_for_a_long_report_that_needs_it() {
    let past = |truncated: bool| {
        Finding::Past(Downtime {
            clipped: vec![],
            total_us: 0,
            truncated,
            window_us: 0,
            oldest_known: 7_999_999,
        })
    };
    assert_eq!(words_due(&past(true), true), Some(7));
    assert_eq!(words_due(&past(true), false), None);
    assert_eq!(words_due(&past(false), true), None);
    assert_eq!(words_due(&Finding::Future, true), None);
}
