use downtime::command::CommandOutcome;
use downtime::pmset::{
    macos_pmset_windows, parse_pmset_log, parse_pmset_ts, pmset_command, pmset_log_divides,
};

#[test]
fn a_stamp_is_read_in_microseconds() {
    assert_eq!(parse_pmset_ts("2026-04-25 14:30:21 -0700"), Some(1_777_152_621_000_000));
    assert_eq!(parse_pmset_ts("2024-02-29 23:59:59 +0530"), Some(1_709_231_399_000_000));
    assert_eq!(parse_pmset_ts("2000-03-01 00:00:00 +0000"), Some(951_868_800_000_000));
    assert_eq!(parse_pmset_ts("1970-01-01 00:00:00 +0000"), Some(0));
}

#[test]
fn a_stamp_before_the_epoch_is_none() {
    assert_eq!(parse_pmset_ts("1970-01-01 00:00:00 +0001"), None);
    assert_eq!(parse_pmset_ts("1969-12-31 23:59:59 +0000"), None);
    assert_eq!(parse_pmset_ts("1969-12-31 23:59:59 -0001"), Some(59_000_000));
}

#[test]
fn anything_but_a_stamp_is_none() {
    for text in [
        "",
        "2026-04-25 14:30:21 -070",
        "2026-04-25 14:30:21 -07000",
        "2026/04-25 14:30:21 -0700",
        "2026-04/25 14:30:21 -0700",
        "2026-04-25T14:30:21 -0700",
        "2026-04-25 14.30:21 -0700",
        "2026-04-25 14:30.21 -0700",
        "2026-04-25 14:30:21_-0700",
        "2026-04-25 14:30:21 Z0700",
        "x026-04-25 14:30:21 -0700",
        "2026-x4-25 14:30:21 -0700",
        "2026-04-x5 14:30:21 -0700",
        "2026-04-25 x4:30:21 -0700",
        "2026-04-25 14:x0:21 -0700",
        "2026-04-25 14:30:x1 -0700",
        "2026-04-25 14:30:21 -x700",
        "2026-04-25 14:30:21 -07x0",
        "2026-04-25 14:30:21 -é00",
    ] {
        assert_eq!(parse_pmset_ts(text), None, "{text:?}");
    }
}

#[test]
fn columns_take_signs() {
    assert_eq!(
        parse_pmset_ts("2026-+4-25 14:30:21 -0700"),
        parse_pmset_ts("2026-04-25 14:30:21 -0700")
    );
    assert_eq!(
        parse_pmset_ts("2026-04-25 14:30:-9 +0000").unwrap() + 9_000_000,
        parse_pmset_ts("2026-04-25 14:30:00 +0000").unwrap()
    );
}

const LOG: &str = "\
some heading that is longer than a stamp would be
2026-04-25 08:00:00 +0000 Assertions          \tPID 1
2026-04-25 08:30:00 +0000 Sleep               \tEntering Sleep
2026-04-25 09:00:00 +0000 Sleep               \tEntering Sleep again
2026-04-25 09:10:00 +0000 Wake                \tWake from Normal Sleep
2026-04-25 09:10:00 +0000 Wake                \tWake again
2026-04-25 10:00:00 +0000 Sleep               \tstill asleep
";

#[test]
fn a_log_gives_sleep_windows_and_its_oldest_entry() {
    assert_eq!(
        parse_pmset_log(LOG),
        Ok((vec![(1_777_105_800_000_000, 1_777_108_200_000_000)], 1_777_104_000_000_000))
    );
}

#[test]
fn a_wake_that_is_not_later_closes_without_a_window() {
    let log = "2026-04-25 09:00:00 +0000 Sleep\n\
               2026-04-25 09:00:00 +0000 Wake\n\
               2026-04-25 09:10:00 +0000 Wake\n\
               2026-04-25 10:00:00 +0000 Sleeping\n\
               2026-04-25 10:30:00 +0000 Wake\n";
    assert_eq!(parse_pmset_log(log), Ok((vec![], 1_777_107_600_000_000)));
}

#[test]
fn the_event_is_the_first_word_behind_the_stamp() {
    let log = "2026-04-25 08:00:00 +0000Sleep\r\n\
               2026-04-25 08:30:00 +0000 \t Wake now\r\n\
               2026-04-25 09:00:00 +0000\r\n";
    assert_eq!(
        parse_pmset_log(log),
        Ok((vec![(1_777_104_000_000_000, 1_777_105_800_000_000)], 1_777_104_000_000_000))
    );
}

#[test]
fn a_log_without_stamps_is_an_error() {
    let e = Err("pmset log had no parseable entries".to_string());
    assert_eq!(parse_pmset_log(""), e);
    assert_eq!(parse_pmset_log("nothing to see here, in a line that is long enough\n"), e);
}

#[test]
fn sleep_windows_of_a_forward_log_do_not_overlap() {
    let log = "2026-04-25 08:00:00 +0000 Sleep\n\
               2026-04-25 08:30:00 +0000 Wake\n\
               2026-04-25 08:30:00 +0000 Sleep\n\
               2026-04-25 09:00:00 +0000 Wake\n";
    let (windows, oldest) = parse_pmset_log(log).unwrap();
    assert_eq!(windows.len(), 2);
    assert!(windows.iter().all(|w| w.0 < w.1));
    assert!(windows[0].1 <= windows[1].0);
    assert!(oldest <= windows[0].0);
}

#[test]
fn a_log_divides_unless_a_character_straddles_a_column() {
    assert!(pmset_log_divides(LOG));
    assert!(pmset_log_divides(""));
    assert!(pmset_log_divides("short ☃\n"));
    // The snowman takes bytes 24 to 26.
    assert!(!pmset_log_divides("aaaaaaaaaaaaaaaaaaaaaaaa☃ and more\n"));
    assert!(pmset_log_divides("aaaaaaaaaaaaaaaaaaaaaaaaa☃ and more\n"));
    // Here a character straddles byte 23, where the zone's minutes begin.
    assert!(!pmset_log_divides("2026-04-25 14:30:21 -0é0 Sleep\n"));
    assert!(pmset_log_divides("2026-04-25 14:30:21 x0é0 Sleep\n"));
}

#[test]
fn a_line_with_wide_characters_before_the_column_has_no_stamp() {
    let log = "☃026-04-25 08:00:00 +0000 Sleep\n2026-04-25 08:30:00 +0000 Wake ☃\n";
    assert!(pmset_log_divides(log));
    assert_eq!(parse_pmset_log(log), Ok((vec![], 1_777_105_800_000_000)));
}

#[test]
fn a_run_of_pmset_gives_windows_or_a_complaint() {
    let out = CommandOutcome::exited(true, LOG.as_bytes(), b"");
    assert_eq!(macos_pmset_windows(&out), parse_pmset_log(LOG));
    let out = CommandOutcome::exited(false, b"", b"\n bad day \n");
    assert_eq!(macos_pmset_windows(&out), Err("pmset exited non-zero: bad day".to_string()));
    let out = CommandOutcome::NotStarted { error: "not found".to_string() };
    assert_eq!(macos_pmset_windows(&out), Err("couldn't run pmset (not found)".to_string()));
}

#[test]
fn the_power_log_is_asked_for() {
    let command = pmset_command();
    assert_eq!(command.program, "pmset");
    assert_eq!(command.args, vec!["-g", "log"]);
}

#[test]
fn lines_without_a_stamp_change_nothing() {
    let mut noisy = String::new();
    for line in LOG.lines() {
        noisy.push_str("no stamp, but long enough for one\n");
        noisy.push_str(line);
        noisy.push_str("\n\nSleep\n");
    }
    assert_eq!(parse_pmset_log(&noisy), parse_pmset_log(LOG));
}

#[test]
fn a_zone_shifts_a_stamp_by_its_offset() {
    let utc = parse_pmset_ts("2026-04-25 14:30:21 +0000").unwrap();
    let west = parse_pmset_ts("2026-04-25 14:30:21 -0730").unwrap();
    let east = parse_pmset_ts("2026-04-25 14:30:21 +0530").unwrap();
    assert_eq!(west, utc + (7 * 3600 + 30 * 60) * 1_000_000);
    assert_eq!(east, utc - (5 * 3600 + 30 * 60) * 1_000_000);
}

#[test]
fn stamps_come_in_the_order_of_their_texts() {
    let stamps = [
        "1999-12-31 23:59:59 +0000",
        "2000-01-01 00:00:00 +0000",
        "2000-02-29 23:00:00 +0000",
        "2000-02-29 23:00:01 +0000",
        "2000-02-29 23:01:00 +0000",
        "2000-03-01 00:00:00 +0000",
        "2026-04-25 14:30:21 +0000",
    ];
    for pair in stamps.windows(2) {
        assert!(pair[0] < pair[1]);
        assert!(parse_pmset_ts(pair[0]).unwrap() < parse_pmset_ts(pair[1]).unwrap());
    }
}
