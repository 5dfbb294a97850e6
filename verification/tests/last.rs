use downtime::command::CommandOutcome;
use downtime::dates::DateStep;
use downtime::last::{
    asks_reboots, extract_last_date, last_command, last_date, last_events, macos_last_windows,
    pair_shutdowns_with_reboots, parse_last_output, run_last,
};

#[test]
fn the_notice_of_where_records_begin_is_no_entry() {
    let text = "reboot ~ Sat Apr 25 14:30:21 2026\n\n  wtmp begins Mon Jan  1\nbtmp begins x\nwtmp\n";
    assert_eq!(
        parse_last_output(text),
        vec!["reboot ~ Sat Apr 25 14:30:21 2026", "", "wtmp"]
    );
}

#[test]
fn a_run_of_last_gives_entries_or_a_complaint() {
    let out = CommandOutcome::exited(true, b"one\ntwo\n", b"");
    assert_eq!(run_last(&out), Ok(vec!["one".to_string(), "two".to_string()]));
    let out = CommandOutcome::exited(false, b"", b"usage");
    assert_eq!(run_last(&out), Err("last exited non-zero: usage".to_string()));
    let out = CommandOutcome::NotStarted { error: "gone".to_string() };
    assert_eq!(run_last(&out), Err("couldn't run last (gone)".to_string()));
}

#[test]
fn records_of_a_kind_are_asked_for() {
    let command = last_command("shutdown");
    assert_eq!(command.program, "last");
    assert_eq!(command.args, vec!["-F", "shutdown"]);
}

#[test]
fn the_date_begins_at_the_weekday() {
    assert_eq!(
        last_date("reboot    ~         Sat Apr 25 14:30:21 2026   still running").as_deref(),
        Some("Sat Apr 25 14:30:21 2026")
    );
    assert_eq!(
        last_date("shutdown  ~  Sun Apr  5 04:03:02 2026").as_deref(),
        Some("Sun Apr  5 04:03:02 2026")
    );
    assert_eq!(last_date("Sat Apr 25 14:30:21 2026"), None);
    assert_eq!(last_date(""), None);
}

#[test]
fn up_to_twenty_five_characters_belong_to_the_date() {
    assert_eq!(
        last_date(" Mon 4567890123456789012345678901").as_deref(),
        Some("Mon 456789012345678901234")
    );
    assert_eq!(
        last_date("reboot ~ Wed Apr 22 10:00:00 2026 - crash").as_deref(),
        Some("Wed Apr 22 10:00:00 2026")
    );
}

#[test]
fn the_length_of_a_date_is_counted_in_characters() {
    assert_eq!(
        last_date(" Mon ééééééééééééééééééééé☃☃").as_deref(),
        Some("Mon ééééééééééééééééééééé")
    );
    assert_eq!(last_date(" Mon 45678901234567890123☃").as_deref(), Some("Mon 45678901234567890123☃"));
    assert_eq!(last_date("é☃ Mon é").as_deref(), Some("Mon é"));
}

#[test]
fn the_first_weekday_in_the_line_counts() {
    assert_eq!(last_date("x Sun 1 Mon 2").as_deref(), Some("Sun 1 Mon 2"));
    assert_eq!(
        last_date("reboot   ~   Wed Apr 22 10:00:00 2026 - Mon Apr 27 09:00:00 2026").as_deref(),
        Some("Wed Apr 22 10:00:00 2026")
    );
    for day in ["Mon", "Tue", "Wed", "Thu", "Fri", "Sat", "Sun"] {
        let line = format!("reboot ~ {day} Apr 22 10:00:00 2026 - Mon Tue Wed Thu Fri Sat Sun ");
        assert_eq!(last_date(&line), Some(format!("{day} Apr 22 10:00:00 2026")));
    }
}

#[test]
fn a_date_is_tried_with_each_command_in_turn() {
    let line = "reboot ~ Sat Apr 25 14:30:21 2026";
    let date = "Sat Apr 25 14:30:21 2026";
    let expected = [
        vec!["-d", date, "+%s"],
        vec!["-j", "-f", "%a %b %e %H:%M:%S %Y", date, "+%s"],
        vec!["-j", "-f", "%a %b %d %H:%M:%S %Y", date, "+%s"],
    ];
    let mut replies = Vec::new();
    for args in expected {
        match extract_last_date(line, &replies) {
            DateStep::Run(command) => {
                assert_eq!(command.program, "date");
                assert_eq!(command.args, args);
            }
            other => panic!("{other:?}"),
        }
        replies.push(CommandOutcome::exited(false, b"", b""));
    }
    assert_eq!(extract_last_date(line, &replies), DateStep::Done(None));
    assert_eq!(extract_last_date("no date", &[]), DateStep::Done(None));
}

#[test]
fn an_answer_is_turned_into_microseconds() {
    let replies = [CommandOutcome::exited(true, b"1777152621\n", b"")];
    assert_eq!(
        extract_last_date("reboot ~ Sat Apr 25 14:30:21 2026", &replies),
        DateStep::Done(Some(1_777_152_621_000_000))
    );
    assert_eq!(extract_last_date("no date", &replies), DateStep::Done(None));
}

#[test]
fn the_first_date_of_two_is_asked_for() {
    let line = "reboot   ~   Wed Apr 22 10:00:00 2026 - Mon Apr 27 09:00:00 2026";
    match extract_last_date(line, &[]) {
        DateStep::Run(command) => {
            assert_eq!(command.args, vec!["-d", "Wed Apr 22 10:00:00 2026", "+%s"])
        }
        other => panic!("{other:?}"),
    }
    let replies = [CommandOutcome::exited(true, b"1776852000\n", b"")];
    assert_eq!(extract_last_date(line, &replies), DateStep::Done(Some(1_776_852_000_000_000)));
}

#[test]
fn known_events_are_sorted() {
    let lines = |n: usize| Ok(vec!["x".to_string(); n]);
    assert_eq!(
        last_events(lines(5), &[Some(5), None, Some(3), Some(5), None]),
        Ok(vec![3, 5, 5])
    );
    assert_eq!(last_events(lines(1), &[None]), Ok(vec![]));
    assert_eq!(last_events(lines(0), &[]), Ok(vec![]));
}

#[test]
fn a_failed_run_has_no_events() {
    assert_eq!(last_events(Err("gone".to_string()), &[]), Err("gone".to_string()));
}

#[test]
fn a_shutdown_is_paired_with_the_next_reboot() {
    assert_eq!(
        pair_shutdowns_with_reboots(&[10, 30, 50], &[5, 20, 30, 40]),
        vec![(10, 20), (30, 40)]
    );
    assert_eq!(pair_shutdowns_with_reboots(&[10, 15], &[20]), vec![(10, 20), (15, 20)]);
    assert_eq!(pair_shutdowns_with_reboots(&[], &[1]), vec![]);
    assert_eq!(pair_shutdowns_with_reboots(&[1], &[]), vec![]);
}

#[test]
fn pairing_never_goes_back_to_an_earlier_reboot() {
    assert_eq!(pair_shutdowns_with_reboots(&[30, 10], &[20, 40]), vec![(30, 40), (10, 40)]);
}

#[test]
fn records_give_windows_and_the_oldest_of_both_kinds() {
    assert_eq!(macos_last_windows(Ok(vec![10, 30]), Ok(vec![4, 20])), Ok((vec![(10, 20)], 4)));
    assert_eq!(macos_last_windows(Ok(vec![]), Ok(vec![9, 7])), Ok((vec![], 7)));
    assert_eq!(macos_last_windows(Ok(vec![8]), Ok(vec![])), Ok((vec![], 8)));
    assert_eq!(
        macos_last_windows(Ok(vec![]), Ok(vec![])),
        Err("no reboot/shutdown entries".to_string())
    );
}

#[test]
fn a_failed_run_of_last_is_handed_on() {
    let no = |why: &str| Err(why.to_string());
    assert_eq!(macos_last_windows(no("a"), no("b")), Err("a".to_string()));
    assert_eq!(macos_last_windows(no("a"), Ok(vec![1])), Err("a".to_string()));
    assert_eq!(macos_last_windows(Ok(vec![1]), no("b")), Err("b".to_string()));
    assert!(asks_reboots(&Ok(vec![])));
    assert!(!asks_reboots(&no("a")));
}

#[test]
fn no_window_begins_before_the_oldest_record() {
    let (windows, oldest) = 
        macos_last_windows(Ok(vec![12, 40, 41]), Ok(vec![3, 13, 60])).unwrap();
    assert_eq!(windows, vec![(12, 13), (40, 60), (41, 60)]);
    assert!(windows.iter().all(|w| oldest <= w.0 && w.0 < w.1));
}
