use downtime::command::{CommandOutcome, Invocation};
use downtime::dates::{date_secs, first_date_secs, fmt_unix_secs, parse_when, DateStep, TextStep};

fn printed(text: &str) -> CommandOutcome {
    CommandOutcome::exited(true, text.as_bytes(), b"")
}

fn failed() -> CommandOutcome {
    CommandOutcome::exited(false, b"12", b"date: bad")
}

fn missing() -> CommandOutcome {
    CommandOutcome::NotStarted { error: "no such file".to_string() }
}

fn line(command: &Invocation) -> Vec<String> {
    let mut words = vec![command.program.clone()];
    words.extend(command.args.clone());
    words
}

#[test]
fn seconds_are_read_from_what_was_printed() {
    assert_eq!(date_secs(&printed(" 1777152621\n")), Some(1_777_152_621));
    assert_eq!(date_secs(&printed("soon")), None);
    assert_eq!(date_secs(&printed("-5\n")), None);
    assert_eq!(date_secs(&failed()), None);
    assert_eq!(date_secs(&missing()), None);
}

#[test]
fn the_first_answer_counts() {
    assert_eq!(first_date_secs(&[]), None);
    assert_eq!(first_date_secs(&[failed(), printed("7"), printed("8")]), Some(7));
    assert_eq!(first_date_secs(&[failed(), missing()]), None);
}

#[test]
fn a_time_is_tried_with_each_date_command_in_turn() {
    let expected = [
        vec!["date", "-d", "yesterday", "+%s"],
        vec!["gdate", "-d", "yesterday", "+%s"],
        vec!["date", "-j", "-f", "%Y-%m-%d", "yesterday", "+%s"],
        vec!["date", "-j", "-f", "%Y-%m-%d %H:%M:%S", "yesterday", "+%s"],
        vec!["date", "-j", "-f", "%Y-%m-%dT%H:%M:%S", "yesterday", "+%s"],
        vec!["date", "-j", "-f", "%Y-%m-%d %H:%M", "yesterday", "+%s"],
    ];
    let mut replies = Vec::new();
    for words in expected {
        match parse_when("yesterday", &replies) {
            DateStep::Run(command) => assert_eq!(line(&command), words),
            other => panic!("{other:?}"),
        }
        replies.push(if replies.len() % 2 == 0 { failed() } else { missing() });
    }
    assert_eq!(parse_when("yesterday", &replies), DateStep::Done(None));
}

#[test]
fn a_time_is_known_once_a_command_answers() {
    assert_eq!(parse_when("x", &[printed("42\n")]), DateStep::Done(Some(42)));
    assert_eq!(parse_when("x", &[failed(), printed("43")]), DateStep::Done(Some(43)));
}

#[test]
fn an_instant_is_worded_by_date() {
    match fmt_unix_secs(1234, &[]) {
        TextStep::Run(command) => {
            assert_eq!(line(&command), vec!["date", "-d", "@1234", "+%Y-%m-%d %H:%M:%S %Z"])
        }
        other => panic!("{other:?}"),
    }
    match fmt_unix_secs(1234, &[missing()]) {
        TextStep::Run(command) => {
            assert_eq!(line(&command), vec!["date", "-r", "1234", "+%Y-%m-%d %H:%M:%S %Z"])
        }
        other => panic!("{other:?}"),
    }
    assert_eq!(fmt_unix_secs(1234, &[printed(" then\n")]), TextStep::Done("then".to_string()));
    assert_eq!(
        fmt_unix_secs(1234, &[failed(), printed("")]),
        TextStep::Done(String::new())
    );
    assert_eq!(
        fmt_unix_secs(1234, &[failed(), missing()]),
        TextStep::Done("unix:1234".to_string())
    );
}
