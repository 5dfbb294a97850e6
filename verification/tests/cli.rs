use downtime::cli::{
    accept_time, choose_action, end_at_once, explain, parse_args, reassurance, refuse, take_value,
    usage, version, Action, ArgsError, Options,
};
use downtime::ending::Ending;

fn parse(words: &[&str]) -> Result<Options, ArgsError> {
    let mut args = vec!["downtime".to_string()];
    args.extend(words.iter().map(|w| w.to_string()));
    parse_args(&args)
}

fn options(help: bool, pretty: bool, since: Option<&str>, version: bool) -> Options {
    Options { help, pretty, since: since.map(|s| s.to_string()), version }
}

#[test]
fn flags_have_a_short_and_a_long_form() {
    assert_eq!(parse(&[]), Ok(options(false, false, None, false)));
    for word in ["-h", "--help"] {
        assert_eq!(parse(&[word]), Ok(options(true, false, None, false)));
    }
    for word in ["-p", "--pretty"] {
        assert_eq!(parse(&[word]), Ok(options(false, true, None, false)));
    }
    for word in ["-V", "--version"] {
        assert_eq!(parse(&[word]), Ok(options(false, false, None, true)));
    }
}

#[test]
fn a_time_may_be_given_in_four_ways() {
    let expected = Ok(options(false, true, Some("2 weeks ago"), false));
    assert_eq!(parse(&["-s", "2 weeks ago", "-p"]), expected);
    assert_eq!(parse(&["-s2 weeks ago", "-p"]), expected);
    assert_eq!(parse(&["--since", "2 weeks ago", "-p"]), expected);
    assert_eq!(parse(&["--since=2 weeks ago", "-p"]), expected);
}

#[test]
fn a_time_may_look_like_anything() {
    assert_eq!(parse(&["-s", "--help"]), Ok(options(false, false, Some("--help"), false)));
    assert_eq!(parse(&["--since="]), Ok(options(false, false, Some(""), false)));
    assert_eq!(parse(&["--since=a=b"]), Ok(options(false, false, Some("a=b"), false)));
    assert_eq!(parse(&["-sa", "-s", "b"]), Ok(options(false, false, Some("b"), false)));
}

#[test]
fn short_options_may_be_grouped() {
    assert_eq!(parse(&["-hpV"]), parse(&["-h", "-p", "-V"]));
    assert_eq!(parse(&["-pVs", "now", "-h"]), parse(&["-pV", "-s", "now", "-h"]));
    assert_eq!(parse(&["-pshV"]), Ok(options(false, true, Some("hV"), false)));
    assert_eq!(parse(&["-"]), Ok(options(false, false, None, false)));
}

#[test]
fn what_is_wrong_with_arguments_is_told() {
    assert_eq!(parse(&["--nope"]), Err(ArgsError::UnknownLong { name: "nope".to_string() }));
    assert_eq!(parse(&["--help=1"]), Err(ArgsError::UnknownLong { name: "help".to_string() }));
    assert_eq!(parse(&["--"]), Err(ArgsError::UnknownLong { name: String::new() }));
    assert_eq!(parse(&["-px"]), Err(ArgsError::UnknownShort { letter: 'x' }));
    assert_eq!(parse(&["-p-"]), Err(ArgsError::UnknownShort { letter: '-' }));
    assert_eq!(parse(&["now"]), Err(ArgsError::UnknownArgument { arg: "now".to_string() }));
    assert_eq!(parse(&[""]), Err(ArgsError::UnknownArgument { arg: String::new() }));
    assert_eq!(parse(&["-ps"]), Err(ArgsError::MissingValue { flag: "-s".to_string() }));
    assert_eq!(parse(&["--since"]), Err(ArgsError::MissingValue { flag: "--since".to_string() }));
}

#[test]
fn a_value_is_the_next_argument() {
    let args = vec!["x".to_string(), "-s".to_string(), "--help".to_string()];
    let mut i = 1;
    assert_eq!(take_value(&mut i, &args, "-s"), Ok("--help".to_string()));
    assert_eq!(i, 2);
}

#[test]
fn a_value_past_the_last_argument_is_missing() {
    let args = vec!["x".to_string(), "-s".to_string()];
    let missing = || Err(ArgsError::MissingValue { flag: "-s".to_string() });
    for at in [1, 2, 100] {
        let mut i = at;
        assert_eq!(take_value(&mut i, &args, "-s"), missing());
        assert_eq!(i, at + 1);
    }
    assert_eq!(take_value(&mut 0, &[], "-s"), missing());
}

#[test]
fn help_goes_before_the_version_and_both_before_a_report() {
    assert_eq!(choose_action(options(true, true, Some("x"), true)), Action::Help);
    assert_eq!(choose_action(options(false, true, Some("x"), true)), Action::Version);
    assert_eq!(
        choose_action(options(false, true, Some("x"), false)),
        Action::Report { since: "x".to_string(), pretty: true }
    );
    assert_eq!(choose_action(options(false, true, None, false)), Action::Reassure);
}

const USAGE: &str = "Usage:
  dt [options]

Options:
  -p, --pretty   show downtime in pretty format
  -h, --help     display this help and exit
  -s, --since    system down since
  -V, --version  output version information and exit
";

#[test]
fn usage_is_told() {
    assert_eq!(usage("dt"), USAGE);
}

#[test]
fn the_version_and_the_reassurance_are_told() {
    assert_eq!(version(), "downtime version 1.0\n");
    assert_eq!(reassurance(), "System is not down.\n");
}

#[test]
fn errors_are_worded() {
    assert_eq!(
        explain(&ArgsError::UnknownLong { name: "nope".to_string() }, "dt"),
        format!("Unrecognized option `--nope`\n{USAGE}")
    );
    assert_eq!(
        explain(&ArgsError::UnknownShort { letter: 'é' }, "dt"),
        format!("Unrecognized option `-é`\n{USAGE}")
    );
    assert_eq!(
        explain(&ArgsError::UnknownArgument { arg: "now".to_string() }, "dt"),
        format!("Unrecognized argument `now`\n{USAGE}")
    );
    assert_eq!(
        explain(&ArgsError::MissingValue { flag: "-s".to_string() }, "dt"),
        "option `-s` requires a value\n"
    );
}

#[test]
fn wrong_arguments_end_the_program() {
    let missing = ArgsError::MissingValue { flag: "-s".to_string() };
    assert_eq!(refuse(&missing, "dt"), Ending::failed(explain(&missing, "dt")));
    for unknown in [
        ArgsError::UnknownLong { name: "nope".to_string() },
        ArgsError::UnknownShort { letter: 'x' },
        ArgsError::UnknownArgument { arg: "now".to_string() },
    ] {
        assert_eq!(refuse(&unknown, "dt"), Ending::refused(explain(&unknown, "dt")));
    }
}

#[test]
fn all_but_a_report_ends_at_once() {
    assert_eq!(end_at_once(&Action::Help, "dt"), Some(Ending::answered(USAGE.to_string())));
    assert_eq!(end_at_once(&Action::Version, "dt"), Some(Ending::answered(version())));
    assert_eq!(end_at_once(&Action::Reassure, "dt"), Some(Ending::answered(reassurance())));
    let report = Action::Report { since: "x".to_string(), pretty: false };
    assert_eq!(end_at_once(&report, "dt"), None);
}

#[test]
fn a_time_that_cannot_be_read_ends_the_program() {
    assert_eq!(accept_time("soon", Some(42)), Ok(42));
    assert_eq!(
        accept_time("soon", None),
        Err(Ending::failed(
            "downtime: couldn't parse `soon` as a time. \
             try `2026-04-01`, `yesterday`, `2 weeks ago`.\n"
                .to_string()
        ))
    );
}

#[test]
fn an_end_has_a_stream_and_a_status() {
    let ending = |out: &str, err: &str, status: i32| Ending {
        stdout: out.to_string(),
        stderr: err.to_string(),
        status,
    };
    assert_eq!(Ending::answered("x".to_string()), ending("x", "", 0));
    assert_eq!(Ending::failed("x".to_string()), ending("", "x", 1));
    assert_eq!(Ending::refused("x".to_string()), ending("x", "", 1));
}
