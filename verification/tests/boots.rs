use downtime::boots::{
    extract_num_field, extract_str_field, linux_windows, list_boots, list_boots_command,
    parse_boots_json, ready_commands, startup_time, userspace_ready_command, userspace_ready_us, Boot,
};
use downtime::command::CommandOutcome;

fn boot(id: &str, first: u64, last: u64) -> Boot {
    Boot { boot_id: id.to_string(), first_entry_us: first, last_entry_us: last }
}

fn object(index: i64, b: &Boot) -> String {
    format!(
        "{{\"index\":{index},\"boot_id\":\"{}\",\"first_entry\":{},\"last_entry\":{}}}",
        b.boot_id, b.first_entry_us, b.last_entry_us
    )
}

#[test]
fn a_string_field_ends_at_the_next_quotation_mark() {
    assert_eq!(extract_str_field("{\"a\":\"x\",\"b\":\"yz\"}", "b").as_deref(), Some("yz"));
    assert_eq!(extract_str_field("{\"a\":\"\"}", "a").as_deref(), Some(""));
    assert_eq!(extract_str_field("{\"a\":\"x", "a"), None);
    assert_eq!(extract_str_field("{\"a\": \"x\"}", "a"), None);
    assert_eq!(extract_str_field("{\"a\":1}", "a"), None);
    assert_eq!(extract_str_field("{}", "a"), None);
}

#[test]
fn a_number_field_ends_at_a_comma_or_a_brace() {
    assert_eq!(extract_num_field("{\"a\":12,\"b\":34}", "a"), Some(12));
    assert_eq!(extract_num_field("{\"a\":12,\"b\": 34 }", "b"), Some(34));
    assert_eq!(extract_num_field("{\"a\":12", "a"), None);
    assert_eq!(extract_num_field("{\"a\":\"12\"}", "a"), None);
    assert_eq!(extract_num_field("{\"a\":-1}", "a"), None);
    assert_eq!(extract_num_field("{\"a\":18446744073709551616}", "a"), None);
    assert_eq!(extract_num_field("{\"b\":1}", "a"), None);
}

#[test]
fn a_listing_reads_back() {
    let boots = vec![boot("0f3a", 10, 20), boot("", 0, u64::MAX), boot("f", 30, 25)];
    let text = format!(
        "[{},{},{}]\n",
        object(-2, &boots[0]),
        object(-1, &boots[1]),
        object(0, &boots[2])
    );
    assert_eq!(parse_boots_json(&text), Some(boots));
}

#[test]
fn a_listing_without_objects_has_no_boots() {
    assert_eq!(parse_boots_json(""), Some(vec![]));
    assert_eq!(parse_boots_json("[]"), Some(vec![]));
}

#[test]
fn a_listing_with_a_bad_object_is_none() {
    assert_eq!(parse_boots_json("[{\"boot_id\":\"a\""), None);
    assert_eq!(parse_boots_json("[{\"first_entry\":1,\"last_entry\":2}]"), None);
    assert_eq!(parse_boots_json("[{\"boot_id\":\"a\",\"last_entry\":2}]"), None);
    assert_eq!(parse_boots_json("[{\"boot_id\":\"a\",\"first_entry\":1}]"), None);
    assert_eq!(parse_boots_json("[{\"boot_id\":\"a\",\"first_entry\":x,\"last_entry\":2}]"), None);
    let good = object(0, &boot("a", 1, 2));
    assert_eq!(parse_boots_json(&format!("[{good},{{}}]")), None);
}

#[test]
fn boots_are_listed_by_their_first_entry() {
    let text = format!(
        "[{},{},{},{}]",
        object(0, &boot("c", 30, 40)),
        object(1, &boot("a", 10, 20)),
        object(2, &boot("d", 30, 35)),
        object(3, &boot("b", 20, 30))
    );
    let out = CommandOutcome::exited(true, text.as_bytes(), b"");
    assert_eq!(
        list_boots(&out),
        Ok(vec![boot("a", 10, 20), boot("b", 20, 30), boot("c", 30, 40), boot("d", 30, 35)])
    );
}

#[test]
fn a_listing_that_fails_is_an_error() {
    let out = CommandOutcome::exited(true, b"[{]", b"");
    assert_eq!(list_boots(&out), Err("couldn't parse journalctl JSON".to_string()));
    let out = CommandOutcome::exited(false, b"[]", b"no journal\n");
    assert_eq!(list_boots(&out), Err("journalctl exited non-zero: no journal".to_string()));
    let out = CommandOutcome::NotStarted { error: "gone".to_string() };
    assert_eq!(list_boots(&out), Err("couldn't run journalctl (gone)".to_string()));
}

#[test]
fn journalctl_is_asked() {
    let command = list_boots_command();
    assert_eq!(command.program, "journalctl");
    assert_eq!(command.args, vec!["--list-boots", "-o", "json"]);
    let command = userspace_ready_command("0f3a");
    assert_eq!(command.program, "journalctl");
    assert_eq!(
        command.args,
        vec!["_PID=1", "-b", "0f3a", "-g", "Startup finished in.*=", "-o", "short-unix", "-n", "1"]
    );
}

fn ready(text: &str) -> Option<u64> {
    userspace_ready_us(&CommandOutcome::exited(true, text.as_bytes(), b""))
}

#[test]
fn the_time_of_readiness_is_read_from_the_line() {
    assert_eq!(ready("1777152621.123456 host systemd[1]: Startup"), Some(1_777_152_621_123_456));
    assert_eq!(ready("\n 7.0000019 x"), Some(7_000_001));
    assert_eq!(ready("7.12345 x"), None);
    assert_eq!(ready("7 x"), None);
    assert_eq!(ready("x.123456"), None);
    assert_eq!(ready("7.12345x"), None);
    assert_eq!(ready("7.12345é9"), None);
    assert_eq!(ready(""), None);
    assert_eq!(userspace_ready_us(&CommandOutcome::exited(false, b"7.123456", b"")), None);
    let missing = CommandOutcome::NotStarted { error: String::new() };
    assert_eq!(userspace_ready_us(&missing), None);
}

#[test]
fn the_parts_of_the_time_are_told_before_they_are_put_together() {
    let out = CommandOutcome::exited(true, b"18446744073709551615.999999 x", b"");
    assert_eq!(startup_time(&out), Some((u64::MAX, 999_999)));
    let out = CommandOutcome::exited(true, b"7.000001 x", b"");
    assert_eq!(startup_time(&out), Some((7, 1)));
}

#[test]
fn the_time_between_boots_is_downtime() {
    let boots = vec![boot("a", 10, 20), boot("b", 30, 40), boot("c", 45, 60), boot("d", 55, 70)];
    assert_eq!(
        linux_windows(Ok(boots), &[Some(33), None, None]),
        Ok((vec![(20, 33), (40, 45)], 10))
    );
    assert_eq!(linux_windows(Ok(vec![boot("a", 10, 20)]), &[]), Ok((vec![], 10)));
}

#[test]
fn no_boots_are_an_error() {
    assert_eq!(linux_windows(Ok(vec![]), &[]), Err("journalctl returned no boots".to_string()));
}

#[test]
fn windows_between_boots_follow_one_another() {
    let boots = vec![boot("a", 10, 20), boot("b", 30, 40), boot("c", 50, 60)];
    let (windows, oldest) = linux_windows(Ok(boots), &[Some(35), Some(55)]).unwrap();
    assert_eq!(windows, vec![(20, 35), (40, 55)]);
    assert!(windows[0].1 <= windows[1].0);
    assert!(windows.iter().all(|w| oldest <= w.0 && w.0 < w.1));
}

#[test]
fn listings_in_a_row_list_all_their_boots() {
    let (a, b) = (boot("a", 1, 2), boot("b", 3, 4));
    let first = format!("[{}]", object(0, &a));
    let second = format!("[{}]", object(0, &b));
    assert_eq!(parse_boots_json(&format!("{first}{second}")), Some(vec![a, b]));
    assert_eq!(parse_boots_json(&format!("{first}[{{")), None);
}

#[test]
fn a_failed_listing_is_handed_on() {
    assert_eq!(linux_windows(Err("gone".to_string()), &[]), Err("gone".to_string()));
    assert_eq!(linux_windows(Err("gone".to_string()), &[None]), Err("gone".to_string()));
}

#[test]
fn every_boot_but_the_first_is_asked_about() {
    let boots = [boot("a", 10, 20), boot("b", 30, 40), boot("c", 50, 60)];
    let expected = vec![userspace_ready_command("b"), userspace_ready_command("c")];
    assert_eq!(ready_commands(&boots), expected);
    assert_eq!(ready_commands(&boots[..1]), vec![]);
    assert_eq!(ready_commands(&[]), vec![]);
}
