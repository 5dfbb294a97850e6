use downtime::command::{CommandOutcome, Invocation};

#[test]
fn an_invocation_gathers_arguments() {
    let command = Invocation::new("date").arg("-d").arg("now");
    assert_eq!(command.program, "date");
    assert_eq!(command.args, vec!["-d", "now"]);
    assert!(Invocation::new("true").args.is_empty());
}

#[test]
fn output_is_decoded_as_utf8() {
    let out = CommandOutcome::exited(true, "é☃".as_bytes(), b"oops");
    assert_eq!(
        out,
        CommandOutcome::Exited {
            success: true,
            stdout: "é☃".to_string(),
            stderr: "oops".to_string(),
        }
    );
}

#[test]
fn output_that_is_not_utf8_is_replaced() {
    let out = CommandOutcome::exited(true, b"a\xffb", b"\xc3");
    assert_eq!(out.success_text(), Some("a\u{fffd}b"));
    assert_eq!(
        CommandOutcome::exited(false, b"", b" \xc3 ").output_of("tool"),
        Err("tool exited non-zero: \u{fffd}".to_string())
    );
}

#[test]
fn only_a_success_has_printed() {
    let ok = CommandOutcome::exited(true, b"text", b"");
    assert_eq!(ok.success_text(), Some("text"));
    assert_eq!(ok.output_of("tool"), Ok("text"));
    let failed = CommandOutcome::exited(false, b"text", b" why\n");
    assert_eq!(failed.success_text(), None);
    assert_eq!(failed.output_of("tool"), Err("tool exited non-zero: why".to_string()));
    let missing = CommandOutcome::NotStarted { error: "gone".to_string() };
    assert_eq!(missing.success_text(), None);
    assert_eq!(missing.output_of("tool"), Err("couldn't run tool (gone)".to_string()));
}
