use downtime::backend::{asks_macos, get_windows, macos_windows, no_backend_bail};
use downtime::ending::Ending;

fn no(why: &str) -> Result<(Vec<(u64, u64)>, u64), String> {
    Err(why.to_string())
}

#[test]
fn windows_of_both_sources_are_coalesced() {
    assert_eq!(
        macos_windows(Ok((vec![(10, 20), (40, 50)], 8)), Ok((vec![(15, 30)], 5))),
        Ok((vec![(10, 30), (40, 50)], 5))
    );
}

#[test]
fn one_source_is_enough() {
    assert_eq!(macos_windows(Ok((vec![(10, 20)], 8)), no("gone")), Ok((vec![(10, 20)], 8)));
    assert_eq!(macos_windows(no("gone"), Ok((vec![], 9))), Ok((vec![], 9)));
}

#[test]
fn complaints_of_both_sources_are_joined() {
    assert_eq!(macos_windows(no("a"), no("b")), no("pmset: a; last: b"));
}

#[test]
fn the_end_of_time_counts_as_unknown() {
    assert_eq!(macos_windows(Ok((vec![(1, 2)], u64::MAX)), no("b")), no("last: b"));
    assert_eq!(macos_windows(Ok((vec![], u64::MAX)), Ok((vec![], u64::MAX))), no(""));
}

#[test]
fn linux_goes_first() {
    assert_eq!(get_windows(Ok((vec![(1, 2)], 1)), Ok((vec![], 9))), Ok((vec![(1, 2)], 1)));
    assert_eq!(get_windows(no("x"), Ok((vec![], 9))), Ok((vec![], 9)));
    assert_eq!(
        get_windows(no("x"), no("pmset: y; last: z")),
        no("no working backend.\n  journalctl: x\n  pmset: pmset: y; last: z")
    );
}

#[test]
fn the_lack_of_a_backend_is_reported() {
    assert_eq!(
        no_backend_bail("because"),
        Ending {
            stdout: String::new(),
            stderr: "downtime: can't determine downtime windows.\n\
                     because\n\
                     downtime: needs journalctl (linux+systemd) or pmset (macOS). \
                     neither was happy.\n"
                .to_string(),
            status: 1,
        }
    );
}

#[test]
fn the_oldest_instant_precedes_the_windows_of_both_sources() {
    let (windows, oldest) =
        macos_windows(Ok((vec![(10, 20)], 9)), Ok((vec![(3, 12)], 2))).unwrap();
    assert_eq!((windows, oldest), (vec![(3, 20)], 2));
}

#[test]
fn macos_is_asked_only_if_linux_complains() {
    assert!(!asks_macos(&Ok((vec![], 1))));
    assert!(asks_macos(&no("x")));
}
