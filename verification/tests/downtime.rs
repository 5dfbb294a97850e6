use downtime::backend::{macos_windows, no_backend_bail};
use downtime::downtime::{compute_downtime_since, downtime_fits, Downtime, Finding};

const S: u64 = 1_000_000;

fn past(windows: &[(u64, u64)], oldest: u64, now: u64, since_secs: u64) -> Downtime {
    assert!(downtime_fits(windows, now, since_secs));
    match compute_downtime_since(&Ok((windows.to_vec(), oldest)), Some(now), since_secs) {
        Ok(Finding::Past(d)) => d,
        other => panic!("{other:?}"),
    }
}

#[test]
fn without_windows_the_program_ends() {
    let answer = Err("no working backend.".to_string());
    assert_eq!(
        compute_downtime_since(&answer, None, 5),
        Err(no_backend_bail("no working backend."))
    );
    assert_eq!(
        compute_downtime_since(&answer, Some(0), 5),
        Err(no_backend_bail("no working backend."))
    );
}

#[test]
fn windows_are_clipped_to_the_range() {
    let windows = [(S, 3 * S), (4 * S, 5 * S), (8 * S, 20 * S)];
    assert_eq!(
        past(&windows, S, 10 * S, 2),
        Downtime {
            clipped: vec![(2 * S, 3 * S), (4 * S, 5 * S), (8 * S, 10 * S)],
            total_us: 4 * S,
            truncated: false,
            window_us: 8 * S,
            oldest_known: S,
        }
    );
}

#[test]
fn windows_outside_the_range_are_left_out() {
    let d = past(&[(S, 2 * S), (11 * S, 12 * S), (5 * S, 5 * S)], 0, 10 * S, 2);
    assert_eq!(d.clipped, vec![]);
    assert_eq!(d.total_us, 0);
}

#[test]
fn a_range_that_reaches_back_too_far_is_measured_from_the_oldest_instant() {
    let d = past(&[(6 * S, 7 * S)], 5 * S, 10 * S, 1);
    assert!(d.truncated);
    assert_eq!(d.window_us, 5 * S);
    assert_eq!(d.oldest_known, 5 * S);
    let d = past(&[], 11 * S, 10 * S, 1);
    assert!(d.truncated);
    assert_eq!(d.window_us, 0);
}

#[test]
fn the_future_is_not_looked_into() {
    let answer = Ok((vec![(0, 1)], 0));
    assert_eq!(compute_downtime_since(&answer, Some(10 * S), 11), Ok(Finding::Future));
    assert_eq!(compute_downtime_since(&answer, Some(10 * S), u64::MAX), Ok(Finding::Future));
    assert_eq!(past(&[], 0, 10 * S, 10).window_us, 0);
    // Too many seconds count as the largest number of microseconds.
    assert_eq!(past(&[], 0, u64::MAX, u64::MAX).window_us, 0);
}

#[test]
fn overlapping_windows_may_not_fit() {
    let all = (0, u64::MAX);
    assert!(downtime_fits(&[all], u64::MAX, 0));
    assert!(!downtime_fits(&[all, (0, 1)], u64::MAX, 0));
    assert!(downtime_fits(&[all, (0, 1)], u64::MAX, 1));
    assert!(downtime_fits(&[], 0, 0));
}

#[test]
fn the_total_counts_each_instant_once() {
    let windows = [(S, 2 * S), (2 * S, 4 * S), (6 * S, 9 * S)];
    let d = past(&windows, 0, 8 * S, 1);
    let seconds = (1..8).filter(|t| windows.iter().any(|w| w.0 <= t * S && t * S < w.1)).count();
    assert_eq!(d.total_us, seconds as u64 * S);
    assert!(d.total_us <= d.window_us);
}

#[test]
fn a_longer_past_has_no_less_downtime() {
    let windows = [(S, 2 * S), (4 * S, 6 * S)];
    let mut previous = 0;
    for since in (0..=7).rev() {
        let total = past(&windows, 0, 7 * S, since).total_us;
        assert!(previous <= total);
        previous = total;
    }
    assert_eq!(previous, 3 * S);
}

#[test]
fn downtime_adds_up_over_the_parts_of_a_range() {
    let windows = [(S, 5 * S), (6 * S, 9 * S)];
    for middle in 0..=10 {
        let whole = past(&windows, 0, 10 * S, 0).total_us;
        let first = past(&windows, 0, middle * S, 0).total_us;
        let second = past(&windows, 0, 10 * S, middle).total_us;
        assert_eq!(whole, first + second);
    }
}

#[test]
fn what_both_sources_cover_counts_once() {
    let (windows, oldest) =
        macos_windows(Ok((vec![(S, 4 * S)], S)), Ok((vec![(3 * S, 6 * S)], 2 * S))).unwrap();
    let d = past(&windows, oldest, 10 * S, 0);
    assert_eq!(d.total_us, 5 * S);
    assert_eq!(d.window_us, 9 * S);
}

#[test]
fn the_share_is_at_most_the_whole() {
    let d = past(&[(5 * S, 20 * S)], 5 * S, 10 * S, 0);
    assert_eq!(d.total_us, 5 * S);
    assert_eq!(d.total_us, d.window_us);
}
