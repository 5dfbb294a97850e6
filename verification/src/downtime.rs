//! How long the machine was down in a range of time.

use vstd::prelude::*;
use crate::backend::{no_backend_bail, no_backend_text};
use crate::ending::Ending;
use crate::windows::{covers, have_length, in_order, none_after, none_before};

verus! {

/// What is known of the downtime since an instant.
#[derive(Debug, PartialEq, Eq)]
pub enum Finding {
    /// The instant has not come yet.
    Future,
    /// It has come.
    Past(Downtime),
}

/// The downtime since an instant.
#[derive(Debug, PartialEq, Eq)]
pub struct Downtime {
    /// The downtime windows, clipped to the range from the instant until now.
    pub clipped: Vec<(u64, u64)>,
    /// Their length together, in microseconds.
    pub total_us: u64,
    /// Whether the instant lies before the oldest known one.
    pub truncated: bool,
    /// The length of the range that is known of, in microseconds.
    pub window_us: u64,
    /// The oldest known instant.
    pub oldest_known: u64,
}

/// An instant given in seconds, in microseconds, or the largest number that there
/// is if that is too large.
pub open spec fn micros(secs: u64) -> u64 {
    if secs * 1_000_000 <= u64::MAX {
        (secs * 1_000_000) as u64
    } else {
        u64::MAX
    }
}

/// A window's part between `since` and `now`. It is empty if it does not begin
/// before it ends.
pub open spec fn clip(w: (u64, u64), since: u64, now: u64) -> (u64, u64) {
    (
        if w.0 >= since {
            w.0
        } else {
            since
        },
        if w.1 <= now {
            w.1
        } else {
            now
        },
    )
}

/// The parts of windows between `since` and `now` that are not empty.
pub open spec fn clipped(windows: Seq<(u64, u64)>, since: u64, now: u64) -> Seq<(u64, u64)>
    decreases windows.len(),
{
    if windows.len() == 0 {
        windows
    } else {
        let before = clipped(windows.drop_last(), since, now);
        let w = clip(windows.last(), since, now);
        if w.1 > w.0 {
            before.push(w)
        } else {
            before
        }
    }
}

/// The length of windows together.
pub open spec fn total(windows: Seq<(u64, u64)>) -> int
    decreases windows.len(),
{
    if windows.len() == 0 {
        0
    } else {
        total(windows.drop_last()) + (windows.last().1 - windows.last().0)
    }
}

/// The length of the range that is known of: from `since`, or from the oldest known
/// instant if that is later, until now.
pub open spec fn known_range(oldest_known: u64, since: u64, now: u64) -> int {
    let start = if since < oldest_known {
        oldest_known
    } else {
        since
    };
    if start <= now {
        now - start
    } else {
        0
    }
}

/// Converts seconds to microseconds, up to the largest number that there is.
fn to_micros(secs: u64) -> (r: u64)
    ensures
        r == micros(secs),
{
    match secs.checked_mul(1_000_000) {
        Some(us) => us,
        None => u64::MAX,
    }
}

/// A window's part between two instants.
fn clip_window(w: (u64, u64), since: u64, now: u64) -> (r: (u64, u64))
    ensures
        r == clip(w, since, now),
{
    let s: u64 = if w.0 >= since {
        w.0
    } else {
        since
    };
    let e: u64 = if w.1 <= now {
        w.1
    } else {
        now
    };
    (s, e)
}

/// Clipped windows begin before they end, so more of them are no shorter.
proof fn lemma_total_grows(windows: Seq<(u64, u64)>, since: u64, now: u64, n: int)
    requires
        0 <= n <= windows.len(),
    ensures
        0 <= total(clipped(windows.take(n), since, now)) <= total(clipped(windows, since, now)),
    decreases windows.len(),
{
    if windows.len() > 0 {
        let d = windows.drop_last();
        let c = clipped(d, since, now);
        let w = clip(windows.last(), since, now);
        assert(c.push(w).drop_last() =~= c);
        if n < windows.len() {
            lemma_total_grows(d, since, now, n);
            assert(d.take(n) =~= windows.take(n));
        } else {
            assert(windows.take(n) =~= windows);
            lemma_total_grows(d, since, now, d.len() as int);
            assert(d.take(d.len() as int) =~= d);
        }
    } else {
        assert(windows.take(n) =~= windows);
    }
}

/// Whether the downtime since an instant, in microseconds, is a number that
/// there is.
pub fn downtime_fits(windows: &[(u64, u64)], now: u64, since_secs: u64) -> (b: bool)
    ensures
        b == (total(clipped(windows@, micros(since_secs), now)) <= u64::MAX),
{
    let since_us = to_micros(since_secs);
    let mut sum: u64 = 0;
    let mut i: usize = 0;
    while i < windows.len()
        invariant
            i <= windows@.len(),
            since_us == micros(since_secs),
            sum == total(clipped(windows@.take(i as int), since_us, now)),
        decreases windows@.len() - i,
    {
        let (s, e) = clip_window(windows[i], since_us, now);
        proof {
            let c = clipped(windows@.take(i as int), since_us, now);
            assert(windows@.take(i + 1).drop_last() =~= windows@.take(i as int));
            assert(c.push((s, e)).drop_last() =~= c);
            lemma_total_grows(windows@, since_us, now, i + 1);
        }
        i = i + 1;
        if e > s {
            match sum.checked_add(e - s) {
                Some(more) => {
                    sum = more;
                },
                None => {
                    return false;
                },
            }
        }
    }
    assert(windows@.take(windows@.len() as int) =~= windows@);
    true
}

/// The downtime since an instant given in seconds since the epoch, from the windows
/// of this machine and their oldest known instant. The range is measured from that
/// instant if the given one lies before it. If there is no answer as to the windows,
/// the program ends.
pub fn compute_downtime_since(
    answer: &Result<(Vec<(u64, u64)>, u64), String>,
    now: Option<u64>,
    since_secs: u64,
) -> (r: Result<Finding, Ending>)
    requires
        answer matches Ok((windows, _)) ==> (now matches Some(now) && (micros(since_secs) <= now
            ==> total(clipped(windows@, micros(since_secs), now)) <= u64::MAX)),
    ensures
        match answer {
            Err(e) => r matches Err(end) && end.says(Seq::empty(), no_backend_text(e@), 1),
            Ok((windows, oldest_known)) => r matches Ok(finding) && is_finding(
                finding,
                windows@,
                *oldest_known,
                now->0,
                micros(since_secs),
            ),
        },
        answer is Ok && since_secs * 1_000_000 <= u64::MAX ==> (r matches Ok(finding) && (
        finding is Future <==> since_secs * 1_000_000 > now->0)),
{
    match answer {
        Err(e) => Err(no_backend_bail(e.as_str())),
        Ok((windows, oldest_known)) => Ok(
            find_downtime(windows.as_slice(), *oldest_known, now.unwrap(), since_secs),
        ),
    }
}

/// Whether a finding is what windows tell of the range from `since` until `now`.
pub open spec fn is_finding(
    finding: Finding,
    windows: Seq<(u64, u64)>,
    oldest_known: u64,
    now: u64,
    since: u64,
) -> bool {
    match finding {
        Finding::Future => since > now,
        Finding::Past(d) => {
            &&& since <= now
            &&& d.clipped@ == clipped(windows, since, now)
            &&& d.total_us == total(d.clipped@)
            &&& d.truncated == (since < oldest_known)
            &&& d.window_us == known_range(oldest_known, since, now)
            &&& d.oldest_known == oldest_known
        },
    }
}

/// The downtime that windows tell of since an instant.
fn find_downtime(windows: &[(u64, u64)], oldest_known: u64, now: u64, since_secs: u64) -> (r:
    Finding)
    requires
        micros(since_secs) <= now ==> total(clipped(windows@, micros(since_secs), now)) <= u64::MAX,
    ensures
        is_finding(r, windows@, oldest_known, now, micros(since_secs)),
{
    let since_us = to_micros(since_secs);
    if since_us > now {
        return Finding::Future;
    }
    let truncated = since_us < oldest_known;
    let mut total_us: u64 = 0;
    let mut parts: Vec<(u64, u64)> = Vec::new();
    let mut i: usize = 0;
    while i < windows.len()
        invariant
            i <= windows@.len(),
            total(clipped(windows@, since_us, now)) <= u64::MAX,
            parts@ == clipped(windows@.take(i as int), since_us, now),
            total_us == total(parts@),
        decreases windows@.len() - i,
    {
        let (s, e) = clip_window(windows[i], since_us, now);
        proof {
            assert(windows@.take(i + 1).drop_last() =~= windows@.take(i as int));
            assert(parts@.push((s, e)).drop_last() =~= parts@);
            lemma_total_grows(windows@, since_us, now, i + 1);
        }
        i = i + 1;
        if e > s {
            total_us = total_us + (e - s);
            parts.push((s, e));
        }
    }
    assert(windows@.take(windows@.len() as int) =~= windows@);
    let window_start: u64 = if truncated {
        oldest_known
    } else {
        since_us
    };
    let window_us: u64 = if window_start <= now {
        now - window_start
    } else {
        0
    };
    Finding::Past(
        Downtime { clipped: parts, total_us, truncated, window_us, oldest_known },
    )
}

/// The instants from `since` on and before `now` that windows cover.
pub open spec fn down_instants(windows: Seq<(u64, u64)>, since: u64, now: u64) -> Set<int> {
    Set::new(|t: int| since <= t < now && covers(windows, t))
}

/// When windows do not overlap, their clipped length is the number of instants
/// between `since` and `now` at which the machine was down: none is counted
/// twice, and none is left out.
pub proof fn law_total_counts_instants(windows: Seq<(u64, u64)>, since: u64, now: u64)
    requires
        in_order(windows),
    ensures
        down_instants(windows, since, now).finite(),
        total(clipped(windows, since, now)) == down_instants(windows, since, now).len(),
    decreases windows.len(),
{
    let all = down_instants(windows, since, now);
    if windows.len() == 0 {
        assert(all =~= Set::empty());
    } else {
        let d = windows.drop_last();
        let w = windows.last();
        let c = clip(w, since, now);
        assert(in_order(d)) by {
            assert forall|i: int, j: int|
                #![trigger d[i], d[j]]
                0 <= i < j < d.len() implies d[i].1 <= d[j].0 by {
                assert(windows[i].1 <= windows[j].0);
            }
        }
        law_total_counts_instants(d, since, now);
        let before = down_instants(d, since, now);
        let hi = if c.0 <= c.1 {
            c.1
        } else {
            c.0
        };
        let range = vstd::set_lib::set_int_range(c.0 as int, hi as int);
        vstd::set_lib::lemma_int_range(c.0 as int, hi as int);
        assert forall|t: int| #[trigger] all.contains(t) <==> (before + range).contains(t) by {
            lemma_cover_last(windows, t);
        }
        assert(all =~= before + range);
        assert forall|t: int| #[trigger] before.contains(t) implies !range.contains(t) by {
            let i = choose|i: int| 0 <= i < d.len() && (#[trigger] d[i]).0 <= t < d[i].1;
            assert(windows[i].1 <= windows[windows.len() - 1].0);
        }
        assert(before.disjoint(range));
        vstd::set_lib::lemma_set_disjoint_lens(before, range);
        let cd = clipped(d, since, now);
        assert(cd.push(c).drop_last() =~= cd);
    }
}

/// What the last window adds to the cover.
proof fn lemma_cover_last(windows: Seq<(u64, u64)>, t: int)
    requires
        windows.len() > 0,
    ensures
        covers(windows, t) <==> covers(windows.drop_last(), t) || windows.last().0 <= t
            < windows.last().1,
{
    let d = windows.drop_last();
    if covers(d, t) {
        let i = choose|i: int| 0 <= i < d.len() && (#[trigger] d[i]).0 <= t < d[i].1;
        assert(windows[i] == d[i]);
    }
    if windows.last().0 <= t < windows.last().1 {
        assert(windows[windows.len() - 1] == windows.last());
    }
    if covers(windows, t) {
        let i = choose|i: int|
            0 <= i < windows.len() && (#[trigger] windows[i]).0 <= t < windows[i].1;
        if i < d.len() {
            assert(d[i] == windows[i]);
        }
    }
}

/// When windows do not overlap, there is no more downtime than there is time: the
/// total is at most the length of the range, so it fits.
pub proof fn law_total_within_range(windows: Seq<(u64, u64)>, since: u64, now: u64)
    requires
        in_order(windows),
        since <= now,
    ensures
        0 <= total(clipped(windows, since, now)) <= now - since,
{
    law_total_counts_instants(windows, since, now);
    let all = down_instants(windows, since, now);
    let range = vstd::set_lib::set_int_range(since as int, now as int);
    vstd::set_lib::lemma_int_range(since as int, now as int);
    vstd::set_lib::lemma_len_subset(all, range);
}

/// Every clipped window has a length and lies within the range.
pub proof fn law_clipped_within_range(windows: Seq<(u64, u64)>, since: u64, now: u64)
    ensures
        have_length(clipped(windows, since, now)),
        none_before(clipped(windows, since, now), since),
        none_after(clipped(windows, since, now), now),
        clipped(windows, since, now).len() <= windows.len(),
    decreases windows.len(),
{
    if windows.len() > 0 {
        law_clipped_within_range(windows.drop_last(), since, now);
    }
}

/// Asking about a longer past never finds less downtime.
pub proof fn law_total_monotone(windows: Seq<(u64, u64)>, earlier: u64, since: u64, now: u64)
    requires
        earlier <= since,
    ensures
        total(clipped(windows, since, now)) <= total(clipped(windows, earlier, now)),
    decreases windows.len(),
{
    if windows.len() > 0 {
        let d = windows.drop_last();
        law_total_monotone(d, earlier, since, now);
        let (a, b) = (clipped(d, since, now), clipped(d, earlier, now));
        let (wa, wb) = (clip(windows.last(), since, now), clip(windows.last(), earlier, now));
        assert(a.push(wa).drop_last() =~= a);
        assert(b.push(wb).drop_last() =~= b);
    }
}

/// The downtime of a range is that of its two parts, wherever it is divided.
pub proof fn law_total_additive(windows: Seq<(u64, u64)>, since: u64, middle: u64, now: u64)
    requires
        since <= middle <= now,
    ensures
        total(clipped(windows, since, now)) == total(clipped(windows, since, middle)) + total(
            clipped(windows, middle, now),
        ),
    decreases windows.len(),
{
    if windows.len() > 0 {
        let d = windows.drop_last();
        law_total_additive(d, since, middle, now);
        let w = windows.last();
        let (a, b, c) = (
            clipped(d, since, now),
            clipped(d, since, middle),
            clipped(d, middle, now),
        );
        assert(a.push(clip(w, since, now)).drop_last() =~= a);
        assert(b.push(clip(w, since, middle)).drop_last() =~= b);
        assert(c.push(clip(w, middle, now)).drop_last() =~= c);
    }
}

/// Where every window begins after an instant, a range that begins before it may
/// as well begin there.
proof fn lemma_clip_from(windows: Seq<(u64, u64)>, oldest: u64, since: u64, now: u64)
    requires
        none_before(windows, oldest),
        since <= oldest,
    ensures
        clipped(windows, since, now) == clipped(windows, oldest, now),
    decreases windows.len(),
{
    if windows.len() > 0 {
        let d = windows.drop_last();
        assert forall|i: int| 0 <= i < d.len() implies oldest <= (#[trigger] d[i]).0 by {
            assert(oldest <= windows[i].0);
        }
        assert(oldest <= windows[windows.len() - 1].0);
        lemma_clip_from(d, oldest, since, now);
    }
}

/// When windows do not overlap and none begins before the oldest known instant,
/// the downtime is at most the length of the range that is known of: the share of
/// it is never more than the whole.
pub proof fn law_share_at_most_whole(
    windows: Seq<(u64, u64)>,
    oldest_known: u64,
    since: u64,
    now: u64,
)
    requires
        in_order(windows),
        none_before(windows, oldest_known),
        since <= now,
    ensures
        0 <= total(clipped(windows, since, now)) <= known_range(oldest_known, since, now),
{
    if since < oldest_known {
        lemma_clip_from(windows, oldest_known, since, now);
        if oldest_known <= now {
            law_total_within_range(windows, oldest_known, now);
        } else {
            law_total_counts_instants(windows, oldest_known, now);
            assert(down_instants(windows, oldest_known, now) =~= Set::empty());
        }
    } else {
        law_total_within_range(windows, since, now);
    }
}

/// Seconds are turned into a million microseconds each, as long as their number fits;
/// beyond, into the largest number that there is.
pub proof fn law_micros(secs: u64)
    ensures
        secs * 1_000_000 <= u64::MAX ==> micros(secs) == secs * 1_000_000,
        secs * 1_000_000 > u64::MAX ==> micros(secs) == u64::MAX,
{
}

/// A finding lies in the future if and only if the instant asked about has not come,
/// counted in microseconds. Too many seconds to count are in the future of any instant
/// but the last that there is.
pub proof fn law_future(
    finding: Finding,
    windows: Seq<(u64, u64)>,
    oldest_known: u64,
    now: u64,
    secs: u64,
)
    requires
        is_finding(finding, windows, oldest_known, now, micros(secs)),
    ensures
        secs * 1_000_000 <= u64::MAX ==> (finding is Future <==> secs * 1_000_000 > now),
        secs * 1_000_000 > u64::MAX ==> (finding is Future <==> now < u64::MAX),
{
}

/// What is found of the past, in plain terms. The windows are clipped to the range, and
/// the total is their length, overlap or not. The finding is truncated if the instant
/// asked about lies before the oldest known one; the range that is known of has as many
/// instants as lie between, are not before the oldest known one, and have come; and if
/// windows do not overlap, the total has as many instants as the windows cover between
/// the instant asked about and now.
pub proof fn law_past(
    d: Downtime,
    windows: Seq<(u64, u64)>,
    oldest_known: u64,
    now: u64,
    secs: u64,
)
    requires
        is_finding(Finding::Past(d), windows, oldest_known, now, micros(secs)),
        secs * 1_000_000 <= u64::MAX,
    ensures
        d.oldest_known == oldest_known,
        d.clipped@ == clipped(windows, (secs * 1_000_000) as u64, now),
        d.total_us == total(d.clipped@),
        d.truncated <==> secs * 1_000_000 < oldest_known,
        ({
            let known = Set::new(|t: int| secs * 1_000_000 <= t < now && oldest_known <= t);
            known.finite() && d.window_us == known.len()
        }),
        in_order(windows) ==> ({
            let down = Set::new(
                |t: int|
                    secs * 1_000_000 <= t < now && exists|i: int|
                        0 <= i < windows.len() && (#[trigger] windows[i]).0 <= t < windows[i].1,
            );
            down.finite() && d.total_us == down.len()
        }),
{
    let since = micros(secs);
    let start = if since < oldest_known {
        oldest_known
    } else {
        since
    };
    let end = if start <= now {
        now
    } else {
        start
    };
    let known = Set::new(|t: int| secs * 1_000_000 <= t < now && oldest_known <= t);
    vstd::set_lib::lemma_int_range(start as int, end as int);
    assert(known =~= vstd::set_lib::set_int_range(start as int, end as int));
    if in_order(windows) {
        law_total_counts_instants(windows, since, now);
        let down = Set::new(
            |t: int|
                secs * 1_000_000 <= t < now && exists|i: int|
                    0 <= i < windows.len() && (#[trigger] windows[i]).0 <= t < windows[i].1,
        );
        assert(down =~= down_instants(windows, since, now));
    }
}

/// Windows are clipped each for itself, in order: a row of windows gives what its two
/// parts give, and no windows give none.
pub proof fn law_clipped_adds(a: Seq<(u64, u64)>, b: Seq<(u64, u64)>, since: u64, now: u64)
    ensures
        clipped(a + b, since, now) == clipped(a, since, now) + clipped(b, since, now),
        clipped(Seq::empty(), since, now).len() == 0,
    decreases b.len(),
{
    if b.len() == 0 {
        assert(a + b =~= a);
        assert(clipped(b, since, now) =~= Seq::empty());
        assert(clipped(a, since, now) + clipped(b, since, now) =~= clipped(a, since, now));
    } else {
        let d = b.drop_last();
        law_clipped_adds(a, d, since, now);
        assert((a + b).drop_last() =~= a + d);
        assert((a + b).last() == b.last());
        assert(clipped(a + b, since, now) =~= clipped(a, since, now) + clipped(b, since, now));
    }
}

/// One window gives the instants that it has from `since` on and before `now`, in one
/// window, or none if it has no such instants.
pub proof fn law_clips_one(w: (u64, u64), since: u64, now: u64)
    ensures
        clipped(seq![w], since, now).len() <= 1,
        clipped(seq![w], since, now).len() == 1 ==> clipped(seq![w], since, now)[0].0 < clipped(
            seq![w],
            since,
            now,
        )[0].1,
        forall|t: int| #[trigger]
            covers(clipped(seq![w], since, now), t) <==> since <= t < now && w.0 <= t < w.1,
{
    let c = clipped(seq![w], since, now);
    let p = clip(w, since, now);
    assert(seq![w].drop_last() =~= Seq::<(u64, u64)>::empty());
    assert(clipped(Seq::<(u64, u64)>::empty(), since, now) =~= Seq::empty());
    assert(c =~= if p.1 > p.0 {
        seq![p]
    } else {
        Seq::empty()
    });
    assert forall|t: int| #[trigger] covers(c, t) <==> since <= t < now && w.0 <= t < w.1 by {
        if since <= t < now && w.0 <= t < w.1 {
            assert(c[0].0 <= t < c[0].1);
        }
    }
}

/// The length of windows together is the sum of their lengths.
pub proof fn law_total_adds(a: Seq<(u64, u64)>, b: Seq<(u64, u64)>, w: (u64, u64))
    ensures
        total(a + b) == total(a) + total(b),
        total(seq![w]) == w.1 - w.0,
        total(Seq::empty()) == 0,
    decreases b.len(),
{
    assert(seq![w].drop_last() =~= Seq::<(u64, u64)>::empty());
    assert(total(Seq::<(u64, u64)>::empty()) == 0);
    assert(seq![w].last() == w);
    if b.len() == 0 {
        assert(a + b =~= a);
    } else {
        law_total_adds(a, b.drop_last(), w);
        assert((a + b).drop_last() =~= a + b.drop_last());
        assert((a + b).last() == b.last());
    }
}

} // verus!
