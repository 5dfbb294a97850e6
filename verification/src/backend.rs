//! Choosing between the sources of downtime windows.
//!
//! A source answers with its windows and the oldest instant that it knows of, or
//! with its complaint.

use vstd::prelude::*;
use crate::downtime::{clipped, down_instants, law_total_counts_instants, total};
use crate::ending::Ending;
use crate::text::{join, join_texts, law_join, texts};
use crate::windows::{coalesce, coalesced, covers, have_length, law_coalesce_keeps_cover};
use crate::windows::{law_coalesce_separates, law_coalesce_within, none_before, separated};

verus! {

/// The windows of an answer; none if it is a complaint.
pub open spec fn windows_of(r: Result<(Vec<(u64, u64)>, u64), String>) -> Seq<(u64, u64)> {
    match r {
        Ok((w, _)) => w@,
        Err(_) => Seq::empty(),
    }
}

/// The oldest instant of an answer; the end of time if it is a complaint.
pub open spec fn oldest_of(r: Result<(Vec<(u64, u64)>, u64), String>) -> u64 {
    match r {
        Ok((_, o)) => o,
        Err(_) => u64::MAX,
    }
}

/// The complaint in an answer, under the source's name.
pub open spec fn complaint_of(
    name: Seq<char>,
    r: Result<(Vec<(u64, u64)>, u64), String>,
) -> Seq<Seq<char>> {
    match r {
        Ok(_) => Seq::empty(),
        Err(e) => seq![name + e@],
    }
}

/// The earlier of two instants.
pub open spec fn sooner(a: u64, b: u64) -> u64 {
    if a <= b {
        a
    } else {
        b
    }
}

/// The windows of macOS: those of the power log and of the login records
/// together, coalesced, with the older of the two oldest instants. If neither
/// knows an instant, the answer is their complaints.
pub fn macos_windows(
    pmset: Result<(Vec<(u64, u64)>, u64), String>,
    last: Result<(Vec<(u64, u64)>, u64), String>,
) -> (r: Result<(Vec<(u64, u64)>, u64), String>)
    ensures
        ({
            let oldest = sooner(oldest_of(pmset), oldest_of(last));
            if oldest == u64::MAX {
                r matches Err(e) && e@ == join(
                    complaint_of("pmset: "@, pmset) + complaint_of("last: "@, last),
                    "; "@,
                )
            } else {
                r matches Ok((w, o)) && o == oldest && w@ == coalesced(
                    windows_of(pmset) + windows_of(last),
                )
            }
        }),
        r is Ok <==> (pmset matches Ok((_, o)) && o < u64::MAX) || (last matches Ok((_, o)) && o
            < u64::MAX),
        r matches Ok((w, o)) ==> (pmset matches Ok((_, p)) ==> o <= p) && (last matches Ok((_, l))
            ==> o <= l) && forall|t: int|
            #[trigger] covers(w@, t) <==> covers(windows_of(pmset), t) || covers(
                windows_of(last),
                t,
            ),
{
    proof {
        let w = coalesced(windows_of(pmset) + windows_of(last));
        assert forall|t: int| #[trigger] covers(w, t) <==> covers(windows_of(pmset), t) || covers(
            windows_of(last),
            t,
        ) by {
            law_macos_windows(pmset, last, t);
        }
    }
    let ghost complaints = complaint_of("pmset: "@, pmset) + complaint_of("last: "@, last);
    let ghost both = windows_of(pmset) + windows_of(last);
    let mut all: Vec<(u64, u64)> = Vec::new();
    let mut oldest: u64 = u64::MAX;
    let mut errs: Vec<String> = Vec::new();
    let ghost first = complaint_of("pmset: "@, pmset);
    match pmset {
        Ok((wins, o)) => {
            let mut wins = wins;
            all.append(&mut wins);
            if o < oldest {
                oldest = o;
            }
        },
        Err(e) => {
            let mut text = "pmset: ".to_owned();
            text.append(e.as_str());
            errs.push(text);
        },
    }
    assert(texts(errs@) =~= first);
    match last {
        Ok((wins, o)) => {
            let mut wins = wins;
            all.append(&mut wins);
            if o < oldest {
                oldest = o;
            }
        },
        Err(e) => {
            let mut text = "last: ".to_owned();
            text.append(e.as_str());
            errs.push(text);
        },
    }
    assert(texts(errs@) =~= complaints);
    assert(all@ =~= both);
    if oldest == u64::MAX {
        return Err(join_texts(&errs, "; "));
    }
    Ok((coalesce(all), oldest))
}

/// Whether macOS is to be asked for windows, given the answer of Linux: only if
/// that is a complaint.
pub fn asks_macos(linux: &Result<(Vec<(u64, u64)>, u64), String>) -> (b: bool)
    ensures
        b == (linux is Err),
{
    match linux {
        Ok(_) => false,
        Err(_) => true,
    }
}

/// The windows of this machine: those of Linux if they are known, whatever the
/// answer of macOS, else those of macOS. If neither are, the answer is both
/// complaints.
pub fn get_windows(
    linux: Result<(Vec<(u64, u64)>, u64), String>,
    macos: Result<(Vec<(u64, u64)>, u64), String>,
) -> (r: Result<(Vec<(u64, u64)>, u64), String>)
    ensures
        match linux {
            Ok(_) => r == linux,
            Err(linux_err) => match macos {
                Ok(_) => r == macos,
                Err(macos_err) => r matches Err(e) && e@ == "no working backend.\n  journalctl: "@
                    + linux_err@ + "\n  pmset: "@ + macos_err@,
            },
        },
        r is Err <==> linux is Err && macos is Err,
        r matches Ok(found) ==> linux == Ok::<(Vec<(u64, u64)>, u64), String>(found) || (linux is Err
            && macos == Ok::<(Vec<(u64, u64)>, u64), String>(found)),
{
    match linux {
        Ok(x) => Ok(x),
        Err(linux_err) => match macos {
            Ok(x) => Ok(x),
            Err(macos_err) => {
                let mut e = "no working backend.\n  journalctl: ".to_owned();
                e.append(linux_err.as_str());
                e.append("\n  pmset: ");
                e.append(macos_err.as_str());
                Err(e)
            },
        },
    }
}

/// What the program says if no source of windows works on this machine.
pub open spec fn no_backend_text(reason: Seq<char>) -> Seq<char> {
    "downtime: can't determine downtime windows.\n"@ + reason + "\n"@
        + "downtime: needs journalctl (linux+systemd) or pmset (macOS). neither was happy.\n"@
}

/// Ends the program because no source of windows works on this machine.
pub fn no_backend_bail(reason: &str) -> (r: Ending)
    ensures
        r.says(Seq::empty(), no_backend_text(reason@), 1),
{
    let mut text = "downtime: can't determine downtime windows.\n".to_owned();
    text.append(reason);
    text.append("\n");
    text.append(
        "downtime: needs journalctl (linux+systemd) or pmset (macOS). neither was happy.\n",
    );
    Ending::failed(text)
}

/// The windows of macOS never overlap or touch, and cover what the two sources
/// cover between them. They have a length if those of the sources have.
pub proof fn law_macos_windows(
    pmset: Result<(Vec<(u64, u64)>, u64), String>,
    last: Result<(Vec<(u64, u64)>, u64), String>,
    t: int,
)
    ensures
        ({
            let w = coalesced(windows_of(pmset) + windows_of(last));
            &&& separated(w)
            &&& covers(w, t) <==> covers(windows_of(pmset), t)
                || covers(windows_of(last), t)
            &&& have_length(windows_of(pmset)) && have_length(windows_of(last)) ==> have_length(w)
        }),
{
    let (a, b) = (windows_of(pmset), windows_of(last));
    let both = a + b;
    law_coalesce_separates(both);
    law_coalesce_keeps_cover(both, t);
    if covers(a, t) {
        let i = choose|i: int| 0 <= i < a.len() && (#[trigger] a[i]).0 <= t < a[i].1;
        assert(both[i] == a[i]);
    }
    if covers(b, t) {
        let i = choose|i: int| 0 <= i < b.len() && (#[trigger] b[i]).0 <= t < b[i].1;
        assert(both[a.len() + i] == b[i]);
    }
    if covers(both, t) {
        let i = choose|i: int| 0 <= i < both.len() && (#[trigger] both[i]).0 <= t < both[i].1;
        if i < a.len() {
            assert(a[i] == both[i]);
        } else {
            assert(b[i - a.len()] == both[i]);
        }
    }
    if have_length(a) && have_length(b) {
        assert forall|i: int| 0 <= i < both.len() implies (#[trigger] both[i]).0 < both[i].1 by {
            if i < a.len() {
                assert(a[i].0 < a[i].1);
            } else {
                assert(b[i - a.len()].0 < b[i - a.len()].1);
            }
        }
    }
}

/// The downtime of macOS is the number of instants between `since` and `now` that
/// one source or the other covers. What both cover counts once.
pub proof fn law_macos_downtime(
    pmset: Result<(Vec<(u64, u64)>, u64), String>,
    last: Result<(Vec<(u64, u64)>, u64), String>,
    since: u64,
    now: u64,
)
    ensures
        ({
            let w = coalesced(windows_of(pmset) + windows_of(last));
            let down = down_instants(windows_of(pmset), since, now) + down_instants(
                windows_of(last),
                since,
                now,
            );
            down.finite() && total(clipped(w, since, now)) == down.len()
        }),
{
    let w = coalesced(windows_of(pmset) + windows_of(last));
    let down = down_instants(windows_of(pmset), since, now) + down_instants(
        windows_of(last),
        since,
        now,
    );
    law_coalesce_separates(windows_of(pmset) + windows_of(last));
    law_total_counts_instants(w, since, now);
    assert forall|t: int| #[trigger] down.contains(t) <==> down_instants(w, since, now).contains(
        t,
    ) by {
        law_macos_windows(pmset, last, t);
    }
    assert(down =~= down_instants(w, since, now));
}

/// If no window of either source begins before its oldest instant, no window of
/// macOS begins before the oldest instant that is answered with.
pub proof fn law_macos_oldest(
    pmset: Result<(Vec<(u64, u64)>, u64), String>,
    last: Result<(Vec<(u64, u64)>, u64), String>,
)
    requires
        none_before(windows_of(pmset), oldest_of(pmset)),
        none_before(windows_of(last), oldest_of(last)),
    ensures
        none_before(
            coalesced(windows_of(pmset) + windows_of(last)),
            sooner(oldest_of(pmset), oldest_of(last)),
        ),
{
    let (a, b) = (windows_of(pmset), windows_of(last));
    let both = a + b;
    let oldest = sooner(oldest_of(pmset), oldest_of(last));
    assert forall|i: int| 0 <= i < both.len() implies oldest <= (#[trigger] both[i]).0 by {
        if i < a.len() {
            assert(oldest_of(pmset) <= a[i].0);
        } else {
            assert(oldest_of(last) <= b[i - a.len()].0);
        }
    }
    law_coalesce_within(both, oldest, u64::MAX);
}

/// What a source answered with is told as it was answered: its windows and its oldest
/// instant. One that complained has no windows, and its oldest instant is later than
/// any; its complaint stands under its name.
pub proof fn law_sources(w: Vec<(u64, u64)>, oldest: u64, complaint: String, name: Seq<char>)
    ensures
        ({
            let known = Ok::<(Vec<(u64, u64)>, u64), String>((w, oldest));
            let unknown = Err::<(Vec<(u64, u64)>, u64), String>(complaint);
            &&& windows_of(known) == w@ && oldest_of(known) == oldest
            &&& complaint_of(name, known).len() == 0
            &&& windows_of(unknown).len() == 0
            &&& forall|t: u64| t <= #[trigger] sooner(oldest_of(unknown), t)
            &&& complaint_of(name, unknown) == seq![name + complaint@]
        }),
{
}

/// The earlier of two instants is one of them, and neither is before it.
pub proof fn law_sooner(a: u64, b: u64)
    ensures
        sooner(a, b) <= a,
        sooner(a, b) <= b,
        sooner(a, b) == a || sooner(a, b) == b,
{
}

/// If both sources complain, the complaint names both, the power log first.
pub proof fn law_complaints(pmset: String, last: String)
    ensures
        ({
            let a = Err::<(Vec<(u64, u64)>, u64), String>(pmset);
            let b = Err::<(Vec<(u64, u64)>, u64), String>(last);
            join(complaint_of("pmset: "@, a) + complaint_of("last: "@, b), "; "@) == "pmset: "@
                + pmset@ + "; "@ + ("last: "@ + last@)
        }),
{
    let (x, y) = ("pmset: "@ + pmset@, "last: "@ + last@);
    law_join(seq![x], seq![y], x, "; "@);
    law_join(seq![x], seq![y], y, "; "@);
}

/// What the program says if no source works has the whole reason in it, on lines of
/// its own.
pub proof fn law_no_backend_text(reason: Seq<char>)
    ensures
        no_backend_text(reason) == "downtime: can't determine downtime windows.\n"@ + (reason + (
        "\n"@
            + "downtime: needs journalctl (linux+systemd) or pmset (macOS). neither was happy.\n"@)),
{
    assert(no_backend_text(reason) =~= "downtime: can't determine downtime windows.\n"@ + (reason + (
    "\n"@ + "downtime: needs journalctl (linux+systemd) or pmset (macOS). neither was happy.\n"@)));
}

} // verus!
