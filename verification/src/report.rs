//! The words of the report.

use vstd::prelude::*;
use crate::downtime::{Downtime, Finding};
use crate::number::{decimal, digit_char, digit_value, is_digit, law_decimal_is_shortest};
use crate::number::{law_decimal_reads_back, numeral_value, write_u64};
use crate::text::{join, join_texts, texts};

verus! {

/// The share of the range for which the machine was down, as the report words
/// it.
#[derive(Debug, PartialEq, Eq)]
pub struct Share {
    /// Whether it is at most half a percent.
    pub at_most_half_percent: bool,
    /// The percentage, written with one decimal place.
    pub percent: String,
}

/// A number of units, or nothing if there are none.
pub open spec fn part(n: u64, unit: Seq<char>) -> Seq<Seq<char>> {
    if n > 0 {
        seq![decimal(n as nat) + unit]
    } else {
        Seq::empty()
    }
}

/// A duration in days, hours, minutes and seconds; units of which there are none
/// are left out, except that no time at all is zero seconds.
pub open spec fn pretty_parts(secs: u64) -> Seq<Seq<char>> {
    let large = part(secs / 86400, "d"@) + part((secs % 86400) / 3600, "h"@) + part(
        (secs % 3600) / 60,
        "m"@,
    );
    if secs % 60 > 0 || large.len() == 0 {
        large.push(decimal((secs % 60) as nat) + "s"@)
    } else {
        large
    }
}

/// A duration in words.
pub open spec fn pretty(secs: u64) -> Seq<char> {
    join(pretty_parts(secs), " "@)
}

/// A number of units.
fn count(n: u64, unit: &str) -> (r: String)
    ensures
        r@ == decimal(n as nat) + unit@,
{
    let mut r = write_u64(n);
    r.append(unit);
    r
}

/// Words a duration given in seconds.
pub fn fmt_pretty(secs: u64) -> (r: String)
    ensures
        r@ == pretty(secs),
{
    let d: u64 = secs / 86400;
    let h: u64 = (secs % 86400) / 3600;
    let m: u64 = (secs % 3600) / 60;
    let s: u64 = secs % 60;
    let mut parts: Vec<String> = Vec::new();
    if d > 0 {
        parts.push(count(d, "d"));
    }
    assert(texts(parts@) =~= part(d, "d"@));
    if h > 0 {
        parts.push(count(h, "h"));
    }
    assert(texts(parts@) =~= part(d, "d"@) + part(h, "h"@));
    if m > 0 {
        parts.push(count(m, "m"));
    }
    assert(texts(parts@) =~= part(d, "d"@) + part(h, "h"@) + part(m, "m"@));
    if s > 0 || parts.len() == 0 {
        parts.push(count(s, "s"));
    }
    assert(texts(parts@) =~= pretty_parts(secs));
    join_texts(&parts, " ")
}

/// How good the share is.
pub open spec fn qualifier(share: Share) -> Seq<char> {
    if share.at_most_half_percent {
        "more reliable than github"@
    } else {
        "over "@ + share.percent@ + "%"@
    }
}

/// The ending of a plural.
pub open spec fn plural(n: int) -> Seq<char> {
    if n == 1 {
        Seq::empty()
    } else {
        "s"@
    }
}

/// What the detailed report says of the windows.
pub open spec fn windows_text(d: Downtime, share: Share) -> Seq<char> {
    if d.clipped@.len() == 0 {
        "no recorded downtime since the requested time. show-off.\n"@
    } else {
        "downtime: "@ + pretty(d.total_us / 1_000_000) + " ("@ + qualifier(share)
            + ")\nacross "@ + decimal(d.clipped@.len()) + " window"@ + plural(
            d.clipped@.len() as int,
        ) + ".\n"@
    }
}

/// What the detailed report says of the time before the oldest known instant.
pub open spec fn horizon_text(d: Downtime, oldest: Seq<char>) -> Seq<char> {
    if d.truncated {
        "(only known back to "@ + oldest + "; older downtime is invisible to us.)\n"@
    } else {
        Seq::empty()
    }
}

/// The whole report.
pub open spec fn report_text(
    finding: Finding,
    detailed: bool,
    share: Share,
    oldest: Seq<char>,
) -> Seq<char> {
    match finding {
        Finding::Future =>
            "you're asking about downtime in the future. it's not down then either.\n(probably. don't quote me on that.)\n"@,
        Finding::Past(d) => if detailed {
            windows_text(d, share) + horizon_text(d, oldest)
        } else {
            decimal((d.total_us / 1_000_000) as nat) + "\n"@
        },
    }
}

/// Writes the report. Only the detailed one speaks of the share and, if the range
/// reaches back too far, of the oldest known instant, worded by `oldest`.
pub fn report(finding: &Finding, detailed: bool, share: &Share, oldest: &str) -> (r: String)
    ensures
        r@ == report_text(*finding, detailed, *share, oldest@),
{
    match finding {
        Finding::Future => {
            "you're asking about downtime in the future. it's not down then either.\n(probably. don't quote me on that.)\n".to_owned()
        },
        Finding::Past(d) => {
            let total_secs: u64 = d.total_us / 1_000_000;
            if !detailed {
                return count(total_secs, "\n");
            }
            let mut r = if d.clipped.len() == 0 {
                "no recorded downtime since the requested time. show-off.\n".to_owned()
            } else {
                let mut r = "downtime: ".to_owned();
                r.append(fmt_pretty(total_secs).as_str());
                r.append(" (");
                if share.at_most_half_percent {
                    r.append("more reliable than github");
                } else {
                    let mut q = "over ".to_owned();
                    q.append(share.percent.as_str());
                    q.append("%");
                    r.append(q.as_str());
                }
                r.append(")\nacross ");
                r.append(write_u64(d.clipped.len() as u64).as_str());
                r.append(" window");
                let ghost so_far = r@;
                if d.clipped.len() != 1 {
                    r.append("s");
                }
                assert(r@ =~= so_far + plural(d.clipped@.len() as int));
                r.append(".\n");
                r
            };
            let ghost first = r@;
            if d.truncated {
                let mut h = "(only known back to ".to_owned();
                h.append(oldest);
                h.append("; older downtime is invisible to us.)\n");
                r.append(h.as_str());
            }
            assert(r@ =~= first + horizon_text(*d, oldest@));
            r
        },
    }
}

/// The instant whose words a report needs, in seconds since the epoch: the oldest
/// known one, if the report is a detailed one on a range that reaches back too far.
pub fn words_due(finding: &Finding, detailed: bool) -> (r: Option<u64>)
    ensures
        r == match finding {
            Finding::Past(d) => if detailed && d.truncated {
                Some((d.oldest_known / 1_000_000) as u64)
            } else {
                None
            },
            Finding::Future => None,
        },
        r matches Some(secs) ==> (finding matches Finding::Past(d) && secs * 1_000_000
            <= d.oldest_known < (secs + 1) * 1_000_000),
{
    match finding {
        Finding::Past(d) => if detailed && d.truncated {
            Some(d.oldest_known / 1_000_000)
        } else {
            None
        },
        Finding::Future => None,
    }
}

/// Reads a duration in words: the seconds of the units so far, and the number
/// that has begun.
pub open spec fn scan(s: Seq<char>) -> (int, int)
    decreases s.len(),
{
    if s.len() == 0 {
        (0, 0)
    } else {
        let (sum, n) = scan(s.drop_last());
        let c = s.last();
        if is_digit(c) {
            (sum, 10 * n + digit_value(c))
        } else if c == 'd' {
            (sum + n * 86400, 0)
        } else if c == 'h' {
            (sum + n * 3600, 0)
        } else if c == 'm' {
            (sum + n * 60, 0)
        } else if c == 's' {
            (sum + n, 0)
        } else {
            (sum, n)
        }
    }
}

/// Reading on over one more character.
proof fn lemma_scan_push(s: Seq<char>, c: char)
    ensures
        scan(s.push(c)) == ({
            let (sum, n) = scan(s);
            if is_digit(c) {
                (sum, 10 * n + digit_value(c))
            } else if c == 'd' {
                (sum + n * 86400, 0)
            } else if c == 'h' {
                (sum + n * 3600, 0)
            } else if c == 'm' {
                (sum + n * 60, 0)
            } else if c == 's' {
                (sum + n, 0)
            } else {
                (sum, n)
            }
        }),
{
    assert(s.push(c).drop_last() =~= s);
}

/// Reading on over a number.
proof fn lemma_scan_decimal(s: Seq<char>, n: nat)
    requires
        scan(s).1 == 0,
    ensures
        scan(s + decimal(n)) == (scan(s).0, n as int),
    decreases n,
{
    let digits = decimal(n);
    if n < 10 {
        lemma_scan_push(s, digits[0]);
        assert(s + digits =~= s.push(digits[0]));
    } else {
        lemma_scan_decimal(s, n / 10);
        let c = digit_char((n % 10) as int);
        lemma_scan_push(s + decimal(n / 10), c);
        assert(s + digits =~= (s + decimal(n / 10)).push(c));
    }
}

/// Reading on over a number of units, with or without a space before it.
proof fn lemma_scan_part(s: Seq<char>, n: nat, unit: char)
    requires
        scan(s).1 == 0,
        unit == 'd' || unit == 'h' || unit == 'm' || unit == 's',
    ensures
        ({
            let k: int = if unit == 'd' {
                86400
            } else if unit == 'h' {
                3600
            } else if unit == 'm' {
                60
            } else {
                1
            };
            &&& scan(s + (decimal(n) + seq![unit])) == (scan(s).0 + n * k, 0int)
            &&& scan(s + " "@ + (decimal(n) + seq![unit])) == (
                scan(s).0 + n * k,
                0int,
            )
        }),
{
    let digits = decimal(n);
    lemma_scan_decimal(s, n);
    lemma_scan_push(s + digits, unit);
    assert(s + (digits + seq![unit]) =~= (s + digits).push(unit));
    reveal_strlit(" ");
    let t = s + " "@;
    lemma_scan_push(s, ' ');
    assert(t =~= s.push(' '));
    lemma_scan_decimal(t, n);
    lemma_scan_push(t + digits, unit);
    assert(t + (digits + seq![unit]) =~= (t + digits).push(unit));
}

/// Reading on over one more part of a row of parts.
proof fn lemma_scan_join(parts: Seq<Seq<char>>, n: nat, unit: char)
    requires
        scan(join(parts, " "@)).1 == 0,
        unit == 'd' || unit == 'h' || unit == 'm' || unit == 's',
    ensures
        ({
            let k: int = if unit == 'd' {
                86400
            } else if unit == 'h' {
                3600
            } else if unit == 'm' {
                60
            } else {
                1
            };
            scan(join(parts.push(decimal(n) + seq![unit]), " "@)) == (
                scan(join(parts, " "@)).0 + n * k,
                0int,
            )
        }),
{
    let p = decimal(n) + seq![unit];
    let more = parts.push(p);
    let s = join(parts, " "@);
    lemma_scan_part(s, n, unit);
    assert(more.drop_last() =~= parts);
    if parts.len() == 0 {
        assert(s + p =~= p);
    }
}

/// A duration in words tells the duration: reading the words gives the seconds
/// back, so no two durations are worded alike.
pub proof fn law_pretty_reads_back(secs: u64)
    ensures
        scan(pretty(secs)) == (secs as int, 0int),
{
    reveal_strlit("d");
    reveal_strlit("h");
    reveal_strlit("m");
    reveal_strlit("s");
    assert("d"@ =~= seq!['d']);
    assert("h"@ =~= seq!['h']);
    assert("m"@ =~= seq!['m']);
    assert("s"@ =~= seq!['s']);
    let d = secs / 86400;
    let h = (secs % 86400) / 3600;
    let m = (secs % 3600) / 60;
    let s = secs % 60;
    assert(secs == d * 86400 + h * 3600 + m * 60 + s) by {
        let r = (secs % 86400) as int;
        assert(secs == d * 86400 + r);
        assert(r % 3600 == secs % 3600);
        assert(r == h * 3600 + r % 3600);
        assert((secs % 3600) % 60 == secs % 60);
    }
    let p0 = Seq::<Seq<char>>::empty();
    assert(scan(join(p0, " "@)) == (0int, 0int));
    let p1 = part(d, "d"@);
    if d > 0 {
        lemma_scan_join(p0, d as nat, 'd');
        assert(p1 =~= p0.push(decimal(d as nat) + seq!['d']));
    } else {
        assert(p1 =~= p0);
    }
    let p2 = p1 + part(h, "h"@);
    if h > 0 {
        lemma_scan_join(p1, h as nat, 'h');
        assert(p2 =~= p1.push(decimal(h as nat) + seq!['h']));
    } else {
        assert(p2 =~= p1);
    }
    let p3 = p2 + part(m, "m"@);
    if m > 0 {
        lemma_scan_join(p2, m as nat, 'm');
        assert(p3 =~= p2.push(decimal(m as nat) + seq!['m']));
    } else {
        assert(p3 =~= p2);
    }
    if s > 0 || p3.len() == 0 {
        lemma_scan_join(p3, s as nat, 's');
        assert(pretty_parts(secs) =~= p3.push(decimal(s as nat) + seq!['s']));
    } else {
        assert(pretty_parts(secs) =~= p3);
    }
}

/// The short report reads back: it is a number in digits and a line feed, and the
/// number is that of the whole seconds in the total.
pub proof fn law_short_report(d: Downtime, share: Share, oldest: Seq<char>)
    ensures
        ({
            let text = report_text(Finding::Past(d), false, share, oldest);
            let digits = text.drop_last();
            let n = numeral_value(digits);
            &&& text.len() > 1 && text.last() == '\n'
            &&& forall|i: int| 0 <= i < digits.len() ==> '0' <= #[trigger] digits[i] <= '9'
            &&& digits[0] == '0' ==> digits.len() == 1
            &&& n * 1_000_000 <= d.total_us < (n + 1) * 1_000_000
        }),
{
    reveal_strlit("\n");
    let secs = d.total_us / 1_000_000;
    let digits = decimal(secs as nat);
    law_decimal_reads_back(secs);
    law_decimal_is_shortest(secs as nat);
    let text = report_text(Finding::Past(d), false, share, oldest);
    assert(text.drop_last() =~= digits);
    assert forall|i: int| 0 <= i < digits.len() implies '0' <= #[trigger] digits[i] <= '9' by {
        assert(is_digit(digits[i]));
    }
}

/// The long report tells the duration of the whole seconds in the total, the share, the
/// number of windows, and how far back it knows. `secs` stands for the whole seconds.
pub proof fn law_long_report(d: Downtime, share: Share, oldest: Seq<char>, secs: u64)
    requires
        secs * 1_000_000 <= d.total_us < (secs + 1) * 1_000_000,
    ensures
        report_text(Finding::Past(d), true, share, oldest) == (if d.clipped@.len() == 0 {
            "no recorded downtime since the requested time. show-off.\n"@
        } else {
            "downtime: "@ + pretty(secs) + " ("@ + (if share.at_most_half_percent {
                "more reliable than github"@
            } else {
                "over "@ + share.percent@ + "%"@
            }) + ")\nacross "@ + decimal(d.clipped@.len()) + " window"@ + (if d.clipped@.len() == 1 {
                Seq::<char>::empty()
            } else {
                "s"@
            }) + ".\n"@
        }) + (if d.truncated {
            "(only known back to "@ + oldest + "; older downtime is invisible to us.)\n"@
        } else {
            Seq::<char>::empty()
        }),
{
    assert(d.total_us / 1_000_000 == secs);
}

/// Of an instant that has not come, the long report and the short one say the same,
/// whatever the share and the oldest instant.
pub proof fn law_future_report(
    detailed: bool,
    share: Share,
    oldest: Seq<char>,
    other_share: Share,
    other_oldest: Seq<char>,
)
    ensures
        report_text(Finding::Future, detailed, share, oldest) == report_text(
            Finding::Future,
            !detailed,
            other_share,
            other_oldest,
        ),
        report_text(Finding::Future, detailed, share, oldest)
            == "you're asking about downtime in the future. it's not down then either.\n(probably. don't quote me on that.)\n"@,
{
}

/// A duration is worded by its units: so many days, hours below a day, minutes below
/// an hour and seconds below a minute, each if there are any, with a space between.
/// No time at all is zero seconds.
pub proof fn law_pretty_of_units(days: u64, hours: u64, minutes: u64, seconds: u64, secs: u64)
    requires
        hours < 24,
        minutes < 60,
        seconds < 60,
        secs == days * 86400 + hours * 3600 + minutes * 60 + seconds,
    ensures
        ({
            let d = if days > 0 {
                seq![decimal(days as nat) + "d"@]
            } else {
                Seq::<Seq<char>>::empty()
            };
            let h = if hours > 0 {
                seq![decimal(hours as nat) + "h"@]
            } else {
                Seq::<Seq<char>>::empty()
            };
            let m = if minutes > 0 {
                seq![decimal(minutes as nat) + "m"@]
            } else {
                Seq::<Seq<char>>::empty()
            };
            let s = if seconds > 0 || secs == 0 {
                seq![decimal(seconds as nat) + "s"@]
            } else {
                Seq::<Seq<char>>::empty()
            };
            pretty(secs) == join(d + h + m + s, " "@)
        }),
{
    assert(secs / 86400 == days);
    assert(secs % 86400 == hours * 3600 + minutes * 60 + seconds);
    assert((secs % 86400) / 3600 == hours);
    assert(secs % 3600 == minutes * 60 + seconds);
    assert((secs % 3600) / 60 == minutes);
    assert(secs % 60 == seconds);
    let large = part(days, "d"@) + part(hours, "h"@) + part(minutes, "m"@);
    let s = decimal(seconds as nat) + "s"@;
    if seconds > 0 || secs == 0 {
        assert(large.push(s) =~= large + seq![s]);
    } else {
        assert(large.len() > 0);
        assert(large + Seq::<Seq<char>>::empty() =~= large);
    }
}

} // verus!
