//! Sleep windows from the power log of macOS (`pmset -g log`).

use vstd::prelude::*;
use vstd::slice::slice_subrange;
use crate::calendar::{days_since_epoch, epoch_days, is_date, law_later_dates_count_more};
use crate::command::{CommandOutcome, Invocation};
use crate::number::{is_digit, is_numeral, numeral_value, parse_i64, read_i64};
use crate::text::{byte_len, chars_of, cut, cut_at, equal_to, find_char, first_line, first_word};
use crate::text::{law_bytes_are_utf8, lemma_cut, lemma_find_from, lines, same_text, takes_bytes, width};
use crate::text::{without_return, word_at_start};
use crate::windows::{have_length, in_order, none_after, none_before};

verus! {

/// The number in columns `a` to `b` of a line.
pub open spec fn column(s: Seq<char>, a: int, b: int) -> Option<i64> {
    parse_i64(s.subrange(a, b))
}

/// Whether a text begins with a date, a time of day and the sign of a zone
/// offset: `YYYY-MM-DD HH:MM:SS ±`.
pub open spec fn stamp_begins(s: Seq<char>) -> bool {
    &&& s.len() >= 21
    &&& s[4] == '-' && s[7] == '-' && s[10] == ' ' && s[13] == ':' && s[16] == ':' && s[19] == ' '
    &&& column(s, 0, 4) is Some && column(s, 5, 7) is Some && column(s, 8, 10) is Some
    &&& column(s, 11, 13) is Some && column(s, 14, 16) is Some && column(s, 17, 19) is Some
    &&& s[20] == '+' || s[20] == '-'
}

/// Whether a text is a time stamp, `YYYY-MM-DD HH:MM:SS ±ZZZZ`.
pub open spec fn is_stamp(s: Seq<char>) -> bool {
    s.len() == 25 && stamp_begins(s) && column(s, 21, 23) is Some && column(s, 23, 25) is Some
}

/// The instant that a time stamp denotes, in seconds since the epoch.
pub open spec fn stamp_secs(s: Seq<char>) -> int {
    let days = epoch_days(
        column(s, 0, 4)->0 as int,
        column(s, 5, 7)->0 as int,
        column(s, 8, 10)->0 as int,
    );
    let local = days * 86400 + column(s, 11, 13)->0 * 3600 + column(s, 14, 16)->0 * 60 + column(
        s,
        17,
        19,
    )->0;
    let offset = column(s, 21, 23)->0 * 3600 + column(s, 23, 25)->0 * 60;
    if s[20] == '+' {
        local - offset
    } else {
        local + offset
    }
}

/// The instant that a text denotes, in microseconds since the epoch, if it is a
/// time stamp and not before the epoch.
pub open spec fn stamp_us(s: Seq<char>) -> Option<u64> {
    if is_stamp(s) && stamp_secs(s) >= 0 {
        Some((stamp_secs(s) * 1_000_000) as u64)
    } else {
        None
    }
}

/// Whether no character straddles the zone's minutes where they would be read:
/// at byte 23 of a 25-byte text that begins like a time stamp.
pub open spec fn stamp_divides(s: Seq<char>) -> bool {
    byte_len(s) == 25 && stamp_begins(s) ==> cut(s, 23) is Some
}

/// Whether no character straddles the end of the stamp's column in a line.
pub open spec fn line_divides(line: Seq<char>) -> bool {
    byte_len(line) >= 25 ==> (cut(line, 25) matches Some(k) && stamp_divides(line.take(k)))
}

/// Whether every line of a log divides.
pub open spec fn log_divides(log: Seq<char>) -> bool {
    forall|i: int| 0 <= i < lines(log).len() ==> line_divides(#[trigger] lines(log)[i])
}

/// A number in `n` columns has at most `n` digits.
proof fn lemma_column_range(s: Seq<char>)
    requires
        is_numeral(s),
    ensures
        0 <= numeral_value(s),
        s.len() <= 1 ==> numeral_value(s) <= 9,
        s.len() <= 2 ==> numeral_value(s) <= 99,
        s.len() <= 3 ==> numeral_value(s) <= 999,
        s.len() <= 4 ==> numeral_value(s) <= 9999,
    decreases s.len(),
{
    let d = s.drop_last();
    assert(is_digit(s[s.len() - 1]));
    if d.len() == 0 {
        assert(numeral_value(d) == 0);
    } else {
        assert forall|i: int| 0 <= i < d.len() implies is_digit(#[trigger] d[i]) by {
            assert(is_digit(s[i]));
        }
        lemma_column_range(d);
    }
}

/// Reads the number in columns `a` to `b`.
fn read_column(s: &[char], a: usize, b: usize) -> (r: Option<i64>)
    requires
        a <= b <= s@.len(),
    ensures
        r == column(s@, a as int, b as int),
        b - a == 2 ==> (r matches Some(n) ==> -9 <= n <= 99),
        b - a == 4 ==> (r matches Some(n) ==> -999 <= n <= 9999),
{
    let part = slice_subrange(s, a, b);
    let r = read_i64(part);
    proof {
        let p = part@;
        if r is Some {
            let digits = if p.len() > 0 && (p[0] == '+' || p[0] == '-') {
                p.skip(1)
            } else {
                p
            };
            lemma_column_range(digits);
        }
    }
    r
}

/// Whether characters begin with a date, a time of day and the sign of a zone
/// offset.
fn begins_like_stamp(s: &[char]) -> (b: bool)
    ensures
        b == stamp_begins(s@),
{
    if s.len() < 21 || s[4] != '-' || s[7] != '-' || s[10] != ' ' {
        return false;
    }
    if s[13] != ':' || s[16] != ':' || s[19] != ' ' {
        return false;
    }
    if read_column(s, 0, 4).is_none() || read_column(s, 5, 7).is_none() || read_column(
        s,
        8,
        10,
    ).is_none() {
        return false;
    }
    if read_column(s, 11, 13).is_none() || read_column(s, 14, 16).is_none() || read_column(
        s,
        17,
        19,
    ).is_none() {
        return false;
    }
    s[20] == '+' || s[20] == '-'
}

/// Reads a time stamp out of characters.
fn read_stamp(s: &[char]) -> (r: Option<u64>)
    ensures
        r == stamp_us(s@),
{
    if s.len() != 25 || !begins_like_stamp(s) {
        return None;
    }
    let y = read_column(s, 0, 4)?;
    let mo = read_column(s, 5, 7)?;
    let d = read_column(s, 8, 10)?;
    let h = read_column(s, 11, 13)?;
    let mi = read_column(s, 14, 16)?;
    let se = read_column(s, 17, 19)?;
    let tz_h = read_column(s, 21, 23)?;
    let tz_m = read_column(s, 23, 25)?;
    let days: i64 = days_since_epoch(y, mo, d);
    let local_secs: i64 = days * 86400 + h * 3600 + mi * 60 + se;
    let offset: i64 = tz_h * 3600 + tz_m * 60;
    let utc_secs: i64 = if s[20] == '+' {
        local_secs - offset
    } else {
        local_secs + offset
    };
    assert(utc_secs == stamp_secs(s@));
    if utc_secs < 0 {
        return None;
    }
    Some((utc_secs as u64) * 1_000_000)
}

/// Reads a time stamp such as `2026-04-25 14:30:21 -0700`, in microseconds
/// since the epoch. Anything else is none, and so is an instant before the
/// epoch.
pub fn parse_pmset_ts(s: &str) -> (r: Option<u64>)
    requires
        stamp_divides(s@),
    ensures
        r == stamp_us(s@),
{
    let v = chars_of(s);
    read_stamp(v.as_slice())
}

/// What a log has told so far: the windows that have closed, since when the
/// machine has been asleep, and the first time stamp.
#[verifier::ext_equal]
pub ghost struct PowerState {
    pub windows: Seq<(u64, u64)>,
    pub asleep_since: Option<u64>,
    pub oldest: Option<u64>,
}

/// The instant that a line is stamped with.
pub open spec fn line_stamp(line: Seq<char>) -> Option<u64> {
    if line.len() >= 25 {
        stamp_us(line.take(25))
    } else {
        None
    }
}

/// The kind of event that a line records: the first word behind its stamp.
pub open spec fn line_event(line: Seq<char>) -> Option<Seq<char>> {
    first_word(line.skip(25))
}

/// The state before the first line.
pub open spec fn no_power_events() -> PowerState {
    PowerState { windows: Seq::empty(), asleep_since: None, oldest: None }
}

/// The state after one more line. A line without a stamp tells nothing. The
/// first `Sleep` opens a window, which the next `Wake` closes; the window
/// counts if it has a length.
pub open spec fn power_step(st: PowerState, line: Seq<char>) -> PowerState {
    match line_stamp(line) {
        None => st,
        Some(t) => {
            let oldest = if st.oldest is None {
                Some(t)
            } else {
                st.oldest
            };
            if line_event(line) == Some("Sleep"@) {
                PowerState {
                    oldest,
                    asleep_since: if st.asleep_since is None {
                        Some(t)
                    } else {
                        st.asleep_since
                    },
                    ..st
                }
            } else if line_event(line) == Some("Wake"@) {
                PowerState {
                    oldest,
                    asleep_since: None,
                    windows: match st.asleep_since {
                        Some(s) => if t > s {
                            st.windows.push((s, t))
                        } else {
                            st.windows
                        },
                        None => st.windows,
                    },
                }
            } else {
                PowerState { oldest, ..st }
            }
        },
    }
}

/// The state after a log's lines.
pub open spec fn power_state(lines: Seq<Seq<char>>) -> PowerState
    decreases lines.len(),
{
    if lines.len() == 0 {
        no_power_events()
    } else {
        power_step(power_state(lines.drop_last()), lines.last())
    }
}

/// What a power log says: its sleep windows and its first time stamp. A log
/// without a time stamp is an error.
pub open spec fn log_says(log: Seq<char>, r: Result<(Vec<(u64, u64)>, u64), String>) -> bool {
    let st = power_state(lines(log));
    match r {
        Ok((windows, oldest)) => st.oldest == Some(oldest) && windows@ == st.windows,
        Err(e) => st.oldest is None && e@ == "pmset log had no parseable entries"@,
    }
}

/// Reads the sleep windows out of a power log.
pub fn parse_pmset_log(log: &str) -> (r: Result<(Vec<(u64, u64)>, u64), String>)
    requires
        log_divides(log@),
    ensures
        log_says(log@, r),
{
    let mut wins: Vec<(u64, u64)> = Vec::new();
    let mut sleep_start: Option<u64> = None;
    let mut oldest: Option<u64> = None;
    let all = chars_of(log);
    let mut rest: &[char] = all.as_slice();
    let ghost mut seen: Seq<Seq<char>> = Seq::empty();
    assert(seen + lines(rest@) =~= lines(log@));
    while rest.len() > 0
        invariant
            seen + lines(rest@) == lines(log@),
            power_state(seen) == (PowerState { windows: wins@, asleep_since: sleep_start, oldest }),
        decreases rest@.len(),
    {
        let (line, after) = first_line(rest);
        proof {
            let so_far = seen.push(line@);
            assert(so_far.drop_last() =~= seen);
            assert(so_far + lines(after@) =~= seen + lines(rest@));
            seen = so_far;
        }
        rest = after;
        if line.len() < 25 {
            continue ;
        }
        assert(line@.subrange(0, 25) =~= line@.take(25));
        assert(line@.subrange(25, line@.len() as int) =~= line@.skip(25));
        let ts = match read_stamp(slice_subrange(line, 0, 25)) {
            Some(ts) => ts,
            None => continue ,
        };
        if oldest.is_none() {
            oldest = Some(ts);
        }
        match word_at_start(slice_subrange(line, 25, line.len())) {
            Some(domain) => {
                if same_text(domain, "Sleep") {
                    if sleep_start.is_none() {
                        sleep_start = Some(ts);
                    }
                } else if same_text(domain, "Wake") {
                    if let Some(s) = sleep_start {
                        if ts > s {
                            wins.push((s, ts));
                        }
                    }
                    sleep_start = None;
                }
            },
            None => {},
        }
    }
    assert(seen =~= lines(log@));
    match oldest {
        Some(oldest) => Ok((wins, oldest)),
        None => Err("pmset log had no parseable entries".to_owned()),
    }
}

/// Whether every line of a log divides.
pub fn pmset_log_divides(log: &str) -> (b: bool)
    ensures
        b == log_divides(log@),
{
    let all = chars_of(log);
    let mut rest: &[char] = all.as_slice();
    let ghost mut seen: Seq<Seq<char>> = Seq::empty();
    assert(seen + lines(rest@) =~= lines(log@));
    while rest.len() > 0
        invariant
            seen + lines(rest@) == lines(log@),
            forall|i: int| 0 <= i < seen.len() ==> line_divides(#[trigger] seen[i]),
        decreases rest@.len(),
    {
        let (line, after) = first_line(rest);
        proof {
            let so_far = seen.push(line@);
            assert(so_far + lines(after@) =~= seen + lines(rest@));
            assert(lines(log@)[seen.len() as int] == line@);
            lemma_cut(line@, 25);
            seen = so_far;
        }
        rest = after;
        if takes_bytes(line, 25) {
            match cut_at(line, 25) {
                Some(k) => {
                    assert(line@.subrange(0, k as int) =~= line@.take(k as int));
                    let stamp = slice_subrange(line, 0, k);
                    if begins_like_stamp(stamp) && cut_at(stamp, 23).is_none() {
                        return false;
                    }
                },
                None => {
                    return false;
                },
            }
        }
    }
    assert(seen =~= lines(log@));
    true
}

/// The command that prints the power log.
pub fn pmset_command() -> (r: Invocation)
    ensures
        r.words() == seq!["pmset"@, "-g"@, "log"@],
{
    let r = Invocation::new("pmset").arg("-g").arg("log");
    assert(r.words() =~= seq!["pmset"@, "-g"@, "log"@]);
    r
}

/// The sleep windows and the oldest entry, from a run of `pmset -g log`.
pub fn macos_pmset_windows(out: &CommandOutcome) -> (r: Result<(Vec<(u64, u64)>, u64), String>)
    requires
        out.printed() matches Some(log) ==> log_divides(log),
    ensures
        match out.printed() {
            Some(log) => log_says(log, r),
            None => r matches Err(e) && e@ == out.complaint("pmset"@),
        },
{
    match out.output_of("pmset") {
        Ok(log) => parse_pmset_log(log),
        Err(e) => Err(e),
    }
}

/// A run of one-byte characters is cut at its end.
proof fn lemma_one_byte_prefix(s: Seq<char>, n: int)
    requires
        0 <= n <= s.len(),
        forall|i: int| 0 <= i < n ==> width(#[trigger] s[i]) == 1,
    ensures
        cut(s, n) == Some(n),
        byte_len(s) >= n,
    decreases n,
{
    lemma_cut(s, n);
    if n > 0 {
        let rest = s.drop_first();
        assert(width(s[0]) == 1);
        assert forall|i: int| 0 <= i < n - 1 implies width(#[trigger] rest[i]) == 1 by {
            assert(rest[i] == s[i + 1]);
        }
        lemma_one_byte_prefix(rest, n - 1);
    }
}

/// The characters of a number take one byte each.
proof fn lemma_column_bytes(s: Seq<char>, a: int, b: int)
    requires
        0 <= a <= b <= s.len(),
        column(s, a, b) is Some,
    ensures
        forall|i: int| a <= i < b ==> width(#[trigger] s[i]) == 1,
{
    let p = s.subrange(a, b);
    assert forall|i: int| a <= i < b implies width(#[trigger] s[i]) == 1 by {
        assert(p[i - a] == s[i]);
        if p[0] == '+' || p[0] == '-' {
            if i > a {
                assert(is_digit(p.skip(1)[i - a - 1]));
            }
        } else {
            assert(is_digit(p[i - a]));
        }
    }
}

/// The stamp of a line that divides is what stands in its first 25 bytes: a
/// shorter line has none, and in a longer one the first 25 bytes hold the stamp
/// that the first 25 characters hold.
pub proof fn law_stamp_column(line: Seq<char>)
    requires
        line_divides(line),
    ensures
        byte_len(line) < 25 ==> line_stamp(line) is None,
        byte_len(line) >= 25 ==> line_stamp(line) == stamp_us(line.take(cut(line, 25)->0)),
{
    lemma_cut(line, 25);
    if line.len() >= 25 && is_stamp(line.take(25)) {
        let s = line.take(25);
        lemma_column_bytes(s, 0, 4);
        lemma_column_bytes(s, 5, 7);
        lemma_column_bytes(s, 8, 10);
        lemma_column_bytes(s, 11, 13);
        lemma_column_bytes(s, 14, 16);
        lemma_column_bytes(s, 17, 19);
        lemma_column_bytes(s, 21, 23);
        lemma_column_bytes(s, 23, 25);
        assert forall|i: int| 0 <= i < 25 implies width(#[trigger] line[i]) == 1 by {
            assert(s[i] == line[i]);
            assert(width(s[i]) == 1);
        }
        lemma_one_byte_prefix(line, 25);
    } else if let Some(k) = cut(line, 25) {
        if is_stamp(line.take(k)) {
            assert(k == 25);
        }
    }
}

/// A log in ASCII divides.
pub proof fn law_ascii_divides(log: Seq<char>)
    requires
        forall|i: int| 0 <= i < log.len() ==> width(#[trigger] log[i]) == 1,
    ensures
        log_divides(log),
    decreases log.len(),
{
    if log.len() > 0 {
        lemma_find_from(log, equal_to('\n'), 0);
        let (line, rest) = match find_char(log, '\n') {
            Some(i) => (without_return(log.take(i)), log.skip(i + 1)),
            None => (log, Seq::<char>::empty()),
        };
        assert(lines(log) =~= seq![line] + lines(rest));
        assert forall|i: int| 0 <= i < line.len() implies width(#[trigger] line[i]) == 1 by {
            assert(line[i] == log[i]);
        }
        assert(line_divides(line)) by {
            lemma_cut(line, 25);
            lemma_one_byte_len(line);
            if byte_len(line) >= 25 {
                lemma_one_byte_prefix(line, 25);
                let s = line.take(25);
                assert forall|i: int| 0 <= i < 23 implies width(#[trigger] s[i]) == 1 by {
                    assert(s[i] == line[i]);
                }
                lemma_one_byte_prefix(s, 23);
            }
        }
        assert forall|i: int| 0 <= i < rest.len() implies width(#[trigger] rest[i]) == 1 by {
            let k = log.len() - rest.len();
            assert(rest[i] == log[k + i]);
        }
        law_ascii_divides(rest);
        assert forall|i: int| 0 <= i < lines(log).len() implies line_divides(
            #[trigger] lines(log)[i],
        ) by {
            if i > 0 {
                assert(lines(log)[i] == lines(rest)[i - 1]);
            }
        }
    }
}

/// One-byte characters take as many bytes as they are.
proof fn lemma_one_byte_len(s: Seq<char>)
    requires
        forall|i: int| 0 <= i < s.len() ==> width(#[trigger] s[i]) == 1,
    ensures
        byte_len(s) == s.len(),
    decreases s.len(),
{
    if s.len() > 0 {
        let rest = s.drop_first();
        assert(width(s[0]) == 1);
        assert forall|i: int| 0 <= i < rest.len() implies width(#[trigger] rest[i]) == 1 by {
            assert(rest[i] == s[i + 1]);
        }
        lemma_one_byte_len(rest);
    }
}

/// Every sleep window has a length.
pub proof fn law_sleep_windows_have_length(lines: Seq<Seq<char>>)
    ensures
        have_length(power_state(lines).windows),
    decreases lines.len(),
{
    if lines.len() > 0 {
        law_sleep_windows_have_length(lines.drop_last());
    }
}

/// Whether the stamps of a log's lines never go back.
pub open spec fn stamps_ascend(lines: Seq<Seq<char>>) -> bool {
    forall|i: int, j: int|
        #![trigger line_stamp(lines[i]), line_stamp(lines[j])]
        0 <= i < j < lines.len() && line_stamp(lines[i]) is Some && line_stamp(lines[j]) is Some
            ==> line_stamp(lines[i])->0 <= line_stamp(lines[j])->0
}

/// In a log whose stamps never go back, the sleep windows follow one another
/// without overlap, and none begins before the oldest entry.
pub proof fn law_sleep_windows_in_order(lines: Seq<Seq<char>>)
    requires
        stamps_ascend(lines),
    ensures
        in_order(power_state(lines).windows),
        power_state(lines).windows.len() > 0 ==> power_state(lines).oldest is Some,
        power_state(lines).oldest matches Some(t) ==> none_before(power_state(lines).windows, t),
{
    lemma_power_order(lines);
}

/// What holds of the state of a log whose stamps never go back.
proof fn lemma_power_order(lines: Seq<Seq<char>>)
    requires
        stamps_ascend(lines),
    ensures
        ({
            let st = power_state(lines);
            &&& in_order(st.windows)
            &&& st.windows.len() > 0 || st.asleep_since is Some ==> st.oldest is Some
            &&& st.oldest matches Some(t) ==> none_before(st.windows, t)
            &&& st.asleep_since matches Some(s) ==> none_after(st.windows, s) && st.oldest->0 <= s
            &&& forall|t: u64|
                #![trigger not_after_stamps(lines, t)]
                not_after_stamps(lines, t) ==> none_after(st.windows, t) && (st.oldest is Some
                    ==> st.oldest->0 <= t) && (st.asleep_since is Some ==> st.asleep_since->0 <= t)
        }),
    decreases lines.len(),
{
    if lines.len() > 0 {
        let d = lines.drop_last();
        assert(stamps_ascend(d)) by {
            assert forall|i: int, j: int|
                #![trigger line_stamp(d[i]), line_stamp(d[j])]
                0 <= i < j < d.len() && line_stamp(d[i]) is Some && line_stamp(d[j])
                    is Some implies line_stamp(d[i])->0 <= line_stamp(d[j])->0 by {
                assert(line_stamp(lines[i])->0 <= line_stamp(lines[j])->0);
            }
        }
        lemma_power_order(d);
        if let Some(t) = line_stamp(lines.last()) {
            assert(not_after_stamps(d, t)) by {
                assert forall|i: int|
                    0 <= i < d.len() && line_stamp(#[trigger] d[i]) is Some implies line_stamp(
                    d[i],
                )->0 <= t by {
                    assert(line_stamp(lines[i])->0 <= line_stamp(lines[lines.len() - 1])->0);
                }
            }
        }
        assert forall|t: u64|
            #![trigger not_after_stamps(lines, t)]
            not_after_stamps(lines, t) implies not_after_stamps(d, t) && (line_stamp(
            lines.last(),
        ) is Some ==> line_stamp(lines.last())->0 <= t) by {
            assert forall|i: int|
                0 <= i < d.len() && line_stamp(#[trigger] d[i]) is Some implies line_stamp(d[i])->0
                <= t by {
                assert(line_stamp(lines[i]) is Some);
            }
            assert(lines[lines.len() - 1] == lines.last());
        }
    }
}

/// Whether no line is stamped later than `t`.
spec fn not_after_stamps(lines: Seq<Seq<char>>, t: u64) -> bool {
    forall|i: int|
        0 <= i < lines.len() && line_stamp(#[trigger] lines[i]) is Some ==> line_stamp(lines[i])->0
            <= t
}

/// Having a stamp.
pub open spec fn stamped() -> spec_fn(Seq<char>) -> bool {
    |line: Seq<char>| line_stamp(line) is Some
}

/// Lines without a stamp change nothing, wherever they stand: a log tells what its
/// stamped lines tell.
pub proof fn law_unstamped_lines_tell_nothing(lines: Seq<Seq<char>>)
    ensures
        power_state(lines) == power_state(lines.filter(stamped())),
    decreases lines.len(),
{
    reveal(Seq::filter);
    if lines.len() > 0 {
        let d = lines.drop_last();
        law_unstamped_lines_tell_nothing(d);
        let kept = d.filter(stamped());
        assert(kept.push(lines.last()).drop_last() =~= kept);
    }
}

/// The offset of a stamp's zone in seconds, as signed.
pub open spec fn zone_offset(s: Seq<char>) -> int {
    let offset = column(s, 21, 23)->0 * 3600 + column(s, 23, 25)->0 * 60;
    if s[20] == '+' {
        offset
    } else {
        -offset
    }
}

/// A zone shifts a stamp by its offset, as signed: the same date and time of day in
/// two zones are as far apart as the zones.
pub proof fn law_zone_shifts(a: Seq<char>, b: Seq<char>)
    requires
        is_stamp(a),
        is_stamp(b),
        a.take(20) == b.take(20),
    ensures
        stamp_secs(a) + zone_offset(a) == stamp_secs(b) + zone_offset(b),
{
    lemma_same_columns(a, b, 20);
}

/// Columns within what two texts have in common are equal.
proof fn lemma_same_columns(a: Seq<char>, b: Seq<char>, n: int)
    requires
        a.len() >= n,
        b.len() >= n,
        a.take(n) == b.take(n),
    ensures
        forall|x: int, y: int|
            0 <= x <= y <= n ==> #[trigger] a.subrange(x, y) == b.subrange(x, y),
{
    assert forall|x: int, y: int| 0 <= x <= y <= n implies #[trigger] a.subrange(x, y)
        == b.subrange(x, y) by {
        assert(a.subrange(x, y) =~= a.take(n).subrange(x, y));
        assert(b.subrange(x, y) =~= b.take(n).subrange(x, y));
    }
}

/// Whether a stamp gives a date of the calendar and a time of day, in digits.
pub open spec fn is_proper(s: Seq<char>) -> bool {
    &&& is_stamp(s)
    &&& is_numeral(s.subrange(0, 4)) && is_numeral(s.subrange(5, 7)) && is_numeral(s.subrange(8, 10))
    &&& is_numeral(s.subrange(11, 13)) && is_numeral(s.subrange(14, 16))
    &&& is_numeral(s.subrange(17, 19))
    &&& is_date(
        numeral_value(s.subrange(0, 4)),
        numeral_value(s.subrange(5, 7)),
        numeral_value(s.subrange(8, 10)),
    )
    &&& numeral_value(s.subrange(11, 13)) < 24 && numeral_value(s.subrange(14, 16)) < 60
    &&& numeral_value(s.subrange(17, 19)) < 60
}

/// Of two numerals of the same length, the one with the smaller digit at the first
/// difference is smaller.
proof fn lemma_numeral_order(s: Seq<char>, t: Seq<char>, p: int)
    requires
        is_numeral(s),
        is_numeral(t),
        s.len() == t.len(),
        0 <= p < s.len(),
        s.take(p) == t.take(p),
        s[p] < t[p],
    ensures
        numeral_value(s) < numeral_value(t),
    decreases s.len(),
{
    let (ds, dt) = (s.drop_last(), t.drop_last());
    let n = s.len() - 1;
    assert(is_digit(s[n]) && is_digit(t[n]));
    if p == n {
        assert(ds =~= s.take(p) && dt =~= t.take(p));
    } else {
        assert forall|i: int| 0 <= i < n implies is_digit(#[trigger] ds[i]) by {
            assert(is_digit(s[i]));
        }
        assert forall|i: int| 0 <= i < n implies is_digit(#[trigger] dt[i]) by {
            assert(is_digit(t[i]));
        }
        assert(ds.take(p) =~= s.take(p) && dt.take(p) =~= t.take(p));
        lemma_numeral_order(ds, dt, p);
    }
}

/// How two columns compare whose texts first differ at `p`.
proof fn lemma_column_order(a: Seq<char>, b: Seq<char>, p: int, x: int, y: int)
    requires
        0 <= x < y <= a.len(),
        a.len() == b.len(),
        0 <= p < a.len(),
        a.take(p) == b.take(p),
        a[p] < b[p],
        is_numeral(a.subrange(x, y)),
        is_numeral(b.subrange(x, y)),
        y - x <= 4,
    ensures
        y <= p ==> numeral_value(a.subrange(x, y)) == numeral_value(b.subrange(x, y)),
        x <= p < y ==> numeral_value(a.subrange(x, y)) < numeral_value(b.subrange(x, y)),
        column(a, x, y) == Some(numeral_value(a.subrange(x, y)) as i64),
        column(b, x, y) == Some(numeral_value(b.subrange(x, y)) as i64),
        0 <= numeral_value(a.subrange(x, y)) <= 9999,
        0 <= numeral_value(b.subrange(x, y)) <= 9999,
{
    let (ca, cb) = (a.subrange(x, y), b.subrange(x, y));
    lemma_column_range(ca);
    lemma_column_range(cb);
    assert(is_digit(ca[0]) && is_digit(cb[0]));
    if y <= p {
        lemma_same_columns(a, b, p);
    } else if x <= p {
        assert(ca.take(p - x) =~= a.take(p).skip(x));
        assert(cb.take(p - x) =~= b.take(p).skip(x));
        lemma_numeral_order(ca, cb, p - x);
    }
}

/// In one zone, stamps of the calendar come in the order of their texts: the one
/// with the smaller character at the first difference is earlier.
pub proof fn law_stamps_order_as_texts(a: Seq<char>, b: Seq<char>, p: int)
    requires
        is_proper(a),
        is_proper(b),
        a.skip(19) == b.skip(19),
        0 <= p < 19,
        a.take(p) == b.take(p),
        a[p] < b[p],
    ensures
        stamp_secs(a) < stamp_secs(b),
{
    lemma_column_order(a, b, p, 0, 4);
    lemma_column_order(a, b, p, 5, 7);
    lemma_column_order(a, b, p, 8, 10);
    lemma_column_order(a, b, p, 11, 13);
    lemma_column_order(a, b, p, 14, 16);
    lemma_column_order(a, b, p, 17, 19);
    assert(a.subrange(21, 23) =~= a.skip(19).subrange(2, 4));
    assert(b.subrange(21, 23) =~= b.skip(19).subrange(2, 4));
    assert(a.subrange(23, 25) =~= a.skip(19).subrange(4, 6));
    assert(b.subrange(23, 25) =~= b.skip(19).subrange(4, 6));
    assert(a[20] == a.skip(19)[1] && b[20] == b.skip(19)[1]);
    let (ya, yb) = (numeral_value(a.subrange(0, 4)), numeral_value(b.subrange(0, 4)));
    let (ma, mb) = (numeral_value(a.subrange(5, 7)), numeral_value(b.subrange(5, 7)));
    let (da, db) = (numeral_value(a.subrange(8, 10)), numeral_value(b.subrange(8, 10)));
    if p < 10 {
        law_later_dates_count_more(ya, ma, da, yb, mb, db);
    }
}

/// Being a line whose first word behind the stamp is `Sleep` or `Wake`.
pub open spec fn sleep_or_wake() -> spec_fn(Seq<char>) -> bool {
    |line: Seq<char>|
        first_word(line.skip(25)) == Some("Sleep"@) || first_word(line.skip(25)) == Some("Wake"@)
}

/// Only `Sleep` and `Wake` tell of sleep: without the lines of any other event, a log
/// tells the same windows, and the same of whether the machine is asleep.
pub proof fn law_only_sleep_and_wake_count(lines: Seq<Seq<char>>)
    ensures
        power_state(lines).windows == power_state(lines.filter(sleep_or_wake())).windows,
        power_state(lines).asleep_since == power_state(lines.filter(sleep_or_wake())).asleep_since,
    decreases lines.len(),
{
    reveal(Seq::filter);
    if lines.len() > 0 {
        let d = lines.drop_last();
        law_only_sleep_and_wake_count(d);
        let kept = d.filter(sleep_or_wake());
        assert(kept.push(lines.last()).drop_last() =~= kept);
    }
}

/// The instant that the `i`-th line is stamped with.
pub open spec fn stamp_of(lines: Seq<Seq<char>>, i: int) -> Option<u64> {
    if lines[i].len() >= 25 {
        stamp_us(lines[i].take(25))
    } else {
        None
    }
}

/// Whether the `i`-th line is stamped and tells that the machine falls asleep.
pub open spec fn sleeps(lines: Seq<Seq<char>>, i: int) -> bool {
    stamp_of(lines, i) is Some && first_word(lines[i].skip(25)) == Some("Sleep"@)
}

/// Whether the `i`-th line is stamped and tells that the machine wakes up.
pub open spec fn wakes(lines: Seq<Seq<char>>, i: int) -> bool {
    stamp_of(lines, i) is Some && first_word(lines[i].skip(25)) == Some("Wake"@)
}

/// Whether the machine falls asleep at the `i`-th line out of being awake: it woke up
/// again after every earlier time that it fell asleep.
pub open spec fn falls_asleep(lines: Seq<Seq<char>>, i: int) -> bool {
    sleeps(lines, i) && forall|k: int|
        0 <= k < i && #[trigger] sleeps(lines, k) ==> exists|m: int|
            k < m < i && #[trigger] wakes(lines, m)
}

/// Whether the machine does not wake up between two lines.
pub open spec fn sleeps_on(lines: Seq<Seq<char>>, i: int, j: int) -> bool {
    forall|m: int| i < m < j ==> !#[trigger] wakes(lines, m)
}

/// Whether a window is the time from when the machine fell asleep at the `i`-th line to
/// when it next woke up, at the `j`-th.
pub open spec fn slept(lines: Seq<Seq<char>>, i: int, j: int, w: (u64, u64)) -> bool {
    &&& 0 <= i < j < lines.len()
    &&& falls_asleep(lines, i) && sleeps_on(lines, i, j) && wakes(lines, j)
    &&& stamp_of(lines, i) == Some(w.0) && stamp_of(lines, j) == Some(w.1)
    &&& w.0 < w.1
}

/// The sleep windows of a log are the times from each line at which the machine fell
/// asleep to the next line at which it woke up, and no others.
pub proof fn law_sleep_windows(lines: Seq<Seq<char>>, w: (u64, u64))
    ensures
        power_state(lines).windows.contains(w) <==> exists|i: int, j: int|
            #[trigger] slept(lines, i, j, w),
{
    lemma_sleep(lines);
    lemma_sleep_windows(lines, w);
}

/// The machine is asleep behind the last line if it has fallen asleep and not woken up
/// since; the instant is that of the line at which it fell asleep.
#[verifier::rlimit(40)]
proof fn lemma_sleep(lines: Seq<Seq<char>>)
    ensures
        match power_state(lines).asleep_since {
            Some(t) => exists|i: int|
                0 <= i < lines.len() && #[trigger] falls_asleep(lines, i) && sleeps_on(
                    lines,
                    i,
                    lines.len() as int,
                ) && stamp_of(lines, i) == Some(t),
            None => forall|k: int|
                0 <= k < lines.len() && #[trigger] sleeps(lines, k) ==> exists|m: int|
                    k < m < lines.len() && #[trigger] wakes(lines, m),
        },
    decreases lines.len(),
{
    if lines.len() > 0 {
        let d = lines.drop_last();
        let n = d.len() as int;
        lemma_sleep(d);
        lemma_prefix(lines);
        lemma_events_differ();
        let line = lines[n];
        assert(line == lines.last());
        match power_state(d).asleep_since {
            Some(t) => {
                let i = choose|i: int|
                    0 <= i < d.len() && #[trigger] falls_asleep(d, i) && sleeps_on(
                        d,
                        i,
                        d.len() as int,
                    ) && stamp_of(d, i) == Some(t);
                assert(falls_asleep(lines, i));
                if wakes(lines, n) {
                    assert forall|k: int|
                        0 <= k < lines.len() && #[trigger] sleeps(lines, k) implies exists|m: int|
                        k < m < lines.len() && #[trigger] wakes(lines, m) by {
                        assert(k != n);
                    }
                } else {
                    assert forall|m: int| i < m < lines.len() implies !#[trigger] wakes(
                        lines,
                        m,
                    ) by {
                        if m < n {
                            assert(!wakes(d, m));
                        }
                    }
                    assert(sleeps_on(lines, i, lines.len() as int));
                }
            },
            None => {
                assert forall|k: int| 0 <= k < n && #[trigger] sleeps(lines, k) implies exists|
                    m: int,
                |
                    k < m < n && #[trigger] wakes(lines, m) by {
                    assert(sleeps(d, k));
                    let m = choose|m: int| k < m < d.len() && #[trigger] wakes(d, m);
                    assert(wakes(lines, m));
                }
                if sleeps(lines, n) {
                    assert(falls_asleep(lines, n));
                    assert(sleeps_on(lines, n, lines.len() as int));
                }
            },
        }
    }
}

/// What lines tell does not depend on those behind them.
#[verifier::rlimit(40)]
proof fn lemma_prefix(lines: Seq<Seq<char>>)
    requires
        lines.len() > 0,
    ensures
        forall|i: int|
            0 <= i < lines.len() - 1 ==> #[trigger] sleeps(lines, i) == sleeps(lines.drop_last(), i),
        forall|i: int|
            0 <= i < lines.len() - 1 ==> #[trigger] wakes(lines, i) == wakes(lines.drop_last(), i),
        forall|i: int|
            0 <= i < lines.len() - 1 ==> #[trigger] stamp_of(lines, i) == stamp_of(
                lines.drop_last(),
                i,
            ),
        forall|i: int|
            0 <= i < lines.len() - 1 ==> #[trigger] falls_asleep(lines, i) == falls_asleep(
                lines.drop_last(),
                i,
            ),
{
    let d = lines.drop_last();
    assert forall|i: int| 0 <= i < d.len() implies #[trigger] sleeps(lines, i) == sleeps(d, i) by {
        assert(lines[i] == d[i]);
    }
    assert forall|i: int| 0 <= i < d.len() implies #[trigger] wakes(lines, i) == wakes(d, i) by {
        assert(lines[i] == d[i]);
    }
    assert forall|i: int| 0 <= i < d.len() implies #[trigger] falls_asleep(lines, i)
        == falls_asleep(d, i) by {
        if falls_asleep(lines, i) {
            assert forall|k: int| 0 <= k < i && #[trigger] sleeps(d, k) implies exists|m: int|
                k < m < i && #[trigger] wakes(d, m) by {
                assert(sleeps(lines, k));
                let m = choose|m: int| k < m < i && #[trigger] wakes(lines, m);
                assert(wakes(d, m));
            }
        }
        if falls_asleep(d, i) {
            assert forall|k: int| 0 <= k < i && #[trigger] sleeps(lines, k) implies exists|m: int|
                k < m < i && #[trigger] wakes(lines, m) by {
                assert(sleeps(d, k));
                let m = choose|m: int| k < m < i && #[trigger] wakes(d, m);
                assert(wakes(lines, m));
            }
        }
    }
}

/// Falling asleep is not waking up.
proof fn lemma_events_differ()
    ensures
        "Sleep"@ != "Wake"@,
{
    reveal_strlit("Sleep");
    reveal_strlit("Wake");
    assert("Sleep"@[0] == 'S' && "Wake"@[0] == 'W');
}

/// A time of sleep that ended before the last line does not depend on that line.
#[verifier::rlimit(40)]
proof fn lemma_slept_before(lines: Seq<Seq<char>>, i: int, j: int, w: (u64, u64))
    requires
        lines.len() > 0,
        j < lines.len() - 1,
    ensures
        slept(lines, i, j, w) == slept(lines.drop_last(), i, j, w),
{
    let d = lines.drop_last();
    if 0 <= i < j {
        lemma_prefix(lines);
        if sleeps_on(lines, i, j) {
            assert forall|m: int| i < m < j implies !#[trigger] wakes(d, m) by {
                assert(!wakes(lines, m));
            }
        }
        if sleeps_on(d, i, j) {
            assert forall|m: int| i < m < j implies !#[trigger] wakes(lines, m) by {
                assert(!wakes(d, m));
            }
        }
        assert(falls_asleep(lines, i) == falls_asleep(d, i));
        assert(wakes(lines, j) == wakes(d, j));
        assert(stamp_of(lines, i) == stamp_of(d, i));
        assert(stamp_of(lines, j) == stamp_of(d, j));
    }
}

/// The time of sleep that ends at the last line.
#[verifier::rlimit(40)]
proof fn lemma_slept_now(lines: Seq<Seq<char>>, w: (u64, u64))
    requires
        lines.len() > 0,
    ensures
        (exists|i: int| #[trigger] slept(lines, i, lines.len() - 1, w)) <==> (wakes(
            lines,
            lines.len() - 1,
        ) && power_state(lines.drop_last()).asleep_since == Some(w.0) && stamp_of(
            lines,
            lines.len() - 1,
        ) == Some(w.1) && w.0 < w.1),
{
    let d = lines.drop_last();
    let n = d.len() as int;
    lemma_sleep(d);
    lemma_prefix(lines);
    match power_state(d).asleep_since {
        Some(s) => {
            let i = choose|i: int|
                0 <= i < d.len() && #[trigger] falls_asleep(d, i) && sleeps_on(
                    d,
                    i,
                    d.len() as int,
                ) && stamp_of(d, i) == Some(s);
            assert(falls_asleep(lines, i));
            assert(stamp_of(lines, i) == stamp_of(d, i));
            assert forall|m: int| i < m < n implies !#[trigger] wakes(lines, m) by {
                assert(!wakes(d, m));
            }
            assert(sleeps_on(lines, i, n));
            if wakes(lines, n) && w.0 == s && stamp_of(lines, n) == Some(w.1) && w.0 < w.1 {
                assert(slept(lines, i, n, w));
            }
            assert forall|k: int| #[trigger] slept(lines, k, n, w) implies w.0 == s by {
                lemma_one_sleep(lines, i, k, n);
            }
        },
        None => {
            assert forall|k: int| !#[trigger] slept(lines, k, n, w) by {
                if slept(lines, k, n, w) {
                    assert(sleeps(lines, k));
                    assert(sleeps(d, k));
                    let m = choose|m: int| k < m < d.len() && #[trigger] wakes(d, m);
                    assert(wakes(lines, m));
                }
            }
        },
    }
}

/// Windows and the times of sleep, line by line.
#[verifier::rlimit(40)]
proof fn lemma_sleep_windows(lines: Seq<Seq<char>>, w: (u64, u64))
    ensures
        power_state(lines).windows.contains(w) <==> exists|i: int, j: int|
            #[trigger] slept(lines, i, j, w),
    decreases lines.len(),
{
    if lines.len() > 0 {
        let d = lines.drop_last();
        let n = d.len() as int;
        lemma_sleep_windows(d, w);
        lemma_slept_now(lines, w);
        let before = power_state(d).windows;
        let after = power_state(lines).windows;
        let ended = wakes(lines, n) && power_state(d).asleep_since == Some(w.0) && stamp_of(
            lines,
            n,
        ) == Some(w.1) && w.0 < w.1;
        assert(after.contains(w) <==> before.contains(w) || ended) by {
            lemma_window_added(lines, w);
        }
        if before.contains(w) {
            let (i, j) = choose|i: int, j: int| #[trigger] slept(d, i, j, w);
            lemma_slept_before(lines, i, j, w);
            assert(slept(lines, i, j, w));
        }
        if ended {
            let i = choose|i: int| #[trigger] slept(lines, i, lines.len() - 1, w);
            assert(slept(lines, i, n, w));
        }
        if exists|i: int, j: int| #[trigger] slept(lines, i, j, w) {
            let (i, j) = choose|i: int, j: int| #[trigger] slept(lines, i, j, w);
            if j < n {
                lemma_slept_before(lines, i, j, w);
                assert(slept(d, i, j, w));
            } else {
                assert(slept(lines, i, lines.len() - 1, w));
            }
        }
    }
}

/// The window that the last line adds.
#[verifier::rlimit(40)]
proof fn lemma_window_added(lines: Seq<Seq<char>>, w: (u64, u64))
    requires
        lines.len() > 0,
    ensures
        ({
            let d = lines.drop_last();
            let n = lines.len() - 1;
            power_state(lines).windows.contains(w) <==> power_state(d).windows.contains(w) || (wakes(
                lines,
                n,
            ) && power_state(d).asleep_since == Some(w.0) && stamp_of(lines, n) == Some(w.1) && w.0
                < w.1)
        }),
{
    let d = lines.drop_last();
    let before = power_state(d).windows;
    let after = power_state(lines).windows;
    lemma_events_differ();
    assert(lines[lines.len() - 1] == lines.last());
    if after != before {
        let added = after.last();
        assert(after =~= before.push(added));
        if before.contains(w) {
            let k = before.index_of(w);
            assert(after[k] == w);
        }
        assert(after[before.len() as int] == added);
        if after.contains(w) && w != added {
            let k = after.index_of(w);
            assert(before[k] == w);
        }
    }
}

/// The machine falls asleep only once before it wakes up.
proof fn lemma_one_sleep(lines: Seq<Seq<char>>, i: int, k: int, n: int)
    requires
        0 <= i < n,
        0 <= k < n,
        falls_asleep(lines, i),
        falls_asleep(lines, k),
        sleeps_on(lines, i, n),
        sleeps_on(lines, k, n),
    ensures
        i == k,
{
    if i < k {
        assert(sleeps(lines, i));
        let m = choose|m: int| i < m < k && #[trigger] wakes(lines, m);
        assert(!wakes(lines, m));
    }
    if k < i {
        assert(sleeps(lines, k));
        let m = choose|m: int| k < m < i && #[trigger] wakes(lines, m);
        assert(!wakes(lines, m));
    }
}

/// The oldest instant of a log is that of its first stamped line; without one, no line
/// is stamped.
pub proof fn law_oldest_stamp(lines: Seq<Seq<char>>)
    ensures
        match power_state(lines).oldest {
            Some(t) => exists|i: int|
                0 <= i < lines.len() && #[trigger] stamp_of(lines, i) == Some(t) && forall|j: int|
                    0 <= j < i ==> #[trigger] stamp_of(lines, j) is None,
            None => forall|j: int| 0 <= j < lines.len() ==> #[trigger] stamp_of(lines, j) is None,
        },
    decreases lines.len(),
{
    if lines.len() > 0 {
        let d = lines.drop_last();
        let n = d.len() as int;
        law_oldest_stamp(d);
        lemma_prefix(lines);
        assert(lines[n] == lines.last());
        match power_state(d).oldest {
            Some(t) => {
                let i = choose|i: int|
                    0 <= i < d.len() && #[trigger] stamp_of(d, i) == Some(t) && forall|j: int|
                        0 <= j < i ==> #[trigger] stamp_of(d, j) is None;
                assert(stamp_of(lines, i) == Some(t));
                assert forall|j: int| 0 <= j < i implies #[trigger] stamp_of(lines, j) is None by {
                    assert(stamp_of(d, j) is None);
                }
            },
            None => {
                assert forall|j: int| 0 <= j < n implies #[trigger] stamp_of(lines, j) is None by {
                    assert(stamp_of(d, j) is None);
                }
                if stamp_of(lines, n) is Some {
                    assert(stamp_of(lines, n) == power_state(lines).oldest);
                }
            },
        }
    }
}

/// What a log says, line by line: it is an error exactly if no line is stamped; else the
/// oldest instant is that of the first stamped line, and the windows are the times of
/// sleep, one after the other if the stamps never go back.
pub proof fn law_log_says(
    log: Seq<char>,
    r: Result<(Vec<(u64, u64)>, u64), String>,
    w: (u64, u64),
)
    requires
        log_says(log, r),
    ensures
        match r {
            Err(_) => forall|j: int|
                0 <= j < lines(log).len() ==> #[trigger] stamp_of(lines(log), j) is None,
            Ok((windows, oldest)) => {
                &&& exists|i: int|
                    0 <= i < lines(log).len() && #[trigger] stamp_of(lines(log), i) == Some(oldest)
                        && forall|j: int|
                        0 <= j < i ==> #[trigger] stamp_of(lines(log), j) is None
                &&& windows@.contains(w) <==> exists|i: int, j: int|
                    #[trigger] slept(lines(log), i, j, w)
                &&& windows@ == power_state(lines(log)).windows
                &&& stamps_ascend(lines(log)) ==> in_order(windows@) && none_before(windows@, oldest)
            },
        },
{
    if stamps_ascend(lines(log)) {
        law_sleep_windows_in_order(lines(log));
    }
    law_oldest_stamp(lines(log));
    law_sleep_windows(lines(log), w);
}

/// A line is stamped by its first 25 characters, and its event is the first word behind
/// them. A shorter line is not stamped.
pub proof fn law_line(stamp: Seq<char>, rest: Seq<char>)
    ensures
        stamp.len() == 25 ==> line_stamp(stamp + rest) == stamp_us(stamp) && line_event(
            stamp + rest,
        ) == first_word(rest),
        stamp.len() < 25 ==> line_stamp(stamp) is None,
{
    if stamp.len() == 25 {
        assert((stamp + rest).take(25) =~= stamp);
        assert((stamp + rest).skip(25) =~= rest);
    }
}

/// A stamp in plain terms: 25 characters, with a date, a time of day and a zone in their
/// columns. The instant is that of the date and the time, less the zone's offset if it is
/// ahead, and more if it is behind.
pub proof fn law_stamp(
    s: Seq<char>,
    date: (i64, i64, i64),
    time: (i64, i64, i64),
    zone: (i64, i64),
)
    requires
        s.len() == 25,
        s[4] == '-' && s[7] == '-' && s[10] == ' ' && s[13] == ':' && s[16] == ':' && s[19] == ' ',
        s[20] == '+' || s[20] == '-',
        parse_i64(s.subrange(0, 4)) == Some(date.0),
        parse_i64(s.subrange(5, 7)) == Some(date.1),
        parse_i64(s.subrange(8, 10)) == Some(date.2),
        parse_i64(s.subrange(11, 13)) == Some(time.0),
        parse_i64(s.subrange(14, 16)) == Some(time.1),
        parse_i64(s.subrange(17, 19)) == Some(time.2),
        parse_i64(s.subrange(21, 23)) == Some(zone.0),
        parse_i64(s.subrange(23, 25)) == Some(zone.1),
    ensures
        ({
            let days = epoch_days(date.0 as int, date.1 as int, date.2 as int);
            let local = ((days * 24 + time.0) * 60 + time.1) * 60 + time.2;
            let offset = (zone.0 * 60 + zone.1) * 60;
            let secs = if s[20] == '+' {
                local - offset
            } else {
                local + offset
            };
            stamp_us(s) == if secs < 0 {
                None
            } else {
                Some((secs * 1_000_000) as u64)
            }
        }),
{
}

/// Anything else is no stamp: another length, another character between the columns,
/// another sign, or a column that is no number.
pub proof fn law_no_stamp(s: Seq<char>)
    ensures
        s.len() != 25 ==> stamp_us(s) is None,
        s.len() == 25 && !(s[4] == '-' && s[7] == '-' && s[10] == ' ' && s[13] == ':' && s[16] == ':'
            && s[19] == ' ' && (s[20] == '+' || s[20] == '-')) ==> stamp_us(s) is None,
        s.len() == 25 && (parse_i64(s.subrange(0, 4)) is None || parse_i64(s.subrange(5, 7)) is None
            || parse_i64(s.subrange(8, 10)) is None || parse_i64(s.subrange(11, 13)) is None
            || parse_i64(s.subrange(14, 16)) is None || parse_i64(s.subrange(17, 19)) is None
            || parse_i64(s.subrange(21, 23)) is None || parse_i64(s.subrange(23, 25)) is None)
            ==> stamp_us(s) is None,
{
}

/// Which lines divide, in terms of their bytes: a line shorter than a stamp does, and one
/// in which no character straddles a column's end does. One in which a character
/// straddles the end of the stamp's column does not.
pub proof fn law_line_divides(line: Seq<char>)
    ensures
        ({
            let bytes = vstd::utf8::encode_utf8(line);
            &&& bytes.len() < 25 ==> line_divides(line)
            &&& bytes.len() >= 25 && vstd::utf8::is_char_boundary(bytes, 25)
                && vstd::utf8::is_char_boundary(bytes, 23) ==> line_divides(line)
            &&& bytes.len() >= 25 && !vstd::utf8::is_char_boundary(bytes, 25) ==> !line_divides(line)
        }),
{
    law_bytes_are_utf8(line, 25);
    law_bytes_are_utf8(line, 23);
    lemma_cut(line, 25);
    if cut(line, 25) is Some && cut(line, 23) is Some {
        lemma_cut_within(line, 25, 23);
    }
}

/// A cut before a cut is one of the part before the latter.
proof fn lemma_cut_within(s: Seq<char>, n: int, m: int)
    requires
        cut(s, n) is Some,
        cut(s, m) is Some,
        0 <= m <= n,
    ensures
        cut(s.take(cut(s, n)->0), m) is Some,
    decreases s.len(),
{
    lemma_cut(s, n);
    if m > 0 {
        let rest = s.drop_first();
        let w = width(s[0]);
        let k = cut(s, n)->0;
        lemma_cut(rest, m - w);
        lemma_cut(rest, n - w);
        assert(m - w >= 0);
        lemma_cut_within(rest, n - w, m - w);
        assert(k >= 1);
        assert(s.take(k).drop_first() =~= rest.take(k - 1));
        assert(s.take(k)[0] == s[0]);
    }
}

/// One more line leaves the windows so far as they are, and adds at most one behind them:
/// if it tells that the machine wakes up and the machine was asleep, the time of sleep.
pub proof fn law_windows_are_appended(lines: Seq<Seq<char>>, line: Seq<char>)
    ensures
        ({
            let before = power_state(lines);
            let all = lines.push(line);
            let after = power_state(all);
            let n = lines.len() as int;
            &&& after.windows.take(before.windows.len() as int) == before.windows
            &&& before.windows.len() <= after.windows.len() <= before.windows.len() + 1
            &&& after.windows.len() > before.windows.len() <==> wakes(all, n)
                && before.asleep_since is Some && before.asleep_since->0 < stamp_of(all, n)->0
            &&& after.windows.len() > before.windows.len() ==> after.windows.last() == (
                before.asleep_since->0,
                stamp_of(all, n)->0,
            )
        }),
{
    let all = lines.push(line);
    assert(all.drop_last() =~= lines);
    assert(all[lines.len() as int] == line);
    lemma_events_differ();
    let (before, after) = (power_state(lines).windows, power_state(all).windows);
    assert(after.take(before.len() as int) =~= before);
}

} // verus!
