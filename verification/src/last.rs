//! Powered-off windows from the login records of macOS (`last`).

use vstd::prelude::*;
use vstd::slice::slice_subrange;
use crate::command::{CommandOutcome, Invocation};
use crate::dates::{bsd_date, bsd_words, first_answer, first_date_secs, gnu_date, gnu_words};
use crate::dates::DateStep;
use crate::sort::{ascending, law_sort_permutes, law_stable_sort, lemma_ascending_drop_last};
use crate::sort::{order_of, sort_by_key, stable_sort};
use crate::text::{begins_with, chars_of, first_line, has_prefix, is_white, law_lines_read_back};
use crate::text::{law_trim, lines, occurs_at, stands_at, string_of, texts, trim, trim_start};
use crate::text::{trimmed, trimmed_start, with_ends};
use crate::windows::{have_length, later, none_before};

verus! {

/// Whether a line is an entry, not the notice of where the records begin.
pub open spec fn is_entry(line: Seq<char>) -> bool {
    let t = trim_start(line);
    !begins_with(t, "wtmp begins"@) && !begins_with(t, "btmp begins"@)
}

/// Being an entry.
pub open spec fn entry() -> spec_fn(Seq<char>) -> bool {
    |line: Seq<char>| is_entry(line)
}

/// The entries of a report, in order.
pub open spec fn entries(text: Seq<char>) -> Seq<Seq<char>> {
    lines(text).filter(entry())
}

/// The entries in the output of `last`, line by line.
pub fn parse_last_output(text: &str) -> (r: Vec<String>)
    ensures
        texts(r@) == entries(text@),
{
    let mut out: Vec<String> = Vec::new();
    let all = chars_of(text);
    let mut rest: &[char] = all.as_slice();
    let ghost mut seen: Seq<Seq<char>> = Seq::empty();
    assert(seen + lines(rest@) =~= lines(text@));
    proof {
        reveal(Seq::filter);
        assert(texts(out@) =~= seen.filter(entry()));
    }
    while rest.len() > 0
        invariant
            seen + lines(rest@) == lines(text@),
            texts(out@) == seen.filter(entry()),
        decreases rest@.len(),
    {
        let (line, after) = first_line(rest);
        proof {
            let so_far = seen.push(line@);
            assert(so_far.drop_last() =~= seen);
            assert(so_far + lines(after@) =~= seen + lines(rest@));
            reveal(Seq::filter);
            seen = so_far;
        }
        rest = after;
        let start = trimmed_start(line);
        if has_prefix(start, "wtmp begins") || has_prefix(start, "btmp begins") {
            continue ;
        }
        let ghost before = out@;
        out.push(string_of(line));
        assert(texts(out@) =~= texts(before).push(line@));
    }
    assert(seen =~= lines(text@));
    out
}

/// The command that prints the records of one kind: `shutdown` or `reboot`.
pub fn last_command(kind: &str) -> (r: Invocation)
    ensures
        r.words() == seq!["last"@, "-F"@, kind@],
{
    let r = Invocation::new("last").arg("-F").arg(kind);
    assert(r.words() =~= seq!["last"@, "-F"@, kind@]);
    r
}

/// The entries that a run of `last` printed.
pub fn run_last(out: &CommandOutcome) -> (r: Result<Vec<String>, String>)
    ensures
        match r {
            Ok(v) => out.printed() matches Some(t) && texts(v@) == entries(t),
            Err(e) => out.printed() is None && e@ == out.complaint("last"@),
        },
{
    match out.output_of("last") {
        Ok(t) => Ok(parse_last_output(t)),
        Err(e) => Err(e),
    }
}

/// The abbreviations of the weekdays, as they stand in a line.
pub open spec fn weekdays() -> Seq<Seq<char>> {
    seq![" Mon "@, " Tue "@, " Wed "@, " Thu "@, " Fri "@, " Sat "@, " Sun "@]
}

/// Whether a weekday stands in a line at position `i`.
pub open spec fn weekday_at(line: Seq<char>, i: int) -> bool {
    exists|k: int| 0 <= k < weekdays().len() && occurs_at(line, #[trigger] weekdays()[k], i)
}

/// The first position from `i` on at which a weekday stands in a line.
pub open spec fn weekday_from(line: Seq<char>, i: int) -> Option<int>
    decreases line.len() - i,
{
    if i < 0 || i >= line.len() {
        None
    } else if weekday_at(line, i) {
        Some(i)
    } else {
        weekday_from(line, i + 1)
    }
}

/// A line from its first weekday on.
pub open spec fn from_weekday(line: Seq<char>) -> Option<Seq<char>> {
    match weekday_from(line, 0) {
        Some(i) => Some(line.skip(i + 1)),
        None => None,
    }
}

/// The date in a line: up to 25 characters from its first weekday on, without the
/// white space around them.
pub open spec fn date_text(line: Seq<char>) -> Option<Seq<char>> {
    match from_weekday(line) {
        Some(rest) => if rest.len() <= 25 {
            Some(trim(rest))
        } else {
            Some(trim(rest.take(25)))
        },
        None => None,
    }
}

/// The weekday that a date begins with is the first in its line: one stands there,
/// and none before it. A line without a date has none anywhere.
pub proof fn law_first_weekday(line: Seq<char>, i: int)
    requires
        0 <= i,
    ensures
        match weekday_from(line, i) {
            Some(k) => i <= k < line.len() && weekday_at(line, k) && forall|j: int|
                i <= j < k ==> !weekday_at(line, j),
            None => forall|j: int| i <= j < line.len() ==> !weekday_at(line, j),
        },
    decreases line.len() - i,
{
    if i < line.len() && !weekday_at(line, i) {
        law_first_weekday(line, i + 1);
    }
}

/// The commands to try for a date from `last`, in order.
pub open spec fn last_date_words(date: Seq<char>) -> Seq<Seq<Seq<char>>> {
    seq![
        gnu_words("date"@, date),
        bsd_words("%a %b %e %H:%M:%S %Y"@, date),
        bsd_words("%a %b %d %H:%M:%S %Y"@, date),
    ]
}

/// Whether a weekday stands in a line at a position.
fn stands_weekday(line: &[char], i: usize) -> (b: bool)
    ensures
        b == weekday_at(line@, i as int),
{
    let names: [&str; 7] = [" Mon ", " Tue ", " Wed ", " Thu ", " Fri ", " Sat ", " Sun "];
    let mut k: usize = 0;
    while k < 7
        invariant
            k <= 7,
            forall|j: int| 0 <= j < 7 ==> (#[trigger] names@[j])@ == weekdays()[j],
            forall|j: int| 0 <= j < k ==> !occurs_at(line@, #[trigger] weekdays()[j], i as int),
        decreases 7 - k,
    {
        let name = chars_of(names[k]);
        assert(name@ == weekdays()[k as int]);
        if stands_at(line, name.as_slice(), i) {
            return true;
        }
        k = k + 1;
    }
    false
}

/// A line's part from its first weekday on.
fn after_weekday(line: &[char]) -> (r: Option<&[char]>)
    ensures
        match r {
            Some(rest) => from_weekday(line@) == Some(rest@),
            None => from_weekday(line@) is None,
        },
{
    let mut i: usize = 0;
    while i < line.len()
        invariant
            i <= line@.len(),
            weekday_from(line@, 0) == weekday_from(line@, i as int),
        decreases line@.len() - i,
    {
        if stands_weekday(line, i) {
            assert(line@.subrange(i + 1, line@.len() as int) =~= line@.skip(i + 1));
            return Some(slice_subrange(line, i + 1, line.len()));
        }
        i = i + 1;
    }
    None
}

/// The date in a line of `last`.
pub fn last_date(line: &str) -> (r: Option<String>)
    ensures
        match r {
            Some(date) => date_text(line@) == Some(date@),
            None => date_text(line@) is None,
        },
{
    let v = chars_of(line);
    let rest = after_weekday(v.as_slice())?;
    if rest.len() <= 25 {
        return Some(string_of(trimmed(rest)));
    }
    assert(rest@.subrange(0, 25) =~= rest@.take(25));
    Some(string_of(trimmed(slice_subrange(rest, 0, 25))))
}

/// Reads the date in a line of `last`, in microseconds since the epoch. A line
/// without a date has none. The first outcome that holds a number of seconds is
/// the answer; without one the next command is tried, until there is none left.
pub fn extract_last_date(line: &str, replies: &[CommandOutcome]) -> (r: DateStep)
    requires
        date_text(line@) is Some ==> (first_answer(replies@, 0) matches Some(t) ==> t * 1_000_000
            <= u64::MAX),
    ensures
        match date_text(line@) {
            None => r == DateStep::Done(None),
            Some(date) => match first_answer(replies@, 0) {
                Some(t) => r == DateStep::Done(Some((t * 1_000_000) as u64)),
                None => if replies@.len() < last_date_words(date).len() {
                    r matches DateStep::Run(command) && command.words() == last_date_words(
                        date,
                    )[replies@.len() as int]
                } else {
                    r == DateStep::Done(None)
                },
            },
        },
        r matches DateStep::Done(Some(us)) ==> (first_answer(replies@, 0) matches Some(t) && us
            % 1_000_000 == 0 && us / 1_000_000 == t),
{
    match last_date(line) {
        None => DateStep::Done(None),
        Some(date) => {
            if let Some(t) = first_date_secs(replies) {
                return DateStep::Done(Some(t * 1_000_000));
            }
            match replies.len() {
                0 => DateStep::Run(gnu_date("date", date.as_str())),
                1 => DateStep::Run(bsd_date("%a %b %e %H:%M:%S %Y", date.as_str())),
                2 => DateStep::Run(bsd_date("%a %b %d %H:%M:%S %Y", date.as_str())),
                _ => DateStep::Done(None),
            }
        },
    }
}

/// The instants that are known, in order.
pub open spec fn known(stamps: Seq<Option<u64>>) -> Seq<u64>
    decreases stamps.len(),
{
    if stamps.len() == 0 {
        Seq::empty()
    } else {
        match stamps.last() {
            Some(t) => known(stamps.drop_last()).push(t),
            None => known(stamps.drop_last()),
        }
    }
}

/// The instants of the entries whose date could be read, in ascending order.
fn sorted_events(stamps: &[Option<u64>]) -> (r: Vec<u64>)
    ensures
        r@ == stable_sort(known(stamps@), order_of::<u64>()),
        ascending(r@, order_of::<u64>()),
{
    let mut events: Vec<u64> = Vec::new();
    let mut i: usize = 0;
    while i < stamps.len()
        invariant
            i <= stamps@.len(),
            events@ == known(stamps@.take(i as int)),
        decreases stamps@.len() - i,
    {
        assert(stamps@.take(i + 1).drop_last() =~= stamps@.take(i as int));
        if let Some(t) = stamps[i] {
            events.push(t);
        }
        i = i + 1;
    }
    assert(stamps@.take(stamps@.len() as int) =~= stamps@);
    proof {
        law_stable_sort(events@, order_of::<u64>());
    }
    sort_by_key(&mut events);
    events
}

/// The instants of the records that a run of `last` told of, in ascending order.
/// `stamps[i]` is the instant of the `i`-th entry, if its date could be read. A run
/// that failed is handed on.
pub fn last_events(entries: Result<Vec<String>, String>, stamps: &[Option<u64>]) -> (r: Result<
    Vec<u64>,
    String,
>)
    requires
        entries matches Ok(lines) ==> stamps@.len() == lines@.len(),
    ensures
        match entries {
            Ok(_) => r matches Ok(v) && v@ == stable_sort(known(stamps@), order_of::<u64>())
                && ascending(v@, order_of::<u64>()),
            Err(e) => r == Err::<Vec<u64>, String>(e),
        },
        r matches Ok(v) ==> (forall|i: int, j: int|
            #![trigger v@[i], v@[j]]
            0 <= i < j < v@.len() ==> v@[i] <= v@[j]) && v@.to_multiset() == known(
            stamps@,
        ).to_multiset(),
{
    proof {
        law_events_ascend(stamps@);
    }
    match entries {
        Ok(_) => Ok(sorted_events(stamps)),
        Err(e) => Err(e),
    }
}

/// The latest of some instants.
pub open spec fn latest(s: Seq<u64>) -> u64
    decreases s.len(),
{
    if s.len() == 0 {
        0
    } else {
        later(latest(s.drop_last()), s.last())
    }
}

/// The first position from `i` on with an instant after `m`.
pub open spec fn first_after(s: Seq<u64>, m: u64, i: int) -> Option<int>
    decreases s.len() - i,
{
    if i < 0 || i >= s.len() {
        None
    } else if s[i] > m {
        Some(i)
    } else {
        first_after(s, m, i + 1)
    }
}

/// Each shutdown, in order, with the first reboot after it and after all the
/// shutdowns before it; a shutdown without such a reboot is left out.
pub open spec fn pairs(shutdowns: Seq<u64>, reboots: Seq<u64>) -> Seq<(u64, u64)>
    decreases shutdowns.len(),
{
    if shutdowns.len() == 0 {
        Seq::empty()
    } else {
        let before = pairs(shutdowns.drop_last(), reboots);
        match first_after(reboots, latest(shutdowns), 0) {
            Some(i) => before.push((shutdowns.last(), reboots[i])),
            None => before,
        }
    }
}

/// Nothing before a position exceeds `m`: the search may start there.
proof fn lemma_first_after(s: Seq<u64>, m: u64, n: int)
    requires
        0 <= n <= s.len(),
        forall|j: int| 0 <= j < n ==> #[trigger] s[j] <= m,
    ensures
        first_after(s, m, 0) == first_after(s, m, n),
    decreases n,
{
    if n > 0 {
        lemma_first_after(s, m, n - 1);
        assert(s[n - 1] <= m);
    }
}

/// Pairs each shutdown with the reboot that ended it.
pub fn pair_shutdowns_with_reboots(shutdowns: &[u64], reboots: &[u64]) -> (r: Vec<(u64, u64)>)
    ensures
        r@ == pairs(shutdowns@, reboots@),
{
    let mut wins: Vec<(u64, u64)> = Vec::new();
    let mut ri: usize = 0;
    let mut i: usize = 0;
    while i < shutdowns.len()
        invariant
            i <= shutdowns@.len(),
            ri <= reboots@.len(),
            wins@ == pairs(shutdowns@.take(i as int), reboots@),
            forall|j: int|
                0 <= j < ri ==> #[trigger] reboots@[j] <= latest(shutdowns@.take(i as int)),
            i > 0 && ri < reboots@.len() ==> reboots@[ri as int] > latest(
                shutdowns@.take(i as int),
            ),
            i == 0 ==> ri == 0,
        decreases shutdowns@.len() - i,
    {
        let s = shutdowns[i];
        let ghost so_far = shutdowns@.take(i + 1);
        assert(so_far.drop_last() =~= shutdowns@.take(i as int));
        let ghost before = ri;
        while ri < reboots.len() && reboots[ri] <= s
            invariant
                before <= ri <= reboots@.len(),
                forall|j: int| before <= j < ri ==> #[trigger] reboots@[j] <= s,
            decreases reboots@.len() - ri,
        {
            ri = ri + 1;
        }
        proof {
            let m = latest(so_far);
            assert forall|j: int| 0 <= j < ri implies #[trigger] reboots@[j] <= m by {}
            if before < ri {
                assert(reboots@[before as int] <= s);
            }
            lemma_first_after(reboots@, m, ri as int);
        }
        if ri < reboots.len() {
            wins.push((s, reboots[ri]));
        }
        i = i + 1;
    }
    assert(shutdowns@.take(shutdowns@.len() as int) =~= shutdowns@);
    wins
}

/// Whether an instant is the earliest of some.
pub open spec fn is_earliest(s: Seq<u64>, t: u64) -> bool {
    s.contains(t) && forall|i: int| 0 <= i < s.len() ==> t <= #[trigger] s[i]
}

/// Whether the reboots are to be asked for, given the shutdowns: only if those are
/// known.
pub fn asks_reboots(shutdowns: &Result<Vec<u64>, String>) -> (b: bool)
    ensures
        b == (shutdowns is Ok),
{
    match shutdowns {
        Ok(_) => true,
        Err(_) => false,
    }
}

/// The powered-off windows and the oldest record, from the instants of the
/// shutdowns and of the reboots. If the shutdowns are not known, the answer is why,
/// or else why the reboots are not. It is an error if there are none of either.
pub fn macos_last_windows(
    shutdowns: Result<Vec<u64>, String>,
    reboots: Result<Vec<u64>, String>,
) -> (r: Result<(Vec<(u64, u64)>, u64), String>)
    ensures
        match (shutdowns, reboots) {
            (Err(e), _) => r == Err::<(Vec<(u64, u64)>, u64), String>(e),
            (Ok(_), Err(e)) => r == Err::<(Vec<(u64, u64)>, u64), String>(e),
            (Ok(s), Ok(b)) => if s@.len() == 0 && b@.len() == 0 {
                r matches Err(e) && e@ == "no reboot/shutdown entries"@
            } else {
                r matches Ok((windows, oldest)) && windows@ == pairs(s@, b@) && is_earliest(
                    s@ + b@,
                    oldest,
                )
            },
        },
{
    let shutdowns = match shutdowns {
        Ok(s) => s,
        Err(e) => return Err(e),
    };
    let reboots = match reboots {
        Ok(b) => b,
        Err(e) => return Err(e),
    };
    match earliest(shutdowns.as_slice(), reboots.as_slice()) {
        Some(oldest) => {
            let windows = pair_shutdowns_with_reboots(shutdowns.as_slice(), reboots.as_slice());
            Ok((windows, oldest))
        },
        None => Err("no reboot/shutdown entries".to_owned()),
    }
}

/// The earliest instant of the shutdowns and the reboots.
fn earliest(shutdowns: &[u64], reboots: &[u64]) -> (r: Option<u64>)
    ensures
        match r {
            Some(t) => is_earliest(shutdowns@ + reboots@, t),
            None => shutdowns@.len() == 0 && reboots@.len() == 0,
        },
{
    let mut oldest: Option<u64> = None;
    let ghost all = shutdowns@ + reboots@;
    let mut i: usize = 0;
    while i < shutdowns.len()
        invariant
            i <= shutdowns@.len(),
            all == shutdowns@ + reboots@,
            match oldest {
                Some(t) => is_earliest(all.take(i as int), t),
                None => i == 0,
            },
        decreases shutdowns@.len() - i,
    {
        proof {
            lemma_earliest_step(all, i as int, oldest);
        }
        oldest = earlier_of(oldest, shutdowns[i]);
        i = i + 1;
    }
    let mut j: usize = 0;
    while j < reboots.len()
        invariant
            j <= reboots@.len(),
            all == shutdowns@ + reboots@,
            match oldest {
                Some(t) => is_earliest(all.take(shutdowns@.len() + j), t),
                None => shutdowns@.len() + j == 0,
            },
        decreases reboots@.len() - j,
    {
        proof {
            lemma_earliest_step(all, shutdowns@.len() + j, oldest);
        }
        oldest = earlier_of(oldest, reboots[j]);
        j = j + 1;
    }
    assert(all.take(all.len() as int) =~= all);
    oldest
}

/// The earliest instant so far, and one more.
pub open spec fn earlier(oldest: Option<u64>, t: u64) -> u64 {
    match oldest {
        Some(o) => if o <= t {
            o
        } else {
            t
        },
        None => t,
    }
}

/// The earlier of the earliest instant so far and one more.
fn earlier_of(oldest: Option<u64>, t: u64) -> (r: Option<u64>)
    ensures
        r == Some(earlier(oldest, t)),
{
    match oldest {
        Some(o) => if o <= t {
            Some(o)
        } else {
            Some(t)
        },
        None => Some(t),
    }
}

/// The earliest of the first `n` instants and the next one is the earliest of
/// them all.
proof fn lemma_earliest_step(all: Seq<u64>, n: int, oldest: Option<u64>)
    requires
        0 <= n < all.len(),
        match oldest {
            Some(t) => is_earliest(all.take(n), t),
            None => n == 0,
        },
    ensures
        is_earliest(all.take(n + 1), earlier(oldest, all[n])),
{
    let s = all.take(n + 1);
    let t = earlier(oldest, all[n]);
    assert(s[n] == all[n]);
    if let Some(o) = oldest {
        let k = all.take(n).index_of(o);
        assert(s[k] == o);
        assert forall|i: int| 0 <= i < s.len() implies t <= #[trigger] s[i] by {
            if i < n {
                assert(all.take(n)[i] == s[i]);
            }
        }
    }
}

/// Every powered-off window has a length, begins at a shutdown and ends at a
/// reboot.
pub proof fn law_pairs_are_windows(shutdowns: Seq<u64>, reboots: Seq<u64>)
    ensures
        have_length(pairs(shutdowns, reboots)),
        forall|i: int|
            0 <= i < pairs(shutdowns, reboots).len() ==> shutdowns.contains(
                (#[trigger] pairs(shutdowns, reboots)[i]).0,
            ) && reboots.contains(pairs(shutdowns, reboots)[i].1),
    decreases shutdowns.len(),
{
    if shutdowns.len() > 0 {
        let d = shutdowns.drop_last();
        law_pairs_are_windows(d, reboots);
        lemma_first_after_is(reboots, latest(shutdowns), 0);
        assert(shutdowns[shutdowns.len() - 1] == shutdowns.last());
        let p = pairs(shutdowns, reboots);
        let q = pairs(d, reboots);
        assert forall|i: int|
            0 <= i < p.len() implies (#[trigger] p[i]).0 < p[i].1 && shutdowns.contains(p[i].0)
            && reboots.contains(p[i].1) by {
            if i < q.len() {
                assert(p[i] == q[i]);
                let k = d.index_of(q[i].0);
                assert(shutdowns[k] == d[k]);
            }
        }
    }
}

/// No powered-off window begins before the oldest record.
pub proof fn law_pairs_after_oldest(shutdowns: Seq<u64>, reboots: Seq<u64>, oldest: u64)
    requires
        is_earliest(shutdowns + reboots, oldest),
    ensures
        none_before(pairs(shutdowns, reboots), oldest),
{
    let p = pairs(shutdowns, reboots);
    law_pairs_are_windows(shutdowns, reboots);
    assert forall|i: int| 0 <= i < p.len() implies oldest <= (#[trigger] p[i]).0 by {
        let k = shutdowns.index_of(p[i].0);
        assert((shutdowns + reboots)[k] == p[i].0);
    }
}

/// What `first_after` finds.
proof fn lemma_first_after_is(s: Seq<u64>, m: u64, i: int)
    requires
        0 <= i,
    ensures
        match first_after(s, m, i) {
            Some(k) => i <= k < s.len() && s[k] > m && s.contains(s[k]) && forall|j: int|
                i <= j < k ==> #[trigger] s[j] <= m,
            None => forall|j: int| i <= j < s.len() ==> #[trigger] s[j] <= m,
        },
    decreases s.len() - i,
{
    if i < s.len() && s[i] <= m {
        lemma_first_after_is(s, m, i + 1);
    }
}

/// When shutdowns and reboots are both in ascending order, each shutdown that a
/// reboot follows is paired with the earliest reboot after it.
pub proof fn law_pairs_in_order(shutdowns: Seq<u64>, reboots: Seq<u64>)
    requires
        ascending(shutdowns, order_of::<u64>()),
        ascending(reboots, order_of::<u64>()),
    ensures
        forall|i: int, j: int|
            #![trigger pairs(shutdowns, reboots)[i], reboots[j]]
            0 <= i < pairs(shutdowns, reboots).len() && 0 <= j < reboots.len() && reboots[j]
                > pairs(shutdowns, reboots)[i].0 ==> pairs(shutdowns, reboots)[i].1 <= reboots[j],
        forall|k: int, j: int|
            #![trigger shutdowns[k], reboots[j]]
            0 <= k < shutdowns.len() && 0 <= j < reboots.len() && reboots[j] > shutdowns[k]
                ==> exists|i: int|
                0 <= i < pairs(shutdowns, reboots).len() && (#[trigger] pairs(
                    shutdowns,
                    reboots,
                )[i]).0 == shutdowns[k],
    decreases shutdowns.len(),
{
    if shutdowns.len() > 0 {
        let key = order_of::<u64>();
        let d = shutdowns.drop_last();
        lemma_ascending_drop_last(shutdowns, key);
        law_pairs_in_order(d, reboots);
        lemma_latest_ascending(shutdowns);
        lemma_first_after_is(reboots, shutdowns.last(), 0);
        let p = pairs(shutdowns, reboots);
        let q = pairs(d, reboots);
        assert forall|i: int, j: int|
            #![trigger p[i], reboots[j]]
            0 <= i < p.len() && 0 <= j < reboots.len() && reboots[j] > p[i].0 implies p[i].1
            <= reboots[j] by {
            if i < q.len() {
                assert(p[i] == q[i]);
            } else {
                let f = first_after(reboots, shutdowns.last(), 0)->0;
                if j > f {
                    assert(key(reboots[f]) <= key(reboots[j]));
                }
            }
        }
        assert forall|k: int, j: int|
            #![trigger shutdowns[k], reboots[j]]
            0 <= k < shutdowns.len() && 0 <= j < reboots.len() && reboots[j]
                > shutdowns[k] implies exists|i: int|
            0 <= i < p.len() && (#[trigger] p[i]).0 == shutdowns[k] by {
            if k < d.len() {
                assert(d[k] == shutdowns[k]);
                let i = choose|i: int| 0 <= i < q.len() && (#[trigger] q[i]).0 == d[k];
                assert(p[i] == q[i]);
            } else {
                assert(p[q.len() as int].0 == shutdowns[k]);
            }
        }
    }
}

/// The latest of ascending instants is the last.
proof fn lemma_latest_ascending(s: Seq<u64>)
    requires
        s.len() > 0,
        ascending(s, order_of::<u64>()),
    ensures
        latest(s) == s.last(),
    decreases s.len(),
{
    let key = order_of::<u64>();
    let d = s.drop_last();
    if d.len() > 0 {
        lemma_ascending_drop_last(s, key);
        lemma_latest_ascending(d);
        assert(key(s[d.len() - 1]) <= key(s[s.len() - 1]));
    } else {
        assert(latest(d) == 0);
    }
}

/// Being a line that, behind its leading white space, does not begin with one of the two
/// notices of where records begin.
pub open spec fn no_notice() -> spec_fn(Seq<char>) -> bool {
    |line: Seq<char>|
        {
            let t = trim_start(line);
            !(t.len() >= 11 && (t.take(11) == "wtmp begins"@ || t.take(11) == "btmp begins"@))
        }
}

/// Every line that is no such notice is an entry, in order, and no other is.
pub proof fn law_entries(text: Seq<char>)
    ensures
        entries(text) == lines(text).filter(no_notice()),
{
    reveal_strlit("wtmp begins");
    reveal_strlit("btmp begins");
    assert forall|line: Seq<char>| #[trigger] entry()(line) == no_notice()(line) by {
        let t = trim_start(line);
        if t.len() >= 11 {
            assert(t.subrange(0, 11) =~= t.take(11));
        }
    }
    assert(entry() =~= no_notice());
}

/// A listing of records reads back: lines that begin with the name of a record, a
/// shutdown or a reboot, are all entries, whatever follows the name, and the notice
/// behind them is none.
pub proof fn law_records_read_back(ls: Seq<Seq<char>>, crlf: Seq<bool>, since: Seq<char>)
    requires
        crlf.len() == ls.len(),
        forall|i: int, j: int|
            0 <= i < ls.len() && 0 <= j < ls[i].len() ==> #[trigger] ls[i][j] != '\n',
        forall|i: int|
            0 <= i < ls.len() ==> (#[trigger] ls[i]).last() != '\r' && ((ls[i].len() >= 8
                && ls[i].take(8) == "shutdown"@) || (ls[i].len() >= 6 && ls[i].take(6)
                == "reboot"@)),
        forall|j: int| 0 <= j < since.len() ==> since[j] != '\n',
    ensures
        entries(with_ends(ls, crlf)) == ls,
        entries(with_ends(ls, crlf) + ("wtmp begins"@ + since)) == ls,
        entries(with_ends(ls, crlf) + ("btmp begins"@ + since)) == ls,
{
    let none = Seq::<char>::empty();
    law_lines_read_back(ls, crlf, none);
    assert(with_ends(ls, crlf) + none =~= with_ends(ls, crlf));
    assert forall|i: int| 0 <= i < ls.len() implies #[trigger] is_entry(ls[i]) by {
        lemma_record_is_entry(ls[i]);
    }
    lemma_all_entries(ls);
    let w = "wtmp begins"@ + since;
    let b = "btmp begins"@ + since;
    lemma_notices(since);
    law_lines_read_back(ls, crlf, w);
    law_lines_read_back(ls, crlf, b);
    lemma_filter_push(ls, w);
    lemma_filter_push(ls, b);
}

/// What is no entry adds nothing.
proof fn lemma_filter_push(ls: Seq<Seq<char>>, line: Seq<char>)
    requires
        !is_entry(line),
    ensures
        ls.push(line).filter(entry()) == ls.filter(entry()),
{
    reveal(Seq::filter);
    assert(ls.push(line).drop_last() =~= ls);
}

/// A line that begins with the name of a record is an entry.
proof fn lemma_record_is_entry(line: Seq<char>)
    requires
        (line.len() >= 8 && line.take(8) == "shutdown"@) || (line.len() >= 6 && line.take(6)
            == "reboot"@),
    ensures
        is_entry(line),
{
    reveal_strlit("wtmp begins");
    reveal_strlit("btmp begins");
    reveal_strlit("shutdown");
    reveal_strlit("reboot");
    if line.len() >= 8 && line.take(8) == "shutdown"@ {
        assert(line.take(8)[0] == 's');
    } else {
        assert(line.take(6)[0] == 'r');
    }
    assert(line[0] == 's' || line[0] == 'r');
    assert(trim_start(line) == line);
    if line.len() >= 11 {
        assert(line.subrange(0, 11)[0] == line[0]);
    }
}

/// A notice is a line of its own, and no entry.
proof fn lemma_notices(since: Seq<char>)
    requires
        forall|j: int| 0 <= j < since.len() ==> since[j] != '\n',
    ensures
        !is_entry("wtmp begins"@ + since),
        !is_entry("btmp begins"@ + since),
        forall|j: int| 0 <= j < 11 + since.len() ==> ("wtmp begins"@ + since)[j] != '\n',
        forall|j: int| 0 <= j < 11 + since.len() ==> ("btmp begins"@ + since)[j] != '\n',
        ("wtmp begins"@ + since).len() == 11 + since.len(),
        ("btmp begins"@ + since).len() == 11 + since.len(),
{
    reveal_strlit("wtmp begins");
    reveal_strlit("btmp begins");
    let w = "wtmp begins"@ + since;
    let b = "btmp begins"@ + since;
    assert(w.subrange(0, 11) =~= "wtmp begins"@);
    assert(b.subrange(0, 11) =~= "btmp begins"@);
    assert(w[0] == 'w' && b[0] == 'b');
    assert(trim_start(w) == w && trim_start(b) == b);
}

/// Where all are entries, none is left out.
proof fn lemma_all_entries(ls: Seq<Seq<char>>)
    requires
        forall|i: int| 0 <= i < ls.len() ==> #[trigger] is_entry(ls[i]),
    ensures
        ls.filter(entry()) == ls,
    decreases ls.len(),
{
    reveal(Seq::filter);
    if ls.len() > 0 {
        let d = ls.drop_last();
        assert forall|i: int| 0 <= i < d.len() implies #[trigger] is_entry(d[i]) by {
            assert(is_entry(ls[i]));
        }
        lemma_all_entries(d);
        assert(is_entry(ls[ls.len() - 1]));
        assert(d.push(ls.last()) =~= ls);
    }
}

/// Whether one of the seven weekdays stands in a line at position `i`, with a space on
/// either side.
pub open spec fn day_stands(line: Seq<char>, i: int) -> bool {
    0 <= i <= line.len() - 5 && ({
        let five = line.subrange(i, i + 5);
        ||| five == " Mon "@
        ||| five == " Tue "@
        ||| five == " Wed "@
        ||| five == " Thu "@
        ||| five == " Fri "@
        ||| five == " Sat "@
        ||| five == " Sun "@
    })
}

/// A weekday stands where one of the seven stands, with a space on either side.
proof fn lemma_day_stands(line: Seq<char>, i: int)
    ensures
        weekday_at(line, i) <==> day_stands(line, i),
{
    reveal_strlit(" Mon ");
    reveal_strlit(" Tue ");
    reveal_strlit(" Wed ");
    reveal_strlit(" Thu ");
    reveal_strlit(" Fri ");
    reveal_strlit(" Sat ");
    reveal_strlit(" Sun ");
    let w = weekdays();
    assert(w[0] == " Mon "@ && w[1] == " Tue "@ && w[2] == " Wed "@ && w[3] == " Thu "@ && w[4]
        == " Fri "@ && w[5] == " Sat "@ && w[6] == " Sun "@);
    if day_stands(line, i) {
        let five = line.subrange(i, i + 5);
        let k: int = if five == " Mon "@ {
            0
        } else if five == " Tue "@ {
            1
        } else if five == " Wed "@ {
            2
        } else if five == " Thu "@ {
            3
        } else if five == " Fri "@ {
            4
        } else if five == " Sat "@ {
            5
        } else {
            6
        };
        assert(occurs_at(line, weekdays()[k], i));
    }
    if weekday_at(line, i) {
        let k = choose|k: int|
            0 <= k < weekdays().len() && occurs_at(line, #[trigger] weekdays()[k], i);
        assert(weekdays()[k].len() == 5);
    }
}

/// The date of a line is taken at the first weekday that stands in it, from the name on,
/// up to 25 characters and without the white space around them. A line in which none
/// stands has no date.
pub proof fn law_date_text(line: Seq<char>, at: int)
    ensures
        day_stands(line, at) && (forall|j: int| 0 <= j < at ==> !#[trigger] day_stands(line, j))
            ==> date_text(line) == Some(
            trim(
                line.subrange(
                    at + 1,
                    if line.len() - (at + 1) <= 25 {
                        line.len() as int
                    } else {
                        at + 26
                    },
                ),
            ),
        ),
        (forall|j: int| 0 <= j < line.len() ==> !#[trigger] day_stands(line, j)) ==> date_text(line)
            is None,
{
    law_first_weekday(line, 0);
    if let Some(k) = weekday_from(line, 0) {
        lemma_day_stands(line, k);
        assert forall|j: int| 0 <= j < k implies !#[trigger] day_stands(line, j) by {
            lemma_day_stands(line, j);
        }
        if day_stands(line, at) && (forall|j: int|
            0 <= j < at ==> !#[trigger] day_stands(line, j)) {
            assert(k == at);
            let rest = line.skip(at + 1);
            if rest.len() <= 25 {
                assert(line.subrange(at + 1, line.len() as int) =~= rest);
            } else {
                assert(line.subrange(at + 1, at + 26) =~= rest.take(25));
            }
        }
    } else {
        if 0 <= at < line.len() {
            lemma_day_stands(line, at);
        }
    }
}

/// A date reads back from its line: one of 24 characters, as `last` writes it, behind a
/// space and in front of a space or the end, is the date of the line if no weekday stands
/// before it, whatever stands behind.
pub proof fn law_date_reads_back(before: Seq<char>, date: Seq<char>, after: Seq<char>)
    requires
        date.len() == 24,
        date[3] == ' ',
        !is_white(date[0]),
        !is_white(date.last()),
        after.len() > 0 ==> after[0] == ' ',
        ({
            let line = before + seq![' '] + date + after;
            day_stands(line, before.len() as int) && forall|j: int|
                0 <= j < before.len() ==> !#[trigger] day_stands(line, j)
        }),
    ensures
        date_text(before + seq![' '] + date + after) == Some(date),
{
    let line = before + seq![' '] + date + after;
    let at = before.len() as int;
    law_date_text(line, at);
    let none = Seq::<char>::empty();
    if after.len() == 0 {
        assert(line.subrange(at + 1, line.len() as int) =~= none + date + none);
        law_trim(none, date, none);
    } else {
        let end = if line.len() - (at + 1) <= 25 {
            line.len() as int
        } else {
            at + 26
        };
        assert(line.subrange(at + 1, end) =~= none + date + seq![' ']);
        law_trim(none, date, seq![' ']);
    }
}

/// Whatever the date, it is handed as it is to `date`, and to `date` with each of two
/// formats.
pub proof fn law_last_date_words(date: Seq<char>)
    ensures
        last_date_words(date).len() == 3,
        last_date_words(date)[0] == seq!["date"@, "-d"@, date, "+%s"@],
        last_date_words(date)[1] == seq![
            "date"@,
            "-j"@,
            "-f"@,
            "%a %b %e %H:%M:%S %Y"@,
            date,
            "+%s"@,
        ],
        last_date_words(date)[2] == seq![
            "date"@,
            "-j"@,
            "-f"@,
            "%a %b %d %H:%M:%S %Y"@,
            date,
            "+%s"@,
        ],
{
}

/// The known instants of two rows are those of the first and then those of the second;
/// one that is known counts, and one that is not does not.
pub proof fn law_known(a: Seq<Option<u64>>, b: Seq<Option<u64>>, t: u64)
    ensures
        known(a + b) == known(a) + known(b),
        known(seq![Some(t)]) == seq![t],
        known(seq![None::<u64>]).len() == 0,
        known(Seq::empty()).len() == 0,
    decreases b.len(),
{
    let nothing = Seq::<Option<u64>>::empty();
    assert(known(nothing) =~= Seq::empty());
    assert(seq![Some(t)].drop_last() =~= nothing);
    assert(seq![None::<u64>].drop_last() =~= nothing);
    assert(seq![Some(t)].last() == Some(t));
    assert(seq![None::<u64>].last() == None::<u64>);
    assert(known(seq![Some(t)]) =~= seq![t]);
    if b.len() == 0 {
        assert(a + b =~= a);
        assert(b =~= nothing);
        assert(known(a) + known(b) =~= known(a));
    } else {
        let d = b.drop_last();
        law_known(a, d, t);
        assert((a + b).drop_last() =~= a + d);
        assert((a + b).last() == b.last());
        assert(known(a + b) =~= known(a) + known(b));
    }
}

/// The events that come out are the known instants, each as often as it occurs, none
/// before an earlier one.
pub proof fn law_events_ascend(stamps: Seq<Option<u64>>)
    ensures
        ({
            let events = stable_sort(known(stamps), order_of::<u64>());
            &&& events.to_multiset() == known(stamps).to_multiset()
            &&& forall|i: int, j: int|
                #![trigger events[i], events[j]]
                0 <= i < j < events.len() ==> events[i] <= events[j]
        }),
{
    let key = order_of::<u64>();
    let events = stable_sort(known(stamps), key);
    law_stable_sort(known(stamps), key);
    law_sort_permutes(known(stamps), key);
    assert forall|i: int, j: int|
        #![trigger events[i], events[j]]
        0 <= i < j < events.len() implies events[i] <= events[j] by {
        assert(key(events[i]) <= key(events[j]));
    }
}

/// One more shutdown changes nothing of the pairs before. It is paired with the first
/// reboot that is later than it and than every shutdown before it, and left out if there
/// is no such reboot. `r` stands for the position of a reboot.
pub proof fn law_next_pair(shutdowns: Seq<u64>, s: u64, reboots: Seq<u64>, r: int)
    ensures
        pairs(Seq::empty(), reboots).len() == 0,
        0 <= r < reboots.len() && (forall|i: int|
            0 <= i <= shutdowns.len() ==> #[trigger] shutdowns.push(s)[i] < reboots[r]) && (forall|
            q: int,
        |
            0 <= q < r ==> exists|i: int|
                0 <= i <= shutdowns.len() && #[trigger] reboots[q] <= #[trigger] shutdowns.push(
                    s,
                )[i]) ==> pairs(shutdowns.push(s), reboots) == pairs(shutdowns, reboots).push(
            (s, reboots[r]),
        ),
        (forall|q: int|
            0 <= q < reboots.len() ==> exists|i: int|
                0 <= i <= shutdowns.len() && #[trigger] reboots[q] <= #[trigger] shutdowns.push(
                    s,
                )[i]) ==> pairs(shutdowns.push(s), reboots) == pairs(shutdowns, reboots),
{
    let all = shutdowns.push(s);
    let m = latest(all);
    assert(all.drop_last() =~= shutdowns);
    lemma_latest(all);
    lemma_first_after_is(reboots, m, 0);
    if 0 <= r < reboots.len() && (forall|i: int|
        0 <= i <= shutdowns.len() ==> #[trigger] all[i] < reboots[r]) && (forall|q: int|
        0 <= q < r ==> exists|i: int|
            0 <= i <= shutdowns.len() && #[trigger] reboots[q] <= #[trigger] all[i]) {
        let k = first_after(reboots, m, 0);
        let top = choose|i: int| 0 <= i < all.len() && #[trigger] all[i] == m;
        assert(all[top] < reboots[r]);
        if let Some(k) = k {
            if k < r {
                assert(reboots[k] > m);
                let i = choose|i: int|
                    0 <= i <= shutdowns.len() && #[trigger] reboots[k] <= #[trigger] all[i];
                assert(all[i] <= m);
            }
            assert(k == r);
        }
    }
    if forall|q: int|
        0 <= q < reboots.len() ==> exists|i: int|
            0 <= i <= shutdowns.len() && #[trigger] reboots[q] <= #[trigger] all[i] {
        if let Some(k) = first_after(reboots, m, 0) {
            let i = choose|i: int|
                0 <= i <= shutdowns.len() && #[trigger] reboots[k] <= #[trigger] all[i];
            assert(all[i] <= m);
        }
    }
}

/// The latest of some instants is one of them, and none is later.
proof fn lemma_latest(s: Seq<u64>)
    requires
        s.len() > 0,
    ensures
        exists|i: int| 0 <= i < s.len() && #[trigger] s[i] == latest(s),
        forall|i: int| 0 <= i < s.len() ==> #[trigger] s[i] <= latest(s),
    decreases s.len(),
{
    let d = s.drop_last();
    assert(s[s.len() - 1] == s.last());
    if d.len() > 0 {
        lemma_latest(d);
        let k = choose|i: int| 0 <= i < d.len() && #[trigger] d[i] == latest(d);
        assert(s[k] == d[k]);
        assert forall|i: int| 0 <= i < s.len() implies #[trigger] s[i] <= latest(s) by {
            if i < d.len() {
                assert(s[i] == d[i]);
            }
        }
    } else {
        assert(latest(d) == 0);
    }
}

/// The earliest of some instants is one of them, and none is earlier; there is only one
/// such.
pub proof fn law_earliest(s: Seq<u64>, t: u64, other: u64)
    requires
        is_earliest(s, t),
    ensures
        exists|i: int| 0 <= i < s.len() && #[trigger] s[i] == t,
        forall|i: int| 0 <= i < s.len() ==> t <= #[trigger] s[i],
        is_earliest(s, other) ==> other == t,
{
    let i = s.index_of(t);
    assert(s[i] == t);
    if is_earliest(s, other) {
        let j = s.index_of(other);
        assert(s[j] == other);
    }
}

} // verus!
