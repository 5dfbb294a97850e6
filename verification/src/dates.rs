//! Asking `date`: which command to try next, and when an answer has come.
//!
//! Reading and writing dates is left to the system's `date`, which takes its
//! arguments in one way on GNU systems and in another on BSD systems. Each
//! function here is given the outcomes of the commands tried so far and says
//! what is to be done next.

use vstd::prelude::*;
use crate::command::{CommandOutcome, Invocation};
use crate::number::{decimal, law_decimal_reads_back, parse_u64, read_u64, write_u64};
use crate::text::{all_white, chars_of, is_white, law_trim, string_of, trim, trimmed};

verus! {

/// What to do about a date: run a command and ask again with its outcome, or
/// stop with the answer, which may be that there is none.
#[derive(Debug, PartialEq, Eq)]
pub enum DateStep {
    Run(Invocation),
    Done(Option<u64>),
}

/// What to do about the words for an instant: run a command and ask again with
/// its outcome, or stop with the words.
#[derive(Debug, PartialEq, Eq)]
pub enum TextStep {
    Run(Invocation),
    Done(String),
}

/// The number of seconds that a command printed.
pub open spec fn answer_secs(o: CommandOutcome) -> Option<u64> {
    match o.printed() {
        Some(t) => parse_u64(trim(t)),
        None => None,
    }
}

/// The first number of seconds among the outcomes from `i` on.
pub open spec fn first_answer(replies: Seq<CommandOutcome>, i: int) -> Option<u64>
    decreases replies.len() - i,
{
    if i < 0 || i >= replies.len() {
        None
    } else if answer_secs(replies[i]) is Some {
        answer_secs(replies[i])
    } else {
        first_answer(replies, i + 1)
    }
}

/// The command line by which GNU `date`, under the name `program`, is asked for
/// the seconds since the epoch.
pub open spec fn gnu_words(program: Seq<char>, when: Seq<char>) -> Seq<Seq<char>> {
    seq![program, "-d"@, when, "+%s"@]
}

/// The command line by which BSD `date` is asked for the seconds since the
/// epoch, given the format of the text.
pub open spec fn bsd_words(format: Seq<char>, when: Seq<char>) -> Seq<Seq<char>> {
    seq!["date"@, "-j"@, "-f"@, format, when, "+%s"@]
}

/// The commands to try for a time that the user gave, in order.
pub open spec fn when_words(when: Seq<char>) -> Seq<Seq<Seq<char>>> {
    seq![
        gnu_words("date"@, when),
        gnu_words("gdate"@, when),
        bsd_words("%Y-%m-%d"@, when),
        bsd_words("%Y-%m-%d %H:%M:%S"@, when),
        bsd_words("%Y-%m-%dT%H:%M:%S"@, when),
        bsd_words("%Y-%m-%d %H:%M"@, when),
    ]
}

/// The commands to try for the words for an instant, in order.
pub open spec fn stamp_words(secs: u64) -> Seq<Seq<Seq<char>>> {
    seq![
        seq!["date"@, "-d"@, "@"@ + decimal(secs as nat), "+%Y-%m-%d %H:%M:%S %Z"@],
        seq!["date"@, "-r"@, decimal(secs as nat), "+%Y-%m-%d %H:%M:%S %Z"@],
    ]
}

/// The first text that a command printed, among the outcomes from `i` on,
/// without the white space around it.
pub open spec fn first_text(replies: Seq<CommandOutcome>, i: int) -> Option<Seq<char>>
    decreases replies.len() - i,
{
    if i < 0 || i >= replies.len() {
        None
    } else {
        match replies[i].printed() {
            Some(t) => Some(trim(t)),
            None => first_text(replies, i + 1),
        }
    }
}

/// The number of seconds that a command printed.
pub fn date_secs(o: &CommandOutcome) -> (r: Option<u64>)
    ensures
        r == answer_secs(*o),
{
    match o.success_text() {
        Some(t) => {
            let v = chars_of(t);
            read_u64(trimmed(v.as_slice()))
        },
        None => None,
    }
}

/// The first number of seconds among the outcomes.
pub fn first_date_secs(replies: &[CommandOutcome]) -> (r: Option<u64>)
    ensures
        r == first_answer(replies@, 0),
{
    let mut i: usize = 0;
    while i < replies.len()
        invariant
            i <= replies@.len(),
            first_answer(replies@, 0) == first_answer(replies@, i as int),
        decreases replies@.len() - i,
    {
        let answer = date_secs(&replies[i]);
        if answer.is_some() {
            return answer;
        }
        i = i + 1;
    }
    None
}

/// The command that asks GNU `date` for the seconds since the epoch.
pub(crate) fn gnu_date(program: &str, when: &str) -> (r: Invocation)
    ensures
        r.words() == gnu_words(program@, when@),
{
    let r = Invocation::new(program).arg("-d").arg(when).arg("+%s");
    assert(r.words() =~= gnu_words(program@, when@));
    r
}

/// The command that asks BSD `date` for the seconds since the epoch.
pub(crate) fn bsd_date(format: &str, when: &str) -> (r: Invocation)
    ensures
        r.words() == bsd_words(format@, when@),
{
    let r = Invocation::new("date").arg("-j").arg("-f").arg(format).arg(when).arg("+%s");
    assert(r.words() =~= bsd_words(format@, when@));
    r
}

/// Reads a time that the user gave, in seconds since the epoch. The first
/// outcome that holds a number is the answer; without one the next command is
/// tried, until there is none left.
pub fn parse_when(s: &str, replies: &[CommandOutcome]) -> (r: DateStep)
    ensures
        match r {
            DateStep::Done(Some(t)) => first_answer(replies@, 0) == Some(t),
            DateStep::Run(command) => first_answer(replies@, 0) is None && replies@.len()
                < when_words(s@).len() && command.words() == when_words(s@)[replies@.len() as int],
            DateStep::Done(None) => first_answer(replies@, 0) is None && replies@.len()
                >= when_words(s@).len(),
        },
{
    if let Some(t) = first_date_secs(replies) {
        return DateStep::Done(Some(t));
    }
    match replies.len() {
        0 => DateStep::Run(gnu_date("date", s)),
        1 => DateStep::Run(gnu_date("gdate", s)),
        2 => DateStep::Run(bsd_date("%Y-%m-%d", s)),
        3 => DateStep::Run(bsd_date("%Y-%m-%d %H:%M:%S", s)),
        4 => DateStep::Run(bsd_date("%Y-%m-%dT%H:%M:%S", s)),
        5 => DateStep::Run(bsd_date("%Y-%m-%d %H:%M", s)),
        _ => DateStep::Done(None),
    }
}

/// Words an instant given in seconds since the epoch. The first command that
/// succeeds gives the words; if none does, they are `unix:` and the number.
pub fn fmt_unix_secs(secs: u64, replies: &[CommandOutcome]) -> (r: TextStep)
    ensures
        match r {
            TextStep::Run(command) => first_text(replies@, 0) is None && replies@.len()
                < stamp_words(secs).len() && command.words() == stamp_words(
                secs,
            )[replies@.len() as int],
            TextStep::Done(text) => match first_text(replies@, 0) {
                Some(t) => text@ == t,
                None => replies@.len() >= stamp_words(secs).len() && text@ == "unix:"@
                    + decimal(secs as nat),
            },
        },
{
    let mut i: usize = 0;
    while i < replies.len()
        invariant
            i <= replies@.len(),
            first_text(replies@, 0) == first_text(replies@, i as int),
        decreases replies@.len() - i,
    {
        if let Some(t) = replies[i].success_text() {
            let v = chars_of(t);
            return TextStep::Done(string_of(trimmed(v.as_slice())));
        }
        i = i + 1;
    }
    let number = write_u64(secs);
    match replies.len() {
        0 => {
            let mut at = "@".to_owned();
            at.append(number.as_str());
            let command = Invocation::new("date").arg("-d").arg(at.as_str()).arg(
                "+%Y-%m-%d %H:%M:%S %Z",
            );
            assert(command.words() =~= stamp_words(secs)[0]);
            TextStep::Run(command)
        },
        1 => {
            let command = Invocation::new("date").arg("-r").arg(number.as_str()).arg(
                "+%Y-%m-%d %H:%M:%S %Z",
            );
            assert(command.words() =~= stamp_words(secs)[1]);
            TextStep::Run(command)
        },
        _ => {
            let mut text = "unix:".to_owned();
            text.append(number.as_str());
            TextStep::Done(text)
        },
    }
}

/// The answer of a command is the number that it printed, whatever white space stands
/// around it. One that failed, or printed anything else, gave none.
pub proof fn law_answer_secs(o: CommandOutcome, a: Seq<char>, m: Seq<char>, b: Seq<char>)
    requires
        all_white(a),
        all_white(b),
        m.len() > 0 ==> !is_white(m[0]) && !is_white(m.last()),
    ensures
        match o {
            CommandOutcome::NotStarted { .. } => answer_secs(o) is None,
            CommandOutcome::Exited { success, stdout, .. } => {
                &&& !success ==> answer_secs(o) is None
                &&& success && stdout@ == a + m + b ==> answer_secs(o) == parse_u64(m)
            },
        },
{
    law_trim(a, m, b);
}

/// The first answer is one that a command gave, and no command before it gave any;
/// without one, no command gave any.
pub proof fn law_first_answer(replies: Seq<CommandOutcome>, i: int)
    requires
        0 <= i <= replies.len(),
    ensures
        match first_answer(replies, i) {
            Some(t) => exists|k: int|
                i <= k < replies.len() && #[trigger] answer_secs(replies[k]) == Some(t)
                    && forall|j: int| i <= j < k ==> #[trigger] answer_secs(replies[j]) is None,
            None => forall|j: int|
                i <= j < replies.len() ==> #[trigger] answer_secs(replies[j]) is None,
        },
    decreases replies.len() - i,
{
    if i < replies.len() {
        if answer_secs(replies[i]) is Some {
            assert(answer_secs(replies[i]) == Some(first_answer(replies, i)->0));
        } else {
            law_first_answer(replies, i + 1);
            if let Some(t) = first_answer(replies, i + 1) {
                let k = choose|k: int|
                    i + 1 <= k < replies.len() && #[trigger] answer_secs(replies[k]) == Some(t)
                        && forall|j: int|
                        i + 1 <= j < k ==> #[trigger] answer_secs(replies[j]) is None;
                assert forall|j: int| i <= j < k implies #[trigger] answer_secs(replies[j])
                    is None by {}
                assert(answer_secs(replies[k]) == Some(t));
            }
        }
    }
}

/// The first text is what the first command that succeeded printed, without the white
/// space around it; without one, no command succeeded.
pub proof fn law_first_text(replies: Seq<CommandOutcome>, i: int)
    requires
        0 <= i <= replies.len(),
    ensures
        match first_text(replies, i) {
            Some(t) => exists|k: int|
                i <= k < replies.len() && (#[trigger] replies[k].printed() matches Some(x) && t
                    == trim(x)) && forall|j: int|
                    i <= j < k ==> #[trigger] replies[j].printed() is None,
            None => forall|j: int|
                i <= j < replies.len() ==> #[trigger] replies[j].printed() is None,
        },
    decreases replies.len() - i,
{
    if i < replies.len() {
        if replies[i].printed() is Some {
            assert(replies[i].printed() is Some);
        } else {
            law_first_text(replies, i + 1);
            if let Some(t) = first_text(replies, i + 1) {
                let k = choose|k: int|
                    i + 1 <= k < replies.len() && (#[trigger] replies[k].printed() matches Some(x)
                        && t == trim(x)) && forall|j: int|
                        i + 1 <= j < k ==> #[trigger] replies[j].printed() is None;
                assert forall|j: int| i <= j < k implies #[trigger] replies[j].printed() is None by {
                }
                assert(replies[k].printed() is Some);
            }
        }
    }
}

/// Whatever time the user gives, it is handed as it is to `date`, to `gdate`, and to
/// `date` with each of four formats.
pub proof fn law_when_words(when: Seq<char>)
    ensures
        when_words(when).len() == 6,
        when_words(when)[0] == seq!["date"@, "-d"@, when, "+%s"@],
        when_words(when)[1] == seq!["gdate"@, "-d"@, when, "+%s"@],
        when_words(when)[2] == seq!["date"@, "-j"@, "-f"@, "%Y-%m-%d"@, when, "+%s"@],
        when_words(when)[3] == seq!["date"@, "-j"@, "-f"@, "%Y-%m-%d %H:%M:%S"@, when, "+%s"@],
        when_words(when)[4] == seq!["date"@, "-j"@, "-f"@, "%Y-%m-%dT%H:%M:%S"@, when, "+%s"@],
        when_words(when)[5] == seq!["date"@, "-j"@, "-f"@, "%Y-%m-%d %H:%M"@, when, "+%s"@],
{
}

/// Whatever the instant, the number that `date` is asked to word is its number of
/// seconds.
pub proof fn law_stamp_words(secs: u64)
    ensures
        stamp_words(secs).len() == 2,
        stamp_words(secs)[0].len() == 4,
        stamp_words(secs)[0][0] == "date"@ && stamp_words(secs)[0][1] == "-d"@,
        stamp_words(secs)[0][3] == "+%Y-%m-%d %H:%M:%S %Z"@,
        stamp_words(secs)[0][2].len() > 0 && stamp_words(secs)[0][2][0] == '@',
        parse_u64(stamp_words(secs)[0][2].skip(1)) == Some(secs),
        stamp_words(secs)[1].len() == 4,
        stamp_words(secs)[1][0] == "date"@ && stamp_words(secs)[1][1] == "-r"@,
        stamp_words(secs)[1][3] == "+%Y-%m-%d %H:%M:%S %Z"@,
        parse_u64(stamp_words(secs)[1][2]) == Some(secs),
{
    reveal_strlit("@");
    law_decimal_reads_back(secs);
    assert(("@"@ + decimal(secs as nat)).skip(1) =~= decimal(secs as nat));
}

} // verus!
