//! Powered-off windows from the boots that `journalctl` lists.

use vstd::prelude::*;
use vstd::slice::slice_subrange;
use crate::command::{CommandOutcome, Invocation};
use crate::number::{decimal, is_digit, law_decimal_reads_back, parse_u64, read_u64};
use crate::sort::{has_key, law_sort_permutes, law_stable_sort, lemma_sort_maps, order_of};
use crate::sort::{sort_by_key, stable_sort, with_key, Keyed};
use crate::text::{all_white, chars_of, either_of, equal_to, find_char, find_either, find_text};
use crate::text::{first_word, is_white, law_find_char, law_find_either, law_first_word};
use crate::text::{lemma_find_from, lemma_find_text_from, occurs_at, position_of};
use crate::text::{position_of_either, position_of_text, split_at_first, string_of, trim, trimmed};
use crate::text::word_at_start;
use crate::windows::{covers, have_length, in_order, none_after, none_before};

verus! {

/// One boot: its identifier, and the times of its first and last log entry in
/// microseconds since the epoch.
#[derive(Debug, PartialEq, Eq)]
pub struct Boot {
    pub boot_id: String,
    pub first_entry_us: u64,
    pub last_entry_us: u64,
}

/// What a boot stands for.
#[verifier::ext_equal]
pub ghost struct BootRecord {
    pub boot_id: Seq<char>,
    pub first_entry_us: u64,
    pub last_entry_us: u64,
}

impl View for Boot {
    type V = BootRecord;

    open spec fn view(&self) -> BootRecord {
        BootRecord {
            boot_id: self.boot_id@,
            first_entry_us: self.first_entry_us,
            last_entry_us: self.last_entry_us,
        }
    }
}

/// A boot sorts by its first entry.
impl Keyed for Boot {
    open spec fn order(self) -> u64 {
        self.first_entry_us
    }

    fn key(&self) -> (k: u64) {
        self.first_entry_us
    }
}

/// What some boots stand for.
pub open spec fn records(v: Seq<Boot>) -> Seq<BootRecord> {
    v.map_values(record())
}

/// What a boot stands for, as a function.
pub open spec fn record() -> spec_fn(Boot) -> BootRecord {
    |b: Boot| b@
}

/// The time of a boot's first entry, as a function.
pub open spec fn first_entry() -> spec_fn(BootRecord) -> u64 {
    |b: BootRecord| b.first_entry_us
}

/// What stands before the value of a field: the quoted key and a colon, and a
/// quotation mark if the value is a string.
pub open spec fn field_mark(key: Seq<char>, end: Seq<char>) -> Seq<char> {
    "\""@ + key + end
}

/// The text behind the first place at which `mark` stands.
pub open spec fn text_after(s: Seq<char>, mark: Seq<char>) -> Option<Seq<char>> {
    match find_text(s, mark) {
        Some(i) => Some(s.skip(i + mark.len())),
        None => None,
    }
}

/// The string value of a field: what stands between the quotation marks.
pub open spec fn str_field(obj: Seq<char>, key: Seq<char>) -> Option<Seq<char>> {
    match text_after(obj, field_mark(key, "\":\""@)) {
        Some(rest) => match find_char(rest, '"') {
            Some(j) => Some(rest.take(j)),
            None => None,
        },
        None => None,
    }
}

/// The number value of a field: what stands before the next comma or brace,
/// without the white space around it, if that is a number.
pub open spec fn num_field(obj: Seq<char>, key: Seq<char>) -> Option<u64> {
    match text_after(obj, field_mark(key, "\":"@)) {
        Some(rest) => match find_either(rest, ',', '}') {
            Some(j) => parse_u64(trim(rest.take(j))),
            None => None,
        },
        None => None,
    }
}

/// The boot that an object describes, if it has all three fields.
pub open spec fn boot_object(obj: Seq<char>) -> Option<BootRecord> {
    match (str_field(obj, "boot_id"@), num_field(obj, "first_entry"@), num_field(obj, "last_entry"@)) {
        (Some(boot_id), Some(first_entry_us), Some(last_entry_us)) => Some(
            BootRecord { boot_id, first_entry_us, last_entry_us },
        ),
        _ => None,
    }
}

/// The boots in a listing: one for each object, which reaches from an opening
/// brace to the next closing one. There is no answer if an object is not closed
/// or does not describe a boot.
pub open spec fn boots_json(s: Seq<char>) -> Option<Seq<BootRecord>>
    decreases s.len(),
{
    match find_char(s, '{') {
        None => Some(Seq::empty()),
        Some(i) => {
            let t = s.skip(i);
            match find_char(t, '}') {
                None => None,
                Some(j) => {
                    proof {
                        lemma_find_from(s, equal_to('{'), 0);
                        lemma_find_from(t, equal_to('}'), 0);
                    }
                    match (boot_object(t.take(j + 1)), boots_json(t.skip(j + 1))) {
                        (Some(b), Some(rest)) => Some(seq![b] + rest),
                        _ => None,
                    }
                },
            }
        },
    }
}

/// The part of `s` behind the first place at which a field's mark stands.
fn after_mark<'a>(s: &'a [char], key: &str, end: &str) -> (r: Option<&'a [char]>)
    ensures
        match r {
            Some(rest) => text_after(s@, field_mark(key@, end@)) == Some(rest@),
            None => text_after(s@, field_mark(key@, end@)) is None,
        },
{
    let mut mark = "\"".to_owned();
    mark.append(key);
    mark.append(end);
    let mark = chars_of(mark.as_str());
    match position_of_text(s, mark.as_slice()) {
        Some(i) => {
            let start: usize = i + mark.len();
            assert(s@.subrange(start as int, s@.len() as int) =~= s@.skip(start as int));
            Some(slice_subrange(s, start, s.len()))
        },
        None => None,
    }
}

/// The string value of a field, out of an object's characters.
fn read_str_field(obj: &[char], key: &str) -> (r: Option<String>)
    ensures
        match r {
            Some(v) => str_field(obj@, key@) == Some(v@),
            None => str_field(obj@, key@) is None,
        },
{
    let rest = after_mark(obj, key, "\":\"")?;
    let j = position_of(rest, '"')?;
    assert(rest@.subrange(0, j as int) =~= rest@.take(j as int));
    Some(string_of(slice_subrange(rest, 0, j)))
}

/// The number value of a field, out of an object's characters.
fn read_num_field(obj: &[char], key: &str) -> (r: Option<u64>)
    ensures
        r == num_field(obj@, key@),
{
    let rest = after_mark(obj, key, "\":")?;
    let j = position_of_either(rest, ',', '}')?;
    assert(rest@.subrange(0, j as int) =~= rest@.take(j as int));
    read_u64(trimmed(slice_subrange(rest, 0, j)))
}

/// The string value of a field.
pub fn extract_str_field(obj: &str, key: &str) -> (r: Option<String>)
    ensures
        match r {
            Some(v) => str_field(obj@, key@) == Some(v@),
            None => str_field(obj@, key@) is None,
        },
{
    let v = chars_of(obj);
    read_str_field(v.as_slice(), key)
}

/// The number value of a field.
pub fn extract_num_field(obj: &str, key: &str) -> (r: Option<u64>)
    ensures
        r == num_field(obj@, key@),
{
    let v = chars_of(obj);
    read_num_field(v.as_slice(), key)
}

/// The boots in a listing, in its order.
pub fn parse_boots_json(s: &str) -> (r: Option<Vec<Boot>>)
    ensures
        match r {
            Some(v) => boots_json(s@) == Some(records(v@)),
            None => boots_json(s@) is None,
        },
{
    let mut boots: Vec<Boot> = Vec::new();
    let all = chars_of(s);
    let mut rest: &[char] = all.as_slice();
    proof {
        if let Some(b) = boots_json(s@) {
            assert(records(boots@) + b =~= b);
        }
    }
    loop
        invariant
            match boots_json(rest@) {
                Some(b) => boots_json(s@) == Some(records(boots@) + b),
                None => boots_json(s@) is None,
            },
        ensures
            find_char(rest@, '{') is None,
        decreases rest@.len(),
    {
        let i = match position_of(rest, '{') {
            Some(i) => i,
            None => break ,
        };
        assert(rest@.subrange(i as int, rest@.len() as int) =~= rest@.skip(i as int));
        let t = slice_subrange(rest, i, rest.len());
        let j = position_of(t, '}')?;
        assert(t@.subrange(0, j + 1) =~= t@.take(j + 1));
        assert(t@.subrange(j + 1, t@.len() as int) =~= t@.skip(j + 1));
        let obj = slice_subrange(t, 0, j + 1);
        let boot_id = read_str_field(obj, "boot_id")?;
        let first_entry_us = read_num_field(obj, "first_entry")?;
        let last_entry_us = read_num_field(obj, "last_entry")?;
        let ghost before = boots@;
        let ghost whole = rest@;
        let boot = Boot { boot_id, first_entry_us, last_entry_us };
        boots.push(boot);
        rest = slice_subrange(t, j + 1, t.len());
        proof {
            assert(records(boots@) =~= records(before).push(boot@));
            if let Some(b) = boots_json(rest@) {
                assert(records(before) + (seq![boot@] + b) =~= records(boots@) + b);
            }
        }
    }
    assert(records(boots@) + Seq::<BootRecord>::empty() =~= records(boots@));
    Some(boots)
}

/// The command that lists the boots.
pub fn list_boots_command() -> (r: Invocation)
    ensures
        r.words() == seq!["journalctl"@, "--list-boots"@, "-o"@, "json"@],
{
    let r = Invocation::new("journalctl").arg("--list-boots").arg("-o").arg("json");
    assert(r.words() =~= seq!["journalctl"@, "--list-boots"@, "-o"@, "json"@]);
    r
}

/// The boots that a run of `journalctl --list-boots` printed, by the time of
/// their first entry; boots with the same time keep the listing's order.
pub fn list_boots(out: &CommandOutcome) -> (r: Result<Vec<Boot>, String>)
    ensures
        match out.printed() {
            None => r matches Err(e) && e@ == out.complaint("journalctl"@),
            Some(t) => match boots_json(t) {
                Some(b) => r matches Ok(v) && records(v@) == stable_sort(b, first_entry()),
                None => r matches Err(e) && e@ == "couldn't parse journalctl JSON"@,
            },
        },
        r matches Ok(v) ==> forall|i: int, j: int|
            #![trigger v@[i], v@[j]]
            0 <= i < j < v@.len() ==> v@[i].first_entry_us <= v@[j].first_entry_us,
{
    match out.output_of("journalctl") {
        Err(e) => Err(e),
        Ok(t) => match parse_boots_json(t) {
            None => Err("couldn't parse journalctl JSON".to_owned()),
            Some(boots) => {
                let mut boots = boots;
                proof {
                    lemma_sort_maps(boots@, record(), order_of::<Boot>(), first_entry());
                }
                proof {
                    law_stable_sort(boots@, order_of::<Boot>());
                }
                sort_by_key(&mut boots);
                proof {
                    let key = order_of::<Boot>();
                    assert forall|i: int, j: int|
                        #![trigger boots@[i], boots@[j]]
                        0 <= i < j < boots@.len() implies boots@[i].first_entry_us
                        <= boots@[j].first_entry_us by {
                        assert(key(boots@[i]) <= key(boots@[j]));
                    }
                }
                Ok(boots)
            },
        },
    }
}

/// The command line that asks when the user space of a boot was ready.
pub open spec fn ready_words(boot_id: Seq<char>) -> Seq<Seq<char>> {
    seq![
        "journalctl"@,
        "_PID=1"@,
        "-b"@,
        boot_id,
        "-g"@,
        "Startup finished in.*="@,
        "-o"@,
        "short-unix"@,
        "-n"@,
        "1"@,
    ]
}

/// The command that prints when the user space of a boot was ready.
pub fn userspace_ready_command(boot_id: &str) -> (r: Invocation)
    ensures
        r.words() == ready_words(boot_id@),
{
    let r = Invocation::new("journalctl").arg("_PID=1").arg("-b").arg(boot_id).arg("-g").arg(
        "Startup finished in.*=",
    ).arg("-o").arg("short-unix").arg("-n").arg("1");
    assert(r.words() =~= ready_words(boot_id@));
    r
}

/// The time that a log line begins with, `seconds.microseconds`: the seconds, and
/// the first six digits behind the point.
pub open spec fn line_time(text: Seq<char>) -> Option<(u64, u64)> {
    match first_word(text) {
        Some(word) => match find_char(word, '.') {
            Some(i) => {
                let frac = word.skip(i + 1);
                match (parse_u64(word.take(i)), parse_u64(frac.take(6))) {
                    (Some(secs), Some(frac_us)) => if frac.len() >= 6 {
                        Some((secs, frac_us))
                    } else {
                        None
                    },
                    _ => None,
                }
            },
            None => None,
        },
        None => None,
    }
}

/// The time that the printed log line begins with: its seconds, and the
/// microseconds behind the point.
pub fn startup_time(out: &CommandOutcome) -> (r: Option<(u64, u64)>)
    ensures
        r == match out.printed() {
            Some(t) => line_time(t),
            None => None,
        },
{
    let text = out.success_text()?;
    let v = chars_of(text);
    let word = word_at_start(v.as_slice())?;
    let (secs, frac) = split_at_first(word, '.')?;
    let secs = read_u64(secs)?;
    if frac.len() < 6 {
        return None;
    }
    assert(frac@.subrange(0, 6) =~= frac@.take(6));
    let frac_us = read_u64(slice_subrange(frac, 0, 6))?;
    Some((secs, frac_us))
}

/// When the user space of a boot was ready, in microseconds since the epoch, from
/// a run of the command for it.
pub fn userspace_ready_us(out: &CommandOutcome) -> (r: Option<u64>)
    requires
        out.printed() matches Some(t) ==> (line_time(t) matches Some((secs, frac_us)) ==> secs
            * 1_000_000 + frac_us <= u64::MAX),
    ensures
        match out.printed() {
            Some(t) => match line_time(t) {
                Some((secs, frac_us)) => r == Some((secs * 1_000_000 + frac_us) as u64),
                None => r is None,
            },
            None => r is None,
        },
        r matches Some(us) ==> (out.printed() matches Some(t) && line_time(t) matches Some((
            secs,
            frac_us,
        )) && us >= frac_us && (us - frac_us) % 1_000_000 == 0 && (us - frac_us) / 1_000_000
            == secs),
{
    let (secs, frac_us) = startup_time(out)?;
    Some(secs * 1_000_000 + frac_us)
}

/// The commands that print when the user space was ready, of each boot but the
/// first: the `i`-th is about `boots[i + 1]`.
pub fn ready_commands(boots: &[Boot]) -> (r: Vec<Invocation>)
    ensures
        r@.len() == if boots@.len() == 0 {
            0
        } else {
            boots@.len() - 1
        },
        forall|i: int|
            0 <= i < r@.len() ==> (#[trigger] r@[i]).words() == ready_words(
                boots@[i + 1].boot_id@,
            ),
{
    let mut r: Vec<Invocation> = Vec::new();
    let mut i: usize = 1;
    while i < boots.len()
        invariant
            1 <= i,
            i == 1 || i <= boots@.len(),
            r@.len() == i - 1,
            forall|j: int|
                0 <= j < r@.len() ==> (#[trigger] r@[j]).words() == ready_words(
                    boots@[j + 1].boot_id@,
                ),
        decreases boots@.len() - i,
    {
        r.push(userspace_ready_command(boots[i].boot_id.as_str()));
        i = i + 1;
    }
    r
}

/// When the machine was up again after the `i`-th boot ended: when the next
/// boot's user space was ready, or else its first entry.
pub open spec fn up_again(boots: Seq<BootRecord>, ready: Seq<Option<u64>>, i: int) -> u64 {
    match ready[i] {
        Some(t) => t,
        None => boots[i + 1].first_entry_us,
    }
}

/// The windows between the first `n` boots and those that follow them: from the
/// last entry of one boot to when the next one was up, where that is later.
pub open spec fn off_windows(
    boots: Seq<BootRecord>,
    ready: Seq<Option<u64>>,
    n: int,
) -> Seq<(u64, u64)>
    decreases n,
{
    if n <= 0 {
        Seq::empty()
    } else {
        let before = off_windows(boots, ready, n - 1);
        let s = boots[n - 1].last_entry_us;
        let e = up_again(boots, ready, n - 1);
        if e > s {
            before.push((s, e))
        } else {
            before
        }
    }
}

/// The powered-off windows between listed boots and the time of the oldest entry.
/// `ready[i]` is when the user space of `boots[i + 1]` was ready, if known. A listing
/// that failed is handed on, and it is an error if there are no boots.
pub fn linux_windows(listing: Result<Vec<Boot>, String>, ready: &[Option<u64>]) -> (r: Result<
    (Vec<(u64, u64)>, u64),
    String,
>)
    requires
        listing matches Ok(boots) ==> boots@.len() > 0 ==> ready@.len() == boots@.len() - 1,
    ensures
        match listing {
            Err(e) => r == Err::<(Vec<(u64, u64)>, u64), String>(e),
            Ok(boots) => if boots@.len() == 0 {
                r matches Err(e) && e@ == "journalctl returned no boots"@
            } else {
                r matches Ok((windows, oldest)) && oldest == boots@[0].first_entry_us && windows@
                    == off_windows(records(boots@), ready@, boots@.len() - 1)
            },
        },
        listing matches Ok(boots) ==> (r matches Ok((windows, oldest)) ==> (forall|i: int, j: int|
            #![trigger boots@[i], boots@[j]]
            0 <= i < j < boots@.len() ==> boots@[i].first_entry_us <= boots@[j].first_entry_us)
            ==> forall|i: int|
            0 <= i < boots@.len() ==> oldest <= (#[trigger] boots@[i]).first_entry_us),
{
    let boots = match listing {
        Ok(boots) => boots,
        Err(e) => return Err(e),
    };
    if boots.len() == 0 {
        return Err("journalctl returned no boots".to_owned());
    }
    let oldest = boots[0].first_entry_us;
    let mut wins: Vec<(u64, u64)> = Vec::new();
    let mut i: usize = 0;
    while i < boots.len() - 1
        invariant
            i < boots@.len(),
            ready@.len() == boots@.len() - 1,
            wins@ == off_windows(records(boots@), ready@, i as int),
        decreases boots@.len() - i,
    {
        let s = boots[i].last_entry_us;
        let e = match ready[i] {
            Some(t) => t,
            None => boots[i + 1].first_entry_us,
        };
        if e > s {
            wins.push((s, e));
        }
        i = i + 1;
    }
    Ok((wins, oldest))
}

/// Every powered-off window has a length.
pub proof fn law_off_windows_have_length(boots: Seq<BootRecord>, ready: Seq<Option<u64>>, n: int)
    ensures
        have_length(off_windows(boots, ready, n)),
    decreases n,
{
    if n > 0 {
        law_off_windows_have_length(boots, ready, n - 1);
    }
}

/// Whether the log runs forward: no boot's last entry is earlier than the time at
/// which the boot was up, or than the last entry of a boot before it.
pub open spec fn runs_forward(boots: Seq<BootRecord>, ready: Seq<Option<u64>>) -> bool {
    &&& forall|i: int|
        0 < i < boots.len() ==> up_again(boots, ready, i - 1) <= (#[trigger] boots[i]).last_entry_us
    &&& forall|i: int, j: int|
        #![trigger boots[i], boots[j]]
        0 <= i < j < boots.len() ==> boots[i].last_entry_us <= boots[j].last_entry_us
}

/// In a log that runs forward, the windows between boots do not overlap, and none
/// begins before the oldest entry.
pub proof fn law_off_windows_in_order(boots: Seq<BootRecord>, ready: Seq<Option<u64>>, n: int)
    requires
        runs_forward(boots, ready),
        0 <= n < boots.len(),
        ready.len() == boots.len() - 1,
    ensures
        in_order(off_windows(boots, ready, n)),
        none_after(off_windows(boots, ready, n), boots[n].last_entry_us),
        boots[0].first_entry_us <= boots[0].last_entry_us ==> none_before(
            off_windows(boots, ready, n),
            boots[0].first_entry_us,
        ),
    decreases n,
{
    if n > 0 {
        law_off_windows_in_order(boots, ready, n - 1);
        assert(up_again(boots, ready, n - 1) <= boots[n].last_entry_us);
        assert(boots[n - 1].last_entry_us <= boots[n].last_entry_us);
        if n > 1 {
            assert(boots[0].last_entry_us <= boots[n - 1].last_entry_us);
        }
    }
}

/// Whether a text has no quotation mark and no brace.
pub open spec fn is_plain(s: Seq<char>) -> bool {
    forall|i: int| 0 <= i < s.len() ==> #[trigger] s[i] != '"' && s[i] != '{' && s[i] != '}'
}

/// Whether a text is hexadecimal, as boot identifiers are.
pub open spec fn is_hex(s: Seq<char>) -> bool {
    forall|i: int| 0 <= i < s.len() ==> '0' <= #[trigger] s[i] <= '9' || 'a' <= s[i] <= 'f'
}

/// An object up to the value of its identifier.
pub open spec fn upto_id(index: Seq<char>) -> Seq<char> {
    "{\"index\":"@ + index + ",\"boot_id\":\""@
}

/// An object up to the value of its first entry.
pub open spec fn upto_first(index: Seq<char>, boot_id: Seq<char>) -> Seq<char> {
    upto_id(index) + boot_id + "\",\"first_entry\":"@
}

/// An object up to the value of its last entry.
pub open spec fn upto_last(index: Seq<char>, boot_id: Seq<char>, first: u64) -> Seq<char> {
    upto_first(index, boot_id) + decimal(first as nat) + ",\"last_entry\":"@
}

/// A boot as `journalctl` writes it, under its index.
pub open spec fn object_text(index: Seq<char>, b: BootRecord) -> Seq<char> {
    upto_last(index, b.boot_id, b.first_entry_us) + decimal(b.last_entry_us as nat) + "}"@
}

/// The rest of a listing, from behind an object on.
pub open spec fn listing_rest(boots: Seq<(Seq<char>, BootRecord)>) -> Seq<char>
    decreases boots.len(),
{
    if boots.len() == 0 {
        "]"@
    } else {
        ","@ + object_text(boots[0].0, boots[0].1) + listing_rest(boots.drop_first())
    }
}

/// Boots as `journalctl` lists them, each under its index.
pub open spec fn listing(boots: Seq<(Seq<char>, BootRecord)>) -> Seq<char> {
    if boots.len() == 0 {
        "[]"@
    } else {
        "["@ + object_text(boots[0].0, boots[0].1) + listing_rest(boots.drop_first())
    }
}

/// A text that ends with `mark`, and in which it could not begin before, is
/// followed by what is appended to it.
proof fn lemma_text_after(head: Seq<char>, mark: Seq<char>, rest: Seq<char>)
    requires
        mark.len() >= 3,
        occurs_at(head, mark, head.len() - mark.len()),
        forall|j: int|
            0 <= j < head.len() - mark.len() ==> #[trigger] head[j] != mark[0] || head[j + 1]
                != mark[1] || head[j + 2] != mark[2],
    ensures
        text_after(head + rest, mark) == Some(rest),
{
    let s = head + rest;
    let pos = head.len() - mark.len();
    assert(s.subrange(pos, pos + mark.len()) =~= head.subrange(pos, pos + mark.len()));
    assert(occurs_at(s, mark, pos));
    lemma_find_text_from(s, mark, 0);
    let k = find_text(s, mark)->0;
    if k < pos {
        let w = s.subrange(k, k + mark.len());
        assert(w[0] == head[k] && w[1] == head[k + 1] && w[2] == head[k + 2]);
    }
    assert(s.skip(pos + mark.len()) =~= rest);
}

/// The digits of a number hold no white space and nothing that ends a value.
proof fn lemma_digits_are_plain(n: u64)
    ensures
        is_plain(decimal(n as nat)),
        decimal(n as nat).len() > 0,
        forall|i: int| 0 <= i < decimal(n as nat).len() ==> #[trigger] decimal(n as nat)[i] != ',',
        trim(decimal(n as nat)) == decimal(n as nat),
        parse_u64(decimal(n as nat)) == Some(n),
{
    let s = decimal(n as nat);
    law_decimal_reads_back(n);
    assert forall|i: int| 0 <= i < s.len() implies #[trigger] s[i] != '"' && s[i] != '{' && s[i]
        != '}' && s[i] != ',' && !is_white(s[i]) by {
        assert(is_digit(s[i]));
    }
    assert(!is_white(s[0]));
    assert(!is_white(s.last()));
}

/// A number that a comma or a closing brace follows is what the field holds.
proof fn lemma_num_value(n: u64, rest: Seq<char>)
    requires
        rest.len() > 0,
        rest[0] == ',' || rest[0] == '}',
    ensures
        find_either(decimal(n as nat) + rest, ',', '}') == Some(decimal(n as nat).len() as int),
        (decimal(n as nat) + rest).take(decimal(n as nat).len() as int) == decimal(n as nat),
{
    let digits = decimal(n as nat);
    let s = digits + rest;
    lemma_digits_are_plain(n);
    lemma_find_from(s, either_of(',', '}'), 0);
    assert(s[digits.len() as int] == rest[0]);
    assert forall|i: int| 0 <= i < digits.len() implies #[trigger] s[i] == digits[i] by {}
    assert(s.take(digits.len() as int) =~= digits);
}

/// The identifier in an object.
proof fn lemma_id_field(index: Seq<char>, boot_id: Seq<char>, rest: Seq<char>)
    requires
        is_plain(index),
        is_hex(boot_id),
        rest.len() > 0,
        rest[0] == '"',
    ensures
        str_field(upto_id(index) + boot_id + rest, "boot_id"@) == Some(boot_id),
{
    reveal_strlit("{\"index\":");
    reveal_strlit(",\"boot_id\":\"");
    reveal_strlit("\"");
    reveal_strlit("\":\"");
    reveal_strlit("boot_id");
    let open = "{\"index\":"@;
    let head = upto_id(index);
    let mark = field_mark("boot_id"@, "\":\""@);
    let value = boot_id + rest;
    assert(head.subrange(head.len() - mark.len(), head.len() as int) =~= mark);
    assert forall|j: int| 0 <= j < head.len() - mark.len() implies #[trigger] head[j] != mark[0]
        || head[j + 1] != mark[1] || head[j + 2] != mark[2] by {
        if open.len() <= j < open.len() + index.len() {
            assert(head[j] == index[j - open.len()]);
        }
    }
    lemma_text_after(head, mark, value);
    assert(upto_id(index) + boot_id + rest =~= head + value);
    lemma_find_from(value, equal_to('"'), 0);
    assert(value[boot_id.len() as int] == rest[0]);
    assert forall|i: int| 0 <= i < boot_id.len() implies #[trigger] value[i] == boot_id[i] by {}
    assert(value.take(boot_id.len() as int) =~= boot_id);
}

/// The first entry in an object.
proof fn lemma_first_field(index: Seq<char>, boot_id: Seq<char>, first: u64, rest: Seq<char>)
    requires
        is_plain(index),
        is_hex(boot_id),
        rest.len() > 0,
        rest[0] == ',',
    ensures
        num_field(upto_first(index, boot_id) + decimal(first as nat) + rest, "first_entry"@)
            == Some(first),
{
    reveal_strlit("{\"index\":");
    reveal_strlit(",\"boot_id\":\"");
    reveal_strlit("\",\"first_entry\":");
    reveal_strlit("\"");
    reveal_strlit("\":");
    reveal_strlit("first_entry");
    let open = "{\"index\":"@;
    let before = upto_id(index);
    let head = upto_first(index, boot_id);
    let mark = field_mark("first_entry"@, "\":"@);
    let value = decimal(first as nat) + rest;
    assert(head.subrange(head.len() - mark.len(), head.len() as int) =~= mark);
    assert forall|j: int| 0 <= j < head.len() - mark.len() implies #[trigger] head[j] != mark[0]
        || head[j + 1] != mark[1] || head[j + 2] != mark[2] by {
        if open.len() <= j < open.len() + index.len() {
            assert(head[j] == index[j - open.len()]);
        }
        if before.len() <= j < before.len() + boot_id.len() {
            assert(head[j] == boot_id[j - before.len()]);
        }
        if j == before.len() - 1 {
            if boot_id.len() >= 1 {
                assert(head[j + 1] == boot_id[0]);
            }
            if boot_id.len() >= 2 {
                assert(head[j + 2] == boot_id[1]);
            }
        }
    }
    lemma_text_after(head, mark, value);
    assert(upto_first(index, boot_id) + decimal(first as nat) + rest =~= head + value);
    lemma_num_value(first, rest);
    lemma_digits_are_plain(first);
}

/// The last entry in an object.
proof fn lemma_last_field(index: Seq<char>, b: BootRecord, rest: Seq<char>)
    requires
        is_plain(index),
        is_hex(b.boot_id),
        rest.len() > 0,
        rest[0] == '}',
    ensures
        num_field(
            upto_last(index, b.boot_id, b.first_entry_us) + decimal(b.last_entry_us as nat) + rest,
            "last_entry"@,
        ) == Some(b.last_entry_us),
{
    reveal_strlit("{\"index\":");
    reveal_strlit(",\"boot_id\":\"");
    reveal_strlit("\",\"first_entry\":");
    reveal_strlit(",\"last_entry\":");
    reveal_strlit("\"");
    reveal_strlit("\":");
    reveal_strlit("last_entry");
    let open = "{\"index\":"@;
    let before_id = upto_id(index);
    let before_first = upto_first(index, b.boot_id);
    let digits = decimal(b.first_entry_us as nat);
    let head = upto_last(index, b.boot_id, b.first_entry_us);
    let mark = field_mark("last_entry"@, "\":"@);
    let value = decimal(b.last_entry_us as nat) + rest;
    lemma_digits_are_plain(b.first_entry_us);
    assert(head.subrange(head.len() - mark.len(), head.len() as int) =~= mark);
    assert forall|j: int| 0 <= j < head.len() - mark.len() implies #[trigger] head[j] != mark[0]
        || head[j + 1] != mark[1] || head[j + 2] != mark[2] by {
        if open.len() <= j < open.len() + index.len() {
            assert(head[j] == index[j - open.len()]);
        }
        if before_id.len() <= j < before_id.len() + b.boot_id.len() {
            assert(head[j] == b.boot_id[j - before_id.len()]);
        }
        if j == before_id.len() - 1 && b.boot_id.len() >= 1 {
            assert(head[j + 1] == b.boot_id[0]);
        }
        if before_first.len() <= j < before_first.len() + digits.len() {
            assert(head[j] == digits[j - before_first.len()]);
        }
    }
    lemma_text_after(head, mark, value);
    assert(head + decimal(b.last_entry_us as nat) + rest =~= head + value);
    lemma_num_value(b.last_entry_us, rest);
    lemma_digits_are_plain(b.last_entry_us);
}

/// The only braces of an object are its first and its last character.
proof fn lemma_object_ends(index: Seq<char>, b: BootRecord)
    requires
        is_plain(index),
        is_hex(b.boot_id),
    ensures
        object_text(index, b).len() >= 2,
        object_text(index, b)[0] == '{',
        find_char(object_text(index, b), '}') == Some(object_text(index, b).len() - 1),
{
    reveal_strlit("{\"index\":");
    reveal_strlit(",\"boot_id\":\"");
    reveal_strlit("\",\"first_entry\":");
    reveal_strlit(",\"last_entry\":");
    reveal_strlit("}");
    let open = "{\"index\":"@;
    let before_id = upto_id(index);
    let before_first = upto_first(index, b.boot_id);
    let before_last = upto_last(index, b.boot_id, b.first_entry_us);
    let first = decimal(b.first_entry_us as nat);
    let last = decimal(b.last_entry_us as nat);
    let obj = object_text(index, b);
    lemma_digits_are_plain(b.first_entry_us);
    lemma_digits_are_plain(b.last_entry_us);
    lemma_find_from(obj, equal_to('}'), 0);
    assert(obj[obj.len() - 1] == '}');
    assert forall|j: int| 0 <= j < obj.len() - 1 implies #[trigger] obj[j] != '}' by {
        if open.len() <= j < open.len() + index.len() {
            assert(obj[j] == index[j - open.len()]);
        }
        if before_id.len() <= j < before_id.len() + b.boot_id.len() {
            assert(obj[j] == b.boot_id[j - before_id.len()]);
        }
        if before_first.len() <= j < before_first.len() + first.len() {
            assert(obj[j] == first[j - before_first.len()]);
        }
        if before_last.len() <= j < before_last.len() + last.len() {
            assert(obj[j] == last[j - before_last.len()]);
        }
    }
}

/// An object as `journalctl` writes it describes its boot.
proof fn lemma_object(index: Seq<char>, b: BootRecord)
    requires
        is_plain(index),
        is_hex(b.boot_id),
    ensures
        boot_object(object_text(index, b)) == Some(b),
{
    reveal_strlit("\",\"first_entry\":");
    reveal_strlit(",\"last_entry\":");
    reveal_strlit("}");
    let first = decimal(b.first_entry_us as nat);
    let last = decimal(b.last_entry_us as nat);
    let obj = object_text(index, b);
    let behind_first = ",\"last_entry\":"@ + last + "}"@;
    let behind_id = "\",\"first_entry\":"@ + first + behind_first;
    assert(obj =~= upto_id(index) + b.boot_id + behind_id);
    lemma_id_field(index, b.boot_id, behind_id);
    assert(obj =~= upto_first(index, b.boot_id) + first + behind_first);
    lemma_first_field(index, b.boot_id, b.first_entry_us, behind_first);
    lemma_last_field(index, b, "}"@);
}

/// One object, behind a character that is no brace, is the first boot.
proof fn lemma_boots_json_step(c: char, index: Seq<char>, b: BootRecord, rest: Seq<char>)
    requires
        is_plain(index),
        is_hex(b.boot_id),
        c != '{',
    ensures
        boots_json(seq![c] + object_text(index, b) + rest) == match boots_json(rest) {
            Some(more) => Some(seq![b] + more),
            None => None,
        },
{
    let obj = object_text(index, b);
    let s = seq![c] + obj + rest;
    lemma_object(index, b);
    lemma_object_ends(index, b);
    lemma_find_from(s, equal_to('{'), 0);
    assert(s[0] == c);
    assert(s[1] == obj[0]);
    assert(find_char(s, '{') == Some(1int));
    let t = s.skip(1);
    assert(t =~= obj + rest);
    lemma_find_from(t, equal_to('}'), 0);
    lemma_find_from(obj, equal_to('}'), 0);
    let n: int = obj.len() - 1;
    assert(t[n] == obj[n]);
    assert forall|j: int| 0 <= j < n implies #[trigger] t[j] != '}' by {
        assert(obj[j] != '}');
        assert(t[j] == obj[j]);
    }
    assert(find_char(t, '}') == Some(n));
    assert(t.take(n + 1) =~= obj);
    assert(t.skip(n + 1) =~= rest);
}

/// The boots in the rest of a listing.
proof fn lemma_listing_rest(boots: Seq<(Seq<char>, BootRecord)>)
    requires
        forall|i: int|
            0 <= i < boots.len() ==> is_plain((#[trigger] boots[i]).0) && is_hex(boots[i].1.boot_id),
    ensures
        boots_json(listing_rest(boots)) == Some(
            boots.map_values(|b: (Seq<char>, BootRecord)| b.1),
        ),
    decreases boots.len(),
{
    let all = boots.map_values(|b: (Seq<char>, BootRecord)| b.1);
    if boots.len() == 0 {
        reveal_strlit("]");
        lemma_find_from("]"@, equal_to('{'), 0);
        assert(all =~= Seq::<BootRecord>::empty());
    } else {
        let more = boots.drop_first();
        reveal_strlit(",");
        assert(","@ =~= seq![',']);
        assert(is_plain(boots[0].0) && is_hex(boots[0].1.boot_id));
        assert forall|i: int| 0 <= i < more.len() implies is_plain((#[trigger] more[i]).0)
            && is_hex(more[i].1.boot_id) by {
            assert(more[i] == boots[i + 1]);
        }
        lemma_listing_rest(more);
        lemma_boots_json_step(',', boots[0].0, boots[0].1, listing_rest(more));
        assert(seq![boots[0].1] + more.map_values(|b: (Seq<char>, BootRecord)| b.1) =~= all);
    }
}

/// A listing as `journalctl` writes it reads back: the boots that it lists come
/// out, all of them and in its order.
pub proof fn law_listing_reads_back(boots: Seq<(Seq<char>, BootRecord)>)
    requires
        forall|i: int|
            0 <= i < boots.len() ==> is_plain((#[trigger] boots[i]).0) && is_hex(boots[i].1.boot_id),
    ensures
        boots_json(listing(boots)) == Some(boots.map_values(|b: (Seq<char>, BootRecord)| b.1)),
{
    let all = boots.map_values(|b: (Seq<char>, BootRecord)| b.1);
    if boots.len() == 0 {
        reveal_strlit("[]");
        lemma_find_from("[]"@, equal_to('{'), 0);
        assert(all =~= Seq::<BootRecord>::empty());
    } else {
        let more = boots.drop_first();
        reveal_strlit("[");
        assert("["@ =~= seq!['[']);
        assert(is_plain(boots[0].0) && is_hex(boots[0].1.boot_id));
        assert forall|i: int| 0 <= i < more.len() implies is_plain((#[trigger] more[i]).0)
            && is_hex(more[i].1.boot_id) by {
            assert(more[i] == boots[i + 1]);
        }
        lemma_listing_rest(more);
        lemma_boots_json_step('[', boots[0].0, boots[0].1, listing_rest(more));
        assert(seq![boots[0].1] + more.map_values(|b: (Seq<char>, BootRecord)| b.1) =~= all);
    }
}

/// Where a character stands first in two texts in a row.
proof fn lemma_find_char_add(a: Seq<char>, b: Seq<char>, c: char)
    ensures
        find_char(a + b, c) == match find_char(a, c) {
            Some(i) => Some(i),
            None => match find_char(b, c) {
                Some(j) => Some(a.len() + j),
                None => None,
            },
        },
{
    let s = a + b;
    lemma_find_from(a, equal_to(c), 0);
    lemma_find_from(b, equal_to(c), 0);
    lemma_find_from(s, equal_to(c), 0);
    assert forall|i: int| 0 <= i < a.len() implies #[trigger] s[i] == a[i] by {}
    assert forall|i: int| 0 <= i < b.len() implies #[trigger] b[i] == s[a.len() + i] by {}
    if let Some(k) = find_char(s, c) {
        if k >= a.len() {
            assert(b[k - a.len()] == c);
        } else {
            assert(a[k] == c);
        }
    }
    if let Some(i) = find_char(a, c) {
        assert(s[i] == c);
    }
    if let Some(j) = find_char(b, c) {
        assert(s[a.len() + j] == c);
    }
}

/// Listings in a row list what each of them lists: behind a listing that can be
/// read, another one adds its boots, or spoils the whole if it cannot be read.
pub proof fn law_listings_concatenate(a: Seq<char>, b: Seq<char>)
    requires
        boots_json(a) is Some,
    ensures
        boots_json(a + b) == match boots_json(b) {
            Some(more) => Some(boots_json(a)->0 + more),
            None => None,
        },
    decreases a.len(),
{
    let s = a + b;
    lemma_find_char_add(a, b, '{');
    lemma_find_from(a, equal_to('{'), 0);
    lemma_find_from(b, equal_to('{'), 0);
    match find_char(a, '{') {
        None => {
            if let Some(j) = find_char(b, '{') {
                assert(s.skip(a.len() + j) =~= b.skip(j));
            }
            if let Some(more) = boots_json(b) {
                assert(boots_json(a)->0 + more =~= more);
            }
        },
        Some(i) => {
            let t = a.skip(i);
            assert(s.skip(i) =~= t + b);
            lemma_find_char_add(t, b, '}');
            lemma_find_from(t, equal_to('}'), 0);
            let j = find_char(t, '}')->0;
            assert((t + b).take(j + 1) =~= t.take(j + 1));
            let rest = t.skip(j + 1);
            assert((t + b).skip(j + 1) =~= rest + b);
            law_listings_concatenate(rest, b);
            let first = seq![boot_object(t.take(j + 1))->0];
            if let Some(more) = boots_json(b) {
                assert(first + (boots_json(rest)->0 + more) =~= boots_json(a)->0 + more);
            }
        },
    }
}

/// The string value of a field is what stands between the first place of its quoted
/// key, colon and quotation mark, and the next quotation mark.
pub proof fn law_str_field(obj: Seq<char>, key: Seq<char>, value: Seq<char>, after: Seq<char>)
    requires
        forall|i: int| 0 <= i < value.len() ==> #[trigger] value[i] != '"',
    ensures
        match find_text(obj, "\""@ + key + "\":\""@) {
            None => str_field(obj, key) is None,
            Some(i) => {
                let rest = obj.skip(i + ("\""@ + key + "\":\""@).len());
                &&& rest == value + seq!['"'] + after ==> str_field(obj, key) == Some(value)
                &&& rest == value ==> str_field(obj, key) is None
            },
        },
{
    if let Some(i) = find_text(obj, "\""@ + key + "\":\""@) {
        let rest = obj.skip(i + ("\""@ + key + "\":\""@).len());
        law_find_char(rest, '"');
        if rest == value + seq!['"'] + after {
            assert(rest[value.len() as int] == '"');
            assert forall|j: int| 0 <= j < value.len() implies rest[j] != '"' by {
                assert(rest[j] == value[j]);
            }
            assert(find_char(rest, '"') == Some(value.len() as int));
            assert(rest.take(value.len() as int) =~= value);
        }
    }
}

/// The number value of a field is what stands between the first place of its quoted
/// key and colon, and the next comma or closing brace, read as a number.
pub proof fn law_num_field(
    obj: Seq<char>,
    key: Seq<char>,
    value: Seq<char>,
    stop: char,
    after: Seq<char>,
)
    requires
        forall|i: int| 0 <= i < value.len() ==> #[trigger] value[i] != ',' && value[i] != '}',
        stop == ',' || stop == '}',
    ensures
        match find_text(obj, "\""@ + key + "\":"@) {
            None => num_field(obj, key) is None,
            Some(i) => {
                let rest = obj.skip(i + ("\""@ + key + "\":"@).len());
                &&& rest == value + seq![stop] + after ==> num_field(obj, key) == parse_u64(
                    trim(value),
                )
                &&& rest == value ==> num_field(obj, key) is None
            },
        },
{
    if let Some(i) = find_text(obj, "\""@ + key + "\":"@) {
        let rest = obj.skip(i + ("\""@ + key + "\":"@).len());
        law_find_either(rest, ',', '}');
        if rest == value + seq![stop] + after {
            assert(rest[value.len() as int] == stop);
            assert forall|j: int| 0 <= j < value.len() implies rest[j] != ',' && rest[j] != '}' by {
                assert(rest[j] == value[j]);
            }
            assert(find_either(rest, ',', '}') == Some(value.len() as int));
            assert(rest.take(value.len() as int) =~= value);
        }
    }
}

/// An object describes a boot by its fields `boot_id`, `first_entry` and `last_entry`,
/// and does not describe one if any of them is missing or no value of its kind.
pub proof fn law_boot_object(obj: Seq<char>)
    ensures
        match boot_object(obj) {
            Some(b) => str_field(obj, "boot_id"@) == Some(b.boot_id) && num_field(
                obj,
                "first_entry"@,
            ) == Some(b.first_entry_us) && num_field(obj, "last_entry"@) == Some(b.last_entry_us),
            None => str_field(obj, "boot_id"@) is None || num_field(obj, "first_entry"@) is None
                || num_field(obj, "last_entry"@) is None,
        },
{
}

/// A listing is read object by object: behind anything without an opening brace, from
/// that brace to the next closing one.
pub proof fn law_next_object(before: Seq<char>, inner: Seq<char>, rest: Seq<char>)
    requires
        forall|i: int| 0 <= i < before.len() ==> #[trigger] before[i] != '{',
        forall|i: int| 0 <= i < inner.len() ==> #[trigger] inner[i] != '}',
    ensures
        boots_json(before) == Some(Seq::<BootRecord>::empty()),
        boots_json(before + seq!['{'] + inner) is None,
        boots_json(before + (seq!['{'] + inner + seq!['}']) + rest) == match (
            boot_object(seq!['{'] + inner + seq!['}']),
            boots_json(rest),
        ) {
            (Some(b), Some(more)) => Some(seq![b] + more),
            _ => None,
        },
{
    law_find_char(before, '{');
    let open = before + seq!['{'] + inner;
    let n = before.len() as int;
    law_find_char(open, '{');
    assert(open[n] == '{');
    assert forall|j: int| 0 <= j < n implies open[j] != '{' by {
        assert(open[j] == before[j]);
    }
    assert(find_char(open, '{') == Some(n));
    let t = open.skip(n);
    assert(t =~= seq!['{'] + inner);
    law_find_char(t, '}');
    assert forall|j: int| 0 <= j < t.len() implies t[j] != '}' by {
        if j > 0 {
            assert(t[j] == inner[j - 1]);
        }
    }
    let obj = seq!['{'] + inner + seq!['}'];
    let s = before + obj + rest;
    law_find_char(s, '{');
    assert(s[n] == '{');
    assert forall|j: int| 0 <= j < n implies s[j] != '{' by {
        assert(s[j] == before[j]);
    }
    assert(find_char(s, '{') == Some(n));
    let u = s.skip(n);
    assert(u =~= obj + rest);
    law_find_char(u, '}');
    let k: int = inner.len() + 1int;
    assert(u[k] == '}');
    assert forall|j: int| 0 <= j < k implies u[j] != '}' by {
        if j > 0 {
            assert(u[j] == inner[j - 1]);
        }
    }
    assert(find_char(u, '}') == Some(k));
    assert(u.take(k + 1) =~= obj);
    assert(u.skip(k + 1) =~= rest);
}

/// The time that a line begins with: behind white space, the digits before the first
/// point of the first word are the seconds, and the six characters behind it the
/// microseconds. A word without a point, or with fewer characters behind it, is no time,
/// and neither is no word.
pub proof fn law_line_time(
    lead: Seq<char>,
    secs: Seq<char>,
    frac: Seq<char>,
    more: Seq<char>,
    rest: Seq<char>,
)
    requires
        all_white(lead),
        forall|i: int| 0 <= i < secs.len() ==> #[trigger] secs[i] != '.' && !is_white(secs[i]),
        forall|i: int| 0 <= i < frac.len() ==> !is_white(#[trigger] frac[i]),
        forall|i: int| 0 <= i < more.len() ==> !is_white(#[trigger] more[i]),
        rest.len() > 0 ==> is_white(rest[0]),
    ensures
        frac.len() == 6 ==> line_time(lead + (secs + seq!['.'] + frac + more) + rest) == match (
            parse_u64(secs),
            parse_u64(frac),
        ) {
            (Some(s), Some(f)) => Some((s, f)),
            _ => None,
        },
        frac.len() < 6 ==> line_time(lead + (secs + seq!['.'] + frac) + rest) is None,
        secs.len() > 0 ==> line_time(lead + secs + rest) is None,
        line_time(lead) is None,
{
    law_first_word(lead, secs, rest);
    law_find_char(secs, '.');
    let short = secs + seq!['.'] + frac;
    assert forall|i: int| 0 <= i < short.len() implies !is_white(#[trigger] short[i]) by {
        if i < secs.len() {
            assert(short[i] == secs[i]);
        } else if i > secs.len() {
            assert(short[i] == frac[i - secs.len() - 1]);
        }
    }
    law_first_word(lead, short, rest);
    lemma_point(secs, frac);
    let word = secs + seq!['.'] + frac + more;
    assert forall|i: int| 0 <= i < word.len() implies !is_white(#[trigger] word[i]) by {
        if i < short.len() {
            assert(word[i] == short[i]);
        } else {
            assert(word[i] == more[i - short.len()]);
        }
    }
    law_first_word(lead, word, rest);
    assert(word =~= secs + seq!['.'] + (frac + more));
    lemma_point(secs, frac + more);
    if frac.len() == 6 {
        assert((frac + more).take(6) =~= frac);
    }
}

/// The first point of a word.
proof fn lemma_point(secs: Seq<char>, behind: Seq<char>)
    requires
        forall|i: int| 0 <= i < secs.len() ==> #[trigger] secs[i] != '.',
    ensures
        find_char(secs + seq!['.'] + behind, '.') == Some(secs.len() as int),
        (secs + seq!['.'] + behind).take(secs.len() as int) == secs,
        (secs + seq!['.'] + behind).skip(secs.len() + 1int) == behind,
{
    let word = secs + seq!['.'] + behind;
    law_find_char(word, '.');
    assert(word[secs.len() as int] == '.');
    assert forall|j: int| 0 <= j < secs.len() implies word[j] != '.' by {
        assert(word[j] == secs[j]);
    }
    assert(word.take(secs.len() as int) =~= secs);
    assert(word.skip(secs.len() + 1int) =~= behind);
}

/// The time between the end of the `i`-th boot and the next one: from its last entry to
/// when the user space of the next was ready, or else the first entry of that.
pub open spec fn gap(boots: Seq<BootRecord>, ready: Seq<Option<u64>>, i: int) -> (u64, u64) {
    (
        boots[i].last_entry_us,
        if ready[i] is Some {
            ready[i]->0
        } else {
            boots[i + 1].first_entry_us
        },
    )
}

/// Being a window that begins before it ends.
pub open spec fn lasts() -> spec_fn((u64, u64)) -> bool {
    |w: (u64, u64)| w.0 < w.1
}

/// The powered-off windows are the gaps between neighbouring boots that last, all of
/// them and in order.
pub proof fn law_off_windows_are_gaps(boots: Seq<BootRecord>, ready: Seq<Option<u64>>, n: int)
    requires
        0 <= n < boots.len(),
        ready.len() == boots.len() - 1,
    ensures
        off_windows(boots, ready, n) == Seq::new(n as nat, |i: int| gap(boots, ready, i)).filter(
            lasts(),
        ),
    decreases n,
{
    reveal(Seq::filter);
    let all = Seq::new(n as nat, |i: int| gap(boots, ready, i));
    if n > 0 {
        law_off_windows_are_gaps(boots, ready, n - 1);
        let before = Seq::new((n - 1) as nat, |i: int| gap(boots, ready, i));
        assert(all.drop_last() =~= before);
        assert(all.last() == gap(boots, ready, n - 1));
    } else {
        assert(all =~= Seq::empty());
    }
}

/// No gap between neighbouring boots is left out, however long or short: if it lasts, it
/// is a window. An instant is covered if and only if it lies in such a gap.
pub proof fn law_gaps_are_covered(
    boots: Seq<BootRecord>,
    ready: Seq<Option<u64>>,
    n: int,
    k: int,
    t: int,
)
    requires
        0 <= k < n < boots.len(),
        ready.len() == boots.len() - 1,
    ensures
        gap(boots, ready, k).0 < gap(boots, ready, k).1 ==> off_windows(boots, ready, n).contains(
            gap(boots, ready, k),
        ),
        covers(off_windows(boots, ready, n), t) <==> exists|i: int|
            0 <= i < n && (#[trigger] gap(boots, ready, i)).0 <= t < gap(boots, ready, i).1,
{
    let all = Seq::new(n as nat, |i: int| gap(boots, ready, i));
    let w = off_windows(boots, ready, n);
    law_off_windows_are_gaps(boots, ready, n);
    if gap(boots, ready, k).0 < gap(boots, ready, k).1 {
        assert(all[k] == gap(boots, ready, k));
        all.lemma_filter_contains(lasts(), k);
    }
    if covers(w, t) {
        let j = choose|j: int| 0 <= j < w.len() && (#[trigger] w[j]).0 <= t < w[j].1;
        all.lemma_filter_contains_rev(lasts(), w[j]);
        let i = all.index_of(w[j]);
        assert(gap(boots, ready, i) == w[j]);
    }
    if exists|i: int|
        0 <= i < n && (#[trigger] gap(boots, ready, i)).0 <= t < gap(boots, ready, i).1 {
        let i = choose|i: int|
            0 <= i < n && (#[trigger] gap(boots, ready, i)).0 <= t < gap(boots, ready, i).1;
        assert(all[i] == gap(boots, ready, i));
        all.lemma_filter_contains(lasts(), i);
        let j = w.index_of(gap(boots, ready, i));
        assert(w[j].0 <= t < w[j].1);
    }
}

/// Listed boots come by the time of their first entry, the same boots as were listed,
/// and boots with the same time in the order that they had.
pub proof fn law_boots_by_first_entry(listed: Seq<BootRecord>, t: u64)
    ensures
        forall|i: int, j: int|
            #![trigger stable_sort(listed, first_entry())[i], stable_sort(listed, first_entry())[j]]
            0 <= i < j < listed.len() ==> stable_sort(listed, first_entry())[i].first_entry_us
                <= stable_sort(listed, first_entry())[j].first_entry_us,
        stable_sort(listed, first_entry()).to_multiset() == listed.to_multiset(),
        stable_sort(listed, first_entry()).filter(|b: BootRecord| b.first_entry_us == t)
            == listed.filter(|b: BootRecord| b.first_entry_us == t),
{
    let key = first_entry();
    let sorted = stable_sort(listed, key);
    law_stable_sort(listed, key);
    law_sort_permutes(listed, key);
    assert forall|i: int, j: int|
        #![trigger sorted[i], sorted[j]]
        0 <= i < j < listed.len() implies sorted[i].first_entry_us <= sorted[j].first_entry_us by {
        assert(key(sorted[i]) <= key(sorted[j]));
    }
    assert(with_key(sorted, key, t) == with_key(listed, key, t));
    assert(has_key(key, t) =~= (|b: BootRecord| b.first_entry_us == t));
}

/// What boots stand for is what each of them has.
pub proof fn law_records(v: Seq<Boot>)
    ensures
        records(v).len() == v.len(),
        forall|i: int|
            0 <= i < v.len() ==> (#[trigger] records(v)[i]).boot_id == v[i].boot_id@ && records(
                v,
            )[i].first_entry_us == v[i].first_entry_us && records(v)[i].last_entry_us
                == v[i].last_entry_us,
{
}

/// Whatever the boot, it is asked about under its own identifier.
pub proof fn law_ready_words(boot_id: Seq<char>)
    ensures
        ready_words(boot_id) == seq!["journalctl"@, "_PID=1"@, "-b"@] + seq![boot_id] + seq![
            "-g"@,
            "Startup finished in.*="@,
            "-o"@,
            "short-unix"@,
            "-n"@,
            "1"@,
        ],
{
    assert(ready_words(boot_id) =~= seq!["journalctl"@, "_PID=1"@, "-b"@] + seq![boot_id] + seq![
        "-g"@,
        "Startup finished in.*="@,
        "-o"@,
        "short-unix"@,
        "-n"@,
        "1"@,
    ]);
}

} // verus!
