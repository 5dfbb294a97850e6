//! The command line of the program.

use vstd::prelude::*;
use vstd::slice::slice_subrange;
use crate::ending::Ending;
use crate::text::{begins_with, chars_of, equal_to, find_char, has_prefix, law_find_char};
use crate::text::{lemma_find_from, same_text, split_at_first, string_of, texts};

verus! {

/// What the arguments ask for.
#[derive(Debug, PartialEq, Eq)]
pub struct Options {
    pub help: bool,
    pub pretty: bool,
    pub since: Option<String>,
    pub version: bool,
}

/// What is wrong with the arguments.
#[derive(Debug, PartialEq, Eq)]
pub enum ArgsError {
    /// An unknown long option, without its dashes and its value.
    UnknownLong { name: String },
    /// An unknown letter in a group of short options.
    UnknownShort { letter: char },
    /// An argument that is not an option.
    UnknownArgument { arg: String },
    /// An option without the value that it needs.
    MissingValue { flag: String },
}

/// What options stand for.
#[verifier::ext_equal]
pub ghost struct OptionsView {
    pub help: bool,
    pub pretty: bool,
    pub since: Option<Seq<char>>,
    pub version: bool,
}

/// What an error stands for.
pub ghost enum ArgsErrorView {
    UnknownLong { name: Seq<char> },
    UnknownShort { letter: char },
    UnknownArgument { arg: Seq<char> },
    MissingValue { flag: Seq<char> },
}

impl View for Options {
    type V = OptionsView;

    open spec fn view(&self) -> OptionsView {
        OptionsView {
            help: self.help,
            pretty: self.pretty,
            since: match self.since {
                Some(s) => Some(s@),
                None => None,
            },
            version: self.version,
        }
    }
}

impl View for ArgsError {
    type V = ArgsErrorView;

    open spec fn view(&self) -> ArgsErrorView {
        match self {
            ArgsError::UnknownLong { name } => ArgsErrorView::UnknownLong { name: name@ },
            ArgsError::UnknownShort { letter } => ArgsErrorView::UnknownShort { letter: *letter },
            ArgsError::UnknownArgument { arg } => ArgsErrorView::UnknownArgument { arg: arg@ },
            ArgsError::MissingValue { flag } => ArgsErrorView::MissingValue { flag: flag@ },
        }
    }
}

/// How a group of short options ends: read to its end, in want of a value for
/// `-s`, or at an unknown letter.
pub ghost enum Group {
    Read(OptionsView),
    WantsValue(OptionsView),
    Unknown(char),
}

/// Options without any set.
pub open spec fn no_options() -> OptionsView {
    OptionsView { help: false, pretty: false, since: None, version: false }
}

/// Reads a group of short options from its `j`-th letter on. What follows an `s`
/// is its value.
pub open spec fn read_group(letters: Seq<char>, j: int, o: OptionsView) -> Group
    decreases letters.len() - j,
{
    if j < 0 || j >= letters.len() {
        Group::Read(o)
    } else if letters[j] == 'h' {
        read_group(letters, j + 1, OptionsView { help: true, ..o })
    } else if letters[j] == 'p' {
        read_group(letters, j + 1, OptionsView { pretty: true, ..o })
    } else if letters[j] == 's' {
        if j + 1 < letters.len() {
            Group::Read(OptionsView { since: Some(letters.skip(j + 1)), ..o })
        } else {
            Group::WantsValue(o)
        }
    } else if letters[j] == 'V' {
        read_group(letters, j + 1, OptionsView { version: true, ..o })
    } else {
        Group::Unknown(letters[j])
    }
}

/// Reads arguments from the `i`-th on, on top of the options so far.
pub open spec fn read_args(args: Seq<Seq<char>>, i: int, o: OptionsView) -> Result<
    OptionsView,
    ArgsErrorView,
>
    decreases args.len() - i,
{
    if i < 0 || i >= args.len() {
        Ok(o)
    } else if begins_with(args[i], "--"@) {
        let rest = args[i].skip(2);
        match find_char(rest, '=') {
            Some(j) => if rest.take(j) == "since"@ {
                read_args(args, i + 1, OptionsView { since: Some(rest.skip(j + 1)), ..o })
            } else {
                Err(ArgsErrorView::UnknownLong { name: rest.take(j) })
            },
            None => if rest == "help"@ {
                read_args(args, i + 1, OptionsView { help: true, ..o })
            } else if rest == "pretty"@ {
                read_args(args, i + 1, OptionsView { pretty: true, ..o })
            } else if rest == "since"@ {
                if i + 1 < args.len() {
                    read_args(args, i + 2, OptionsView { since: Some(args[i + 1]), ..o })
                } else {
                    Err(ArgsErrorView::MissingValue { flag: "--since"@ })
                }
            } else if rest == "version"@ {
                read_args(args, i + 1, OptionsView { version: true, ..o })
            } else {
                Err(ArgsErrorView::UnknownLong { name: rest })
            },
        }
    } else if begins_with(args[i], "-"@) {
        match read_group(args[i].skip(1), 0, o) {
            Group::Read(o) => read_args(args, i + 1, o),
            Group::WantsValue(o) => if i + 1 < args.len() {
                read_args(args, i + 2, OptionsView { since: Some(args[i + 1]), ..o })
            } else {
                Err(ArgsErrorView::MissingValue { flag: "-s"@ })
            },
            Group::Unknown(letter) => Err(ArgsErrorView::UnknownShort { letter }),
        }
    } else {
        Err(ArgsErrorView::UnknownArgument { arg: args[i] })
    }
}

/// Moves on to the value of an option, which is the next argument.
pub fn take_value(i: &mut usize, args: &[String], flag: &str) -> (r: Result<String, ArgsError>)
    requires
        *old(i) < usize::MAX,
    ensures
        *final(i) == *old(i) + 1,
        match r {
            Ok(v) => *old(i) + 1 < args@.len() && v@ == args@[*old(i) + 1]@,
            Err(e) => *old(i) + 1 >= args@.len() && e@ == (ArgsErrorView::MissingValue {
                flag: flag@,
            }),
        },
{
    *i = *i + 1;
    if *i >= args.len() {
        return Err(ArgsError::MissingValue { flag: flag.to_owned() });
    }
    Ok(args[*i].clone())
}

/// How a group of short options ended.
enum GroupEnd {
    Read,
    WantsValue,
    Unknown(char),
}

/// Reads a group of short options into the options so far.
fn read_short(letters: &[char], options: &mut Options) -> (r: GroupEnd)
    ensures
        match r {
            GroupEnd::Read => read_group(letters@, 0, old(options)@) == Group::Read(final(options)@),
            GroupEnd::WantsValue => read_group(letters@, 0, old(options)@) == Group::WantsValue(
                final(options)@,
            ),
            GroupEnd::Unknown(c) => read_group(letters@, 0, old(options)@) == Group::Unknown(c),
        },
{
    let ghost start = options@;
    let mut j: usize = 0;
    while j < letters.len()
        invariant
            j <= letters@.len(),
            start == old(options)@,
            read_group(letters@, 0, start) == read_group(letters@, j as int, options@),
        decreases letters@.len() - j,
    {
        match letters[j] {
            'h' => {
                options.help = true;
            },
            'p' => {
                options.pretty = true;
            },
            's' => {
                if j + 1 < letters.len() {
                    assert(letters@.subrange(j + 1, letters@.len() as int) =~= letters@.skip(j + 1));
                    options.since = Some(
                        string_of(slice_subrange(letters, j + 1, letters.len())),
                    );
                    return GroupEnd::Read;
                }
                return GroupEnd::WantsValue;
            },
            'V' => {
                options.version = true;
            },
            c => {
                return GroupEnd::Unknown(c);
            },
        }
        j = j + 1;
    }
    GroupEnd::Read
}

/// Reads the arguments of the program, of which the first is its own name.
pub fn parse_args(args: &[String]) -> (r: Result<Options, ArgsError>)
    requires
        args@.len() > 0,
    ensures
        match r {
            Ok(o) => read_args(texts(args@), 1, no_options()) == Ok::<
                OptionsView,
                ArgsErrorView,
            >(o@),
            Err(e) => read_args(texts(args@), 1, no_options()) == Err::<
                OptionsView,
                ArgsErrorView,
            >(e@),
        },
{
    let mut options = Options { help: false, pretty: false, since: None, version: false };
    let ghost words = texts(args@);
    let mut i: usize = 1;
    while i < args.len()
        invariant
            1 <= i <= args@.len(),
            words == texts(args@),
            read_args(words, 1, no_options()) == read_args(words, i as int, options@),
        decreases args@.len() - i,
    {
        let arg = chars_of(args[i].as_str());
        let arg = arg.as_slice();
        assert(arg@ == words[i as int]);
        if has_prefix(arg, "--") {
            proof {
                reveal_strlit("--");
            }
            assert(arg@.subrange(2, arg@.len() as int) =~= arg@.skip(2));
            let rest = slice_subrange(arg, 2, arg.len());
            if let Some((k, v)) = split_at_first(rest, '=') {
                if same_text(k, "since") {
                    options.since = Some(string_of(v));
                } else {
                    return Err(ArgsError::UnknownLong { name: string_of(k) });
                }
            } else if same_text(rest, "help") {
                options.help = true;
            } else if same_text(rest, "pretty") {
                options.pretty = true;
            } else if same_text(rest, "since") {
                let v = match take_value(&mut i, args, "--since") {
                    Ok(v) => v,
                    Err(e) => return Err(e),
                };
                options.since = Some(v);
            } else if same_text(rest, "version") {
                options.version = true;
            } else {
                return Err(ArgsError::UnknownLong { name: string_of(rest) });
            }
        } else if has_prefix(arg, "-") {
            proof {
                reveal_strlit("-");
            }
            assert(arg@.subrange(1, arg@.len() as int) =~= arg@.skip(1));
            let letters = slice_subrange(arg, 1, arg.len());
            match read_short(letters, &mut options) {
                GroupEnd::Read => {},
                GroupEnd::WantsValue => {
                    let v = match take_value(&mut i, args, "-s") {
                        Ok(v) => v,
                        Err(e) => return Err(e),
                    };
                    options.since = Some(v);
                },
                GroupEnd::Unknown(letter) => {
                    return Err(ArgsError::UnknownShort { letter });
                },
            }
        } else {
            return Err(ArgsError::UnknownArgument { arg: string_of(arg) });
        }
        i = i + 1;
    }
    Ok(options)
}

/// Reads on at the words that stand between others.
pub open spec fn read_between(
    before: Seq<Seq<char>>,
    words: Seq<Seq<char>>,
    after: Seq<Seq<char>>,
    o: OptionsView,
) -> Result<OptionsView, ArgsErrorView> {
    read_args(before + words + after, before.len() as int, o)
}

/// What has been read does not change how the rest is read.
proof fn lemma_read_rest(before: Seq<Seq<char>>, rest: Seq<Seq<char>>, i: int, o: OptionsView)
    requires
        0 <= i,
    ensures
        read_args(before + rest, before.len() + i, o) == read_args(rest, i, o),
    decreases rest.len() - i,
{
    let all = before + rest;
    let n: int = before.len() + i;
    if i < rest.len() {
        assert(all[n] == rest[i]);
        if i + 1 < rest.len() {
            assert(all[n + 1] == rest[i + 1]);
        }
        if begins_with(rest[i], "--"@) {
            let name = rest[i].skip(2);
            if let Some(j) = find_char(name, '=') {
                let value = Some(name.skip(j + 1));
                lemma_read_rest(before, rest, i + 1, OptionsView { since: value, ..o });
            } else {
                lemma_read_rest(before, rest, i + 1, OptionsView { help: true, ..o });
                lemma_read_rest(before, rest, i + 1, OptionsView { pretty: true, ..o });
                lemma_read_rest(before, rest, i + 1, OptionsView { version: true, ..o });
                if i + 1 < rest.len() {
                    let value = Some(rest[i + 1]);
                    lemma_read_rest(before, rest, i + 2, OptionsView { since: value, ..o });
                }
            }
        } else {
            match read_group(rest[i].skip(1), 0, o) {
                Group::Read(read) => {
                    lemma_read_rest(before, rest, i + 1, read);
                },
                Group::WantsValue(read) => {
                    if i + 1 < rest.len() {
                        let value = Some(rest[i + 1]);
                        lemma_read_rest(before, rest, i + 2, OptionsView { since: value, ..read });
                    }
                },
                Group::Unknown(_) => {},
            }
        }
    }
}

/// What follows one word between others.
proof fn lemma_one_word(
    before: Seq<Seq<char>>,
    word: Seq<char>,
    after: Seq<Seq<char>>,
    o: OptionsView,
)
    ensures
        (before + seq![word] + after)[before.len() as int] == word,
        read_args(before + seq![word] + after, before.len() + 1int, o) == read_args(after, 0, o),
{
    lemma_read_rest(before + seq![word], after, 0, o);
}

/// What follows an option and its value between others.
proof fn lemma_two_words(
    before: Seq<Seq<char>>,
    word: Seq<char>,
    value: Seq<char>,
    after: Seq<Seq<char>>,
    o: OptionsView,
)
    ensures
        (before + seq![word, value] + after).len() == before.len() + 2 + after.len(),
        (before + seq![word, value] + after)[before.len() as int] == word,
        (before + seq![word, value] + after)[before.len() + 1int] == value,
        read_args(before + seq![word, value] + after, before.len() + 2int, o) == read_args(after, 0, o),
{
    lemma_read_rest(before + seq![word, value], after, 0, o);
}

/// A dash and letters are a group of short options.
proof fn lemma_short(letters: Seq<char>)
    requires
        letters.len() > 0 ==> letters[0] != '-',
    ensures
        !begins_with(seq!['-'] + letters, "--"@),
        begins_with(seq!['-'] + letters, "-"@),
        (seq!['-'] + letters).skip(1) == letters,
{
    reveal_strlit("--");
    reveal_strlit("-");
    let word = seq!['-'] + letters;
    if begins_with(word, "--"@) {
        assert(word.subrange(0, 2)[1] == '-');
    }
    assert(word.subrange(0, 1) =~= "-"@);
    assert(word.skip(1) =~= letters);
}

/// Two dashes and a name are a long option.
proof fn lemma_long(name: Seq<char>)
    ensures
        begins_with("--"@ + name, "--"@),
        ("--"@ + name).skip(2) == name,
{
    reveal_strlit("--");
    assert(("--"@ + name).subrange(0, 2) =~= "--"@);
    assert(("--"@ + name).skip(2) =~= name);
}

/// The short and the long form of a flag mean the same, wherever an option is
/// due: the flag is set, and the rest is read.
pub proof fn law_flag_forms(before: Seq<Seq<char>>, after: Seq<Seq<char>>, o: OptionsView)
    ensures
        ({
            let set = read_args(after, 0, OptionsView { help: true, ..o });
            read_between(before, seq!["-h"@], after, o) == set && read_between(
                before,
                seq!["--help"@],
                after,
                o,
            ) == set
        }),
        ({
            let set = read_args(after, 0, OptionsView { pretty: true, ..o });
            read_between(before, seq!["-p"@], after, o) == set && read_between(
                before,
                seq!["--pretty"@],
                after,
                o,
            ) == set
        }),
        ({
            let set = read_args(after, 0, OptionsView { version: true, ..o });
            read_between(before, seq!["-V"@], after, o) == set && read_between(
                before,
                seq!["--version"@],
                after,
                o,
            ) == set
        }),
{
    reveal_strlit("--");
    reveal_with_fuel(read_group, 2);
    assert("-h"@ =~= seq!['-'] + seq!['h'] && "--help"@ =~= "--"@ + "help"@) by {
        reveal_strlit("-h");
        reveal_strlit("--help");
        reveal_strlit("help");
    }
    assert("-p"@ =~= seq!['-'] + seq!['p'] && "--pretty"@ =~= "--"@ + "pretty"@) by {
        reveal_strlit("-p");
        reveal_strlit("--pretty");
        reveal_strlit("pretty");
    }
    assert("-V"@ =~= seq!['-'] + seq!['V'] && "--version"@ =~= "--"@ + "version"@) by {
        reveal_strlit("-V");
        reveal_strlit("--version");
        reveal_strlit("version");
    }
    lemma_short(seq!['h']);
    lemma_short(seq!['p']);
    lemma_short(seq!['V']);
    lemma_long("help"@);
    lemma_long("pretty"@);
    lemma_long("version"@);
    lemma_names();
    let help = OptionsView { help: true, ..o };
    lemma_one_word(before, "-h"@, after, help);
    lemma_one_word(before, "--help"@, after, help);
    let pretty = OptionsView { pretty: true, ..o };
    lemma_one_word(before, "-p"@, after, pretty);
    lemma_one_word(before, "--pretty"@, after, pretty);
    let version = OptionsView { version: true, ..o };
    lemma_one_word(before, "-V"@, after, version);
    lemma_one_word(before, "--version"@, after, version);
}

/// The long options differ from each other, and none has a `=` in its name.
proof fn lemma_names()
    ensures
        find_char("help"@, '=') is None,
        find_char("pretty"@, '=') is None,
        find_char("since"@, '=') is None,
        find_char("version"@, '=') is None,
        "pretty"@ != "help"@,
        "since"@ != "help"@,
        "since"@ != "pretty"@,
        "version"@ != "help"@,
        "version"@ != "pretty"@,
        "version"@ != "since"@,
{
    reveal_strlit("help");
    reveal_strlit("pretty");
    reveal_strlit("since");
    reveal_strlit("version");
    lemma_find_from("help"@, equal_to('='), 0);
    lemma_find_from("pretty"@, equal_to('='), 0);
    lemma_find_from("since"@, equal_to('='), 0);
    lemma_find_from("version"@, equal_to('='), 0);
    assert("help"@[0] == 'h' && "pretty"@[0] == 'p' && "since"@[0] == 's' && "version"@[0] == 'v');
}

/// All ways to write a time mean the same, wherever an option is due: the time is
/// taken, and the rest is read. Joined to `-s`, a time has at least one
/// character.
pub proof fn law_since_forms(
    before: Seq<Seq<char>>,
    time: Seq<char>,
    after: Seq<Seq<char>>,
    o: OptionsView,
)
    ensures
        ({
            let taken = read_args(after, 0, OptionsView { since: Some(time), ..o });
            &&& read_between(before, seq!["-s"@, time], after, o) == taken
            &&& read_between(before, seq!["--since"@, time], after, o) == taken
            &&& read_between(before, seq!["--since="@ + time], after, o) == taken
            &&& time.len() > 0 ==> read_between(before, seq!["-s"@ + time], after, o) == taken
        }),
{
    let taken = OptionsView { since: Some(time), ..o };
    lemma_names();
    assert("-s"@ =~= seq!['-'] + seq!['s']) by {
        reveal_strlit("-s");
    }
    lemma_short(seq!['s']);
    lemma_two_words(before, "-s"@, time, after, taken);
    assert("--since"@ =~= "--"@ + "since"@) by {
        reveal_strlit("--");
        reveal_strlit("since");
        reveal_strlit("--since");
    }
    lemma_long("since"@);
    lemma_two_words(before, "--since"@, time, after, taken);
    let equated = "since="@ + time;
    assert("--since="@ + time =~= "--"@ + equated) by {
        reveal_strlit("--");
        reveal_strlit("since=");
        reveal_strlit("--since=");
    }
    lemma_long(equated);
    assert(find_char(equated, '=') == Some(5int) && equated.take(5) =~= "since"@ && equated.skip(6)
        =~= time) by {
        reveal_strlit("since");
        reveal_strlit("since=");
        lemma_find_from(equated, equal_to('='), 0);
        assert(equated[5] == '=');
        assert(equated[0] == 's' && equated[1] == 'i' && equated[2] == 'n' && equated[3] == 'c'
            && equated[4] == 'e');
    }
    lemma_one_word(before, "--since="@ + time, after, taken);
    let joined = seq!['s'] + time;
    assert("-s"@ + time =~= seq!['-'] + joined);
    lemma_short(joined);
    assert(joined.skip(1) =~= time);
    lemma_one_word(before, "-s"@ + time, after, taken);
}

/// Whether letters are flags only, so that none of them takes a value.
pub open spec fn are_flags(letters: Seq<char>) -> bool {
    forall|i: int|
        0 <= i < letters.len() ==> #[trigger] letters[i] == 'h' || letters[i] == 'p' || letters[i]
            == 'V'
}

/// What has been read of a group does not change how the rest is read.
proof fn lemma_group_rest(first: Seq<char>, rest: Seq<char>, j: int, o: OptionsView)
    requires
        0 <= j,
    ensures
        read_group(first + rest, first.len() + j, o) == read_group(rest, j, o),
    decreases rest.len() - j,
{
    let all = first + rest;
    let n: int = first.len() + j;
    if j < rest.len() {
        assert(all[n] == rest[j]);
        assert(all.skip(n + 1) =~= rest.skip(j + 1));
        lemma_group_rest(first, rest, j + 1, OptionsView { help: true, ..o });
        lemma_group_rest(first, rest, j + 1, OptionsView { pretty: true, ..o });
        lemma_group_rest(first, rest, j + 1, OptionsView { version: true, ..o });
    }
}

/// Flags at the start of a group are read before the rest of it.
proof fn lemma_group_flags(flags: Seq<char>, rest: Seq<char>, j: int, o: OptionsView)
    requires
        are_flags(flags),
        0 <= j <= flags.len(),
    ensures
        read_group(flags, j, o) matches Group::Read(set) && read_group(flags + rest, j, o)
            == read_group(rest, 0, set),
    decreases flags.len() - j,
{
    if j < flags.len() {
        assert((flags + rest)[j] == flags[j]);
        lemma_group_flags(flags, rest, j + 1, OptionsView { help: true, ..o });
        lemma_group_flags(flags, rest, j + 1, OptionsView { pretty: true, ..o });
        lemma_group_flags(flags, rest, j + 1, OptionsView { version: true, ..o });
    } else {
        lemma_group_rest(flags, rest, 0, o);
    }
}

/// A group of short options may be divided behind any of its flags, wherever an
/// option is due. What is divided off may not begin with a dash, with which it
/// would be a long option.
pub proof fn law_group_divides(
    before: Seq<Seq<char>>,
    flags: Seq<char>,
    rest: Seq<char>,
    after: Seq<Seq<char>>,
    o: OptionsView,
)
    requires
        are_flags(flags),
        flags.len() > 0,
        rest.len() > 0 ==> rest[0] != '-',
    ensures
        read_between(before, seq![seq!['-'] + flags + rest], after, o) == read_between(
            before,
            seq![seq!['-'] + flags, seq!['-'] + rest],
            after,
            o,
        ),
{
    let whole = seq!['-'] + flags + rest;
    let (first, second) = (seq!['-'] + flags, seq!['-'] + rest);
    assert(whole =~= seq!['-'] + (flags + rest));
    assert(flags[0] != '-');
    lemma_short(flags + rest);
    lemma_short(flags);
    lemma_short(rest);
    lemma_group_flags(flags, rest, 0, o);
    let set = read_group(flags, 0, o)->Read_0;
    let tail = seq![second] + after;
    let divided = before + seq![first, second] + after;
    assert(divided =~= before + seq![first] + tail);
    lemma_one_word(before, first, tail, set);
    assert(tail =~= Seq::<Seq<char>>::empty() + seq![second] + after);
    match read_group(rest, 0, set) {
        Group::Read(read) => {
            lemma_one_word(before, whole, after, read);
            lemma_one_word(Seq::empty(), second, after, read);
        },
        Group::WantsValue(read) => {
            if after.len() > 0 {
                let value = after[0];
                let more = after.drop_first();
                let read = OptionsView { since: Some(value), ..read };
                assert(before + seq![whole] + after =~= before + seq![whole, value] + more);
                assert(tail =~= Seq::<Seq<char>>::empty() + seq![second, value] + more);
                lemma_two_words(before, whole, value, more, read);
                lemma_two_words(Seq::empty(), second, value, more, read);
            }
        },
        Group::Unknown(_) => {},
    }
    lemma_one_word(before, whole, after, o);
}

/// What the program is to do.
#[derive(Debug, PartialEq, Eq)]
pub enum Action {
    /// Print how it is used.
    Help,
    /// Print its version.
    Version,
    /// Report the downtime since a time.
    Report { since: String, pretty: bool },
    /// Say that the system is not down.
    Reassure,
}

/// Chooses what to do: help goes before the version, and both before a report.
pub fn choose_action(options: Options) -> (r: Action)
    ensures
        if options.help {
            r == Action::Help
        } else if options.version {
            r == Action::Version
        } else {
            match options.since {
                Some(s) => r == (Action::Report { since: s, pretty: options.pretty }),
                None => r == Action::Reassure,
            }
        },
        r is Report <==> !options.help && !options.version && options.since is Some,
        r is Reassure <==> !options.help && !options.version && options.since is None,
        r is Help <==> options.help,
{
    if options.help {
        return Action::Help;
    }
    if options.version {
        return Action::Version;
    }
    match options.since {
        Some(since) => Action::Report { since, pretty: options.pretty },
        None => Action::Reassure,
    }
}

/// How the program is used.
pub open spec fn usage_text(program_name: Seq<char>) -> Seq<char> {
    "Usage:\n  "@ + program_name + " [options]\n\nOptions:\n"@
        + "  -p, --pretty   show downtime in pretty format\n"@
        + "  -h, --help     display this help and exit\n"@
        + "  -s, --since    system down since\n"@
        + "  -V, --version  output version information and exit\n"@
}

/// Says how the program is used.
pub fn usage(program_name: &str) -> (r: String)
    ensures
        r@ == usage_text(program_name@),
{
    let mut r = "Usage:\n  ".to_owned();
    r.append(program_name);
    r.append(" [options]\n\nOptions:\n");
    r.append("  -p, --pretty   show downtime in pretty format\n");
    r.append("  -h, --help     display this help and exit\n");
    r.append("  -s, --since    system down since\n");
    r.append("  -V, --version  output version information and exit\n");
    r
}

/// The program's version.
pub fn version() -> (r: String)
    ensures
        r@ == "downtime version 1.0\n"@,
{
    "downtime version 1.0\n".to_owned()
}

/// What the program says when it is asked for nothing.
pub fn reassurance() -> (r: String)
    ensures
        r@ == "System is not down.\n"@,
{
    "System is not down.\n".to_owned()
}

/// What the program says of wrong arguments. Where it does not know an argument,
/// it goes on to say how it is used.
pub open spec fn error_text(e: ArgsErrorView, program_name: Seq<char>) -> Seq<char> {
    match e {
        ArgsErrorView::UnknownLong { name } => "Unrecognized option `--"@ + name + "`\n"@
            + usage_text(program_name),
        ArgsErrorView::UnknownShort { letter } => "Unrecognized option `-"@ + seq![letter] + "`\n"@
            + usage_text(program_name),
        ArgsErrorView::UnknownArgument { arg } => "Unrecognized argument `"@ + arg + "`\n"@
            + usage_text(program_name),
        ArgsErrorView::MissingValue { flag } => "option `"@ + flag + "` requires a value\n"@,
    }
}

/// Words what is wrong with the arguments.
pub fn explain(e: &ArgsError, program_name: &str) -> (r: String)
    ensures
        r@ == error_text(e@, program_name@),
{
    let usage = usage(program_name);
    match e {
        ArgsError::UnknownLong { name } => {
            let mut r = "Unrecognized option `--".to_owned();
            r.append(name.as_str());
            r.append("`\n");
            r.append(usage.as_str());
            r
        },
        ArgsError::UnknownShort { letter } => {
            let mut r = "Unrecognized option `-".to_owned();
            let ghost so_far = r@;
            r.push(*letter);
            assert(r@ =~= so_far + seq![*letter]);
            r.append("`\n");
            r.append(usage.as_str());
            r
        },
        ArgsError::UnknownArgument { arg } => {
            let mut r = "Unrecognized argument `".to_owned();
            r.append(arg.as_str());
            r.append("`\n");
            r.append(usage.as_str());
            r
        },
        ArgsError::MissingValue { flag } => {
            let mut r = "option `".to_owned();
            r.append(flag.as_str());
            r.append("` requires a value\n");
            r
        },
    }
}

/// Ends the program because of wrong arguments. That a value is missing goes to
/// standard error; what the program does not know goes to standard output, with how
/// it is used.
pub fn refuse(e: &ArgsError, program_name: &str) -> (r: Ending)
    ensures
        match e@ {
            ArgsErrorView::MissingValue { .. } => r.says(
                Seq::empty(),
                error_text(e@, program_name@),
                1,
            ),
            _ => r.says(error_text(e@, program_name@), Seq::empty(), 1),
        },
{
    let text = explain(e, program_name);
    match e {
        ArgsError::MissingValue { .. } => Ending::failed(text),
        _ => Ending::refused(text),
    }
}

/// The end of the program if it need not look at the machine for what it is to do.
pub fn end_at_once(action: &Action, program_name: &str) -> (r: Option<Ending>)
    ensures
        match action {
            Action::Help => r matches Some(end) && end.says(
                usage_text(program_name@),
                Seq::empty(),
                0,
            ),
            Action::Version => r matches Some(end) && end.says(
                "downtime version 1.0\n"@,
                Seq::empty(),
                0,
            ),
            Action::Report { .. } => r is None,
            Action::Reassure => r matches Some(end) && end.says(
                "System is not down.\n"@,
                Seq::empty(),
                0,
            ),
        },
{
    match action {
        Action::Help => Some(Ending::answered(usage(program_name))),
        Action::Version => Some(Ending::answered(version())),
        Action::Report { .. } => None,
        Action::Reassure => Some(Ending::answered(reassurance())),
    }
}

/// What the program says of a time that it cannot read.
pub open spec fn unreadable_text(since: Seq<char>) -> Seq<char> {
    "downtime: couldn't parse `"@ + since
        + "` as a time. try `2026-04-01`, `yesterday`, `2 weeks ago`.\n"@
}

/// The time to report from, given what became of reading it. The program ends if it
/// could not be read.
pub fn accept_time(since: &str, answer: Option<u64>) -> (r: Result<u64, Ending>)
    ensures
        match answer {
            Some(secs) => r == Ok::<u64, Ending>(secs),
            None => r matches Err(end) && end.says(Seq::empty(), unreadable_text(since@), 1),
        },
{
    match answer {
        Some(secs) => Ok(secs),
        None => {
            let mut text = "downtime: couldn't parse `".to_owned();
            text.append(since);
            text.append("` as a time. try `2026-04-01`, `yesterday`, `2 weeks ago`.\n");
            Err(Ending::failed(text))
        },
    }
}

/// Without any more arguments, the options are those that were read.
pub proof fn law_no_more_arguments(before: Seq<Seq<char>>, o: OptionsView)
    ensures
        read_between(before, Seq::empty(), Seq::empty(), o) == Ok::<OptionsView, ArgsErrorView>(o),
        no_options().help == false && no_options().pretty == false && no_options().version == false,
        no_options().since is None,
{
}

/// A dash alone is a group without letters, and changes nothing.
pub proof fn law_dash(before: Seq<Seq<char>>, after: Seq<Seq<char>>, o: OptionsView)
    ensures
        read_between(before, seq![seq!['-']], after, o) == read_args(after, 0, o),
{
    let none = Seq::<char>::empty();
    lemma_short(none);
    assert(seq!['-'] + none =~= seq!['-']);
    lemma_one_word(before, seq!['-'], after, o);
}

/// An argument that does not begin with a dash is not known, wherever an option is due.
pub proof fn law_unknown_argument(
    before: Seq<Seq<char>>,
    word: Seq<char>,
    after: Seq<Seq<char>>,
    o: OptionsView,
)
    requires
        word.len() > 0 ==> word[0] != '-',
    ensures
        read_between(before, seq![word], after, o) == Err::<OptionsView, ArgsErrorView>(
            ArgsErrorView::UnknownArgument { arg: word },
        ),
{
    reveal_strlit("--");
    reveal_strlit("-");
    lemma_one_word(before, word, after, o);
    if begins_with(word, "--"@) {
        assert(word.subrange(0, 2)[0] == word[0]);
    }
    if begins_with(word, "-"@) {
        assert(word.subrange(0, 1)[0] == word[0]);
    }
}

/// A long option that is none of the four is not known, and none but `since` takes a
/// value behind a `=`.
pub proof fn law_unknown_long(
    before: Seq<Seq<char>>,
    name: Seq<char>,
    value: Seq<char>,
    after: Seq<Seq<char>>,
    o: OptionsView,
)
    requires
        forall|i: int| 0 <= i < name.len() ==> #[trigger] name[i] != '=',
        name != "since"@,
    ensures
        name != "help"@ && name != "pretty"@ && name != "version"@ ==> read_between(
            before,
            seq!["--"@ + name],
            after,
            o,
        ) == Err::<OptionsView, ArgsErrorView>(ArgsErrorView::UnknownLong { name }),
        read_between(before, seq!["--"@ + (name + seq!['='] + value)], after, o) == Err::<
            OptionsView,
            ArgsErrorView,
        >(ArgsErrorView::UnknownLong { name }),
{
    lemma_long(name);
    law_find_char(name, '=');
    lemma_one_word(before, "--"@ + name, after, o);
    let equated = name + seq!['='] + value;
    lemma_long(equated);
    law_find_char(equated, '=');
    assert(equated[name.len() as int] == '=');
    assert forall|j: int| 0 <= j < name.len() implies equated[j] != '=' by {
        assert(equated[j] == name[j]);
    }
    assert(find_char(equated, '=') == Some(name.len() as int));
    assert(equated.take(name.len() as int) =~= name);
    lemma_one_word(before, "--"@ + equated, after, o);
}

/// A letter in a group that is none of the four is not known, behind whatever flags, and
/// whatever follows it.
pub proof fn law_unknown_short(
    before: Seq<Seq<char>>,
    flags: Seq<char>,
    letter: char,
    rest: Seq<char>,
    after: Seq<Seq<char>>,
    o: OptionsView,
)
    requires
        forall|i: int|
            0 <= i < flags.len() ==> #[trigger] flags[i] == 'h' || flags[i] == 'p' || flags[i]
                == 'V',
        letter != 'h' && letter != 'p' && letter != 's' && letter != 'V',
        flags.len() == 0 ==> letter != '-',
    ensures
        read_between(before, seq![seq!['-'] + (flags + (seq![letter] + rest))], after, o) == Err::<
            OptionsView,
            ArgsErrorView,
        >(ArgsErrorView::UnknownShort { letter }),
{
    let behind = seq![letter] + rest;
    let letters = flags + behind;
    if flags.len() > 0 {
        assert(letters[0] == flags[0]);
        assert(flags[0] != '-');
    } else {
        assert(letters[0] == letter);
    }
    lemma_short(letters);
    lemma_group_flags(flags, behind, 0, o);
    assert(behind[0] == letter);
    lemma_one_word(before, seq!['-'] + letters, after, o);
}

/// A time that is asked for and does not follow is missed, under the name by which it was
/// asked for, behind whatever flags.
pub proof fn law_missing_value(before: Seq<Seq<char>>, flags: Seq<char>, o: OptionsView)
    requires
        forall|i: int|
            0 <= i < flags.len() ==> #[trigger] flags[i] == 'h' || flags[i] == 'p' || flags[i]
                == 'V',
    ensures
        read_between(before, seq![seq!['-'] + (flags + seq!['s'])], Seq::empty(), o) == Err::<
            OptionsView,
            ArgsErrorView,
        >(ArgsErrorView::MissingValue { flag: "-s"@ }),
        read_between(before, seq!["--since"@], Seq::empty(), o) == Err::<
            OptionsView,
            ArgsErrorView,
        >(ArgsErrorView::MissingValue { flag: "--since"@ }),
{
    let after = Seq::<Seq<char>>::empty();
    let letters = flags + seq!['s'];
    if flags.len() > 0 {
        assert(letters[0] == flags[0]);
        assert(flags[0] != '-');
    } else {
        assert(letters[0] == 's');
    }
    lemma_short(letters);
    lemma_group_flags(flags, seq!['s'], 0, o);
    lemma_one_word(before, seq!['-'] + letters, after, o);
    assert("--since"@ =~= "--"@ + "since"@) by {
        reveal_strlit("--");
        reveal_strlit("since");
        reveal_strlit("--since");
    }
    lemma_long("since"@);
    lemma_names();
    lemma_one_word(before, "--since"@, after, o);
}

/// What the program says of arguments names the program, and the argument that is wrong,
/// as they are.
pub proof fn law_texts_name_their_subject(program_name: Seq<char>, subject: Seq<char>, letter: char)
    ensures
        usage_text(program_name) == "Usage:\n  "@ + (program_name + (" [options]\n\nOptions:\n"@
            + "  -p, --pretty   show downtime in pretty format\n"@
            + "  -h, --help     display this help and exit\n"@
            + "  -s, --since    system down since\n"@
            + "  -V, --version  output version information and exit\n"@)),
        error_text(ArgsErrorView::UnknownLong { name: subject }, program_name)
            == "Unrecognized option `--"@ + (subject + ("`\n"@ + usage_text(program_name))),
        error_text(ArgsErrorView::UnknownShort { letter }, program_name)
            == "Unrecognized option `-"@ + (seq![letter] + ("`\n"@ + usage_text(program_name))),
        error_text(ArgsErrorView::UnknownArgument { arg: subject }, program_name)
            == "Unrecognized argument `"@ + (subject + ("`\n"@ + usage_text(program_name))),
        error_text(ArgsErrorView::MissingValue { flag: subject }, program_name) == "option `"@ + (
        subject + "` requires a value\n"@),
        unreadable_text(subject) == "downtime: couldn't parse `"@ + (subject
            + "` as a time. try `2026-04-01`, `yesterday`, `2 weeks ago`.\n"@),
{
    let usage = usage_text(program_name);
    assert(usage =~= "Usage:\n  "@ + (program_name + (" [options]\n\nOptions:\n"@
        + "  -p, --pretty   show downtime in pretty format\n"@
        + "  -h, --help     display this help and exit\n"@ + "  -s, --since    system down since\n"@
        + "  -V, --version  output version information and exit\n"@)));
    assert(error_text(ArgsErrorView::UnknownLong { name: subject }, program_name)
        =~= "Unrecognized option `--"@ + (subject + ("`\n"@ + usage)));
    assert(error_text(ArgsErrorView::UnknownShort { letter }, program_name)
        =~= "Unrecognized option `-"@ + (seq![letter] + ("`\n"@ + usage)));
    assert(error_text(ArgsErrorView::UnknownArgument { arg: subject }, program_name)
        =~= "Unrecognized argument `"@ + (subject + ("`\n"@ + usage)));
    assert(error_text(ArgsErrorView::MissingValue { flag: subject }, program_name) =~= "option `"@ + (
    subject + "` requires a value\n"@));
    assert(unreadable_text(subject) =~= "downtime: couldn't parse `"@ + (subject
        + "` as a time. try `2026-04-01`, `yesterday`, `2 weeks ago`.\n"@));
}

} // verus!
