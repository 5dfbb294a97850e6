//! Text as a sequence of characters: searching, trimming and splitting.
//!
//! Positions are counted in characters. The specification of every function
//! here is a short spec function over `Seq<char>`, named after what it finds.

use vstd::prelude::*;
use vstd::slice::slice_subrange;

verus! {

/// Appends one character to a `String` (`String::push`): the text grows by
/// that character at its end.
pub assume_specification[ String::push ](s: &mut String, ch: char)
    ensures
        final(s)@ == old(s)@.push(ch),
;

/// The characters with Unicode's `White_Space` property.
pub open spec fn is_white(c: char) -> bool {
    let u = c as u32;
    ||| 0x9 <= u <= 0xd
    ||| u == 0x20
    ||| u == 0x85
    ||| u == 0xa0
    ||| u == 0x1680
    ||| 0x2000 <= u <= 0x200a
    ||| u == 0x2028
    ||| u == 0x2029
    ||| u == 0x202f
    ||| u == 0x205f
    ||| u == 0x3000
}

/// The first position from `i` on whose character satisfies `p`.
pub open spec fn find_from(s: Seq<char>, p: spec_fn(char) -> bool, i: int) -> Option<int>
    decreases s.len() - i,
{
    if i < 0 || i >= s.len() {
        None
    } else if p(s[i]) {
        Some(i)
    } else {
        find_from(s, p, i + 1)
    }
}

/// Being the character `c`.
pub open spec fn equal_to(c: char) -> spec_fn(char) -> bool {
    |x: char| x == c
}

/// Being one of two characters.
pub open spec fn either_of(a: char, b: char) -> spec_fn(char) -> bool {
    |x: char| x == a || x == b
}

/// Being white space.
pub open spec fn white() -> spec_fn(char) -> bool {
    |x: char| is_white(x)
}

/// The first position of the character `c`.
pub open spec fn find_char(s: Seq<char>, c: char) -> Option<int> {
    find_from(s, equal_to(c), 0)
}

/// The first position of either of two characters.
pub open spec fn find_either(s: Seq<char>, a: char, b: char) -> Option<int> {
    find_from(s, either_of(a, b), 0)
}

/// The first position of a white-space character.
pub open spec fn find_white(s: Seq<char>) -> Option<int> {
    find_from(s, white(), 0)
}

/// Whether `needle` stands in `s` at position `i`.
pub open spec fn occurs_at(s: Seq<char>, needle: Seq<char>, i: int) -> bool {
    0 <= i && i + needle.len() <= s.len() && s.subrange(i, i + needle.len()) == needle
}

/// The first position from `i` on at which `needle` stands in `s`.
pub open spec fn find_text_from(s: Seq<char>, needle: Seq<char>, i: int) -> Option<int>
    decreases s.len() - i + 1,
{
    if i < 0 || i + needle.len() > s.len() {
        None
    } else if occurs_at(s, needle, i) {
        Some(i)
    } else {
        find_text_from(s, needle, i + 1)
    }
}

/// The first position at which `needle` stands in `s`.
pub open spec fn find_text(s: Seq<char>, needle: Seq<char>) -> Option<int> {
    find_text_from(s, needle, 0)
}

/// Whether `s` begins with `prefix`.
pub open spec fn begins_with(s: Seq<char>, prefix: Seq<char>) -> bool {
    occurs_at(s, prefix, 0)
}

/// `s` without the white space at its start.
pub open spec fn trim_start(s: Seq<char>) -> Seq<char>
    decreases s.len(),
{
    if s.len() > 0 && is_white(s[0]) {
        trim_start(s.drop_first())
    } else {
        s
    }
}

/// `s` without the white space at its end.
pub open spec fn trim_end(s: Seq<char>) -> Seq<char>
    decreases s.len(),
{
    if s.len() > 0 && is_white(s.last()) {
        trim_end(s.drop_last())
    } else {
        s
    }
}

/// `s` without the white space at its start and its end.
pub open spec fn trim(s: Seq<char>) -> Seq<char> {
    trim_end(trim_start(s))
}

/// The first run of characters that are not white space.
pub open spec fn first_word(s: Seq<char>) -> Option<Seq<char>> {
    let t = trim_start(s);
    if t.len() == 0 {
        None
    } else {
        match find_white(t) {
            Some(i) => Some(t.take(i)),
            None => Some(t),
        }
    }
}

/// A line without the carriage return that may precede its line feed.
pub open spec fn without_return(s: Seq<char>) -> Seq<char> {
    if s.len() > 0 && s.last() == '\r' {
        s.drop_last()
    } else {
        s
    }
}

/// The lines of `s`. A line ends at a line feed, with or without a carriage
/// return before it; the last line need not end in one.
pub open spec fn lines(s: Seq<char>) -> Seq<Seq<char>>
    decreases s.len(),
{
    if s.len() == 0 {
        Seq::empty()
    } else {
        proof {
            lemma_find_from(s, equal_to('\n'), 0);
        }
        match find_char(s, '\n') {
            Some(i) => seq![without_return(s.take(i))] + lines(s.skip(i + 1)),
            None => seq![s],
        }
    }
}

/// Texts in a row, with `sep` between any two that are next to each other.
pub open spec fn join(parts: Seq<Seq<char>>, sep: Seq<char>) -> Seq<char>
    decreases parts.len(),
{
    if parts.len() == 0 {
        Seq::empty()
    } else if parts.len() == 1 {
        parts[0]
    } else {
        join(parts.drop_last(), sep) + sep + parts.last()
    }
}

/// The number of bytes that a character takes in UTF-8.
pub open spec fn width(c: char) -> int {
    let u = c as u32;
    if u < 0x80 {
        1
    } else if u < 0x800 {
        2
    } else if u < 0x10000 {
        3
    } else {
        4
    }
}

/// The number of bytes that a text takes in UTF-8.
pub open spec fn byte_len(s: Seq<char>) -> int
    decreases s.len(),
{
    if s.len() == 0 {
        0
    } else {
        width(s[0]) + byte_len(s.drop_first())
    }
}

/// The number of characters that take up exactly the first `n` bytes of `s`.
/// There is none if `s` is shorter or if a character straddles that offset.
pub open spec fn cut(s: Seq<char>, n: int) -> Option<int>
    decreases s.len(),
{
    if n == 0 {
        Some(0)
    } else if n < 0 || s.len() == 0 {
        None
    } else {
        match cut(s.drop_first(), n - width(s[0])) {
            Some(k) => Some(k + 1),
            None => None,
        }
    }
}

/// A cut leaves whole characters on both sides: the first part takes exactly
/// the bytes asked for.
pub proof fn lemma_cut(s: Seq<char>, n: int)
    ensures
        cut(s, n) matches Some(k) ==> 0 <= k <= s.len() && byte_len(s.take(k)) == n && n <= byte_len(s),
        0 <= s.len() <= byte_len(s),
    decreases s.len(),
{
    if s.len() > 0 {
        lemma_cut(s.drop_first(), n - width(s[0]));
        if let Some(k) = cut(s, n) {
            if k > 0 {
                assert(s.take(k).drop_first() =~= s.drop_first().take(k - 1));
            }
        }
    }
}

/// Byte counts and cuts are those of the text's UTF-8 encoding: a text is cut where
/// its encoding has a boundary, and the part before the cut takes that many bytes.
pub proof fn law_bytes_are_utf8(s: Seq<char>, n: int)
    ensures
        byte_len(s) == vstd::utf8::encode_utf8(s).len(),
        cut(s, n) is Some <==> vstd::utf8::is_char_boundary(vstd::utf8::encode_utf8(s), n),
        cut(s, n) matches Some(k) ==> 0 <= k <= s.len() && vstd::utf8::encode_utf8(s.take(k)).len()
            == n,
    decreases s.len(),
{
    let b = vstd::utf8::encode_utf8(s);
    vstd::utf8::encode_utf8_valid_utf8(s);
    if s.len() > 0 {
        vstd::utf8::encode_utf8_first_scalar(s);
        let rest = s.drop_first();
        law_bytes_are_utf8(rest, n - width(s[0]));
        assert(vstd::utf8::encode_scalar(s[0] as u32).len() == width(s[0]));
        assert(vstd::utf8::pop_first_scalar(b) =~= vstd::utf8::encode_utf8(rest));
        lemma_cut(s, n);
        if let Some(k) = cut(s, n) {
            if k > 0 {
                let part = s.take(k);
                vstd::utf8::encode_utf8_first_scalar(part);
                assert(part.drop_first() =~= rest.take(k - 1));
                assert(vstd::utf8::pop_first_scalar(vstd::utf8::encode_utf8(part))
                    =~= vstd::utf8::encode_utf8(part.drop_first()));
            }
        }
    }
}

/// What `find_from` finds: the first position that fits, and nothing before it.
pub proof fn lemma_find_from(s: Seq<char>, p: spec_fn(char) -> bool, i: int)
    requires
        0 <= i,
    ensures
        match find_from(s, p, i) {
            Some(k) => i <= k < s.len() && p(s[k]) && forall|j: int| i <= j < k ==> !p(s[j]),
            None => forall|j: int| i <= j < s.len() ==> !p(s[j]),
        },
    decreases s.len() - i,
{
    if i < s.len() && !p(s[i]) {
        lemma_find_from(s, p, i + 1);
    }
}

/// What `find_text_from` finds: the first position at which the text stands.
pub proof fn lemma_find_text_from(s: Seq<char>, needle: Seq<char>, i: int)
    requires
        0 <= i,
    ensures
        match find_text_from(s, needle, i) {
            Some(k) => i <= k && occurs_at(s, needle, k) && forall|j: int|
                i <= j < k ==> !occurs_at(s, needle, j),
            None => forall|j: int| i <= j ==> !occurs_at(s, needle, j),
        },
    decreases s.len() - i + 1,
{
    if i + needle.len() <= s.len() && !occurs_at(s, needle, i) {
        lemma_find_text_from(s, needle, i + 1);
    }
}

/// The characters of a string.
pub fn chars_of(s: &str) -> (v: Vec<char>)
    ensures
        v@ == s@,
{
    let mut v: Vec<char> = Vec::new();
    for c in it: s.chars()
        invariant
            it.seq() == s@,
            v@ == s@.take(it.index()),
    {
        v.push(c);
        proof {
            assert(s@.take(it.index() + 1) =~= s@.take(it.index()).push(c));
        }
    }
    assert(s@.take(s@.len() as int) =~= s@);
    v
}

/// The string made of these characters.
pub fn string_of(s: &[char]) -> (r: String)
    ensures
        r@ == s@,
{
    let mut r = String::new();
    let mut i: usize = 0;
    while i < s.len()
        invariant
            i <= s@.len(),
            r@ == s@.take(i as int),
        decreases s@.len() - i,
    {
        r.push(s[i]);
        assert(s@.take(i + 1) =~= s@.take(i as int).push(s@[i as int]));
        i = i + 1;
    }
    assert(s@.take(s@.len() as int) =~= s@);
    r
}

/// Whether a character is white space.
pub fn white_char(c: char) -> (b: bool)
    ensures
        b == is_white(c),
{
    let u: u32 = c as u32;
    (0x9 <= u && u <= 0xd) || u == 0x20 || u == 0x85 || u == 0xa0 || u == 0x1680 || (0x2000 <= u
        && u <= 0x200a) || u == 0x2028 || u == 0x2029 || u == 0x202f || u == 0x205f || u == 0x3000
}

/// The number of bytes that a character takes in UTF-8.
pub fn char_width(c: char) -> (w: usize)
    ensures
        w == width(c),
{
    let u: u32 = c as u32;
    if u < 0x80 {
        1
    } else if u < 0x800 {
        2
    } else if u < 0x10000 {
        3
    } else {
        4
    }
}

/// Whether a text takes at least `n` bytes.
pub fn takes_bytes(s: &[char], n: usize) -> (b: bool)
    ensures
        b == (byte_len(s@) >= n),
{
    let mut left: usize = n;
    let mut i: usize = 0;
    assert(s@.skip(0) =~= s@);
    while i < s.len() && left > 0
        invariant
            i <= s@.len(),
            left <= n,
            byte_len(s@) >= n <==> byte_len(s@.skip(i as int)) >= left,
        decreases s@.len() - i,
    {
        let w = char_width(s[i]);
        assert(s@.skip(i as int).drop_first() =~= s@.skip(i + 1));
        proof {
            lemma_cut(s@.skip(i + 1), 0);
        }
        left = if w < left {
            left - w
        } else {
            0
        };
        i = i + 1;
    }
    proof {
        lemma_cut(s@.skip(i as int), 0);
    }
    left == 0
}

/// The number of characters that take up exactly the first `n` bytes of `s`.
pub fn cut_at(s: &[char], n: usize) -> (r: Option<usize>)
    ensures
        match r {
            Some(k) => k <= s.len() && cut(s@, n as int) == Some(k as int),
            None => cut(s@, n as int) is None,
        },
{
    let mut left: usize = n;
    let mut i: usize = 0;
    assert(s@.skip(0) =~= s@);
    while i < s.len() && left > 0
        invariant
            i <= s@.len(),
            match cut(s@.skip(i as int), left as int) {
                Some(k) => cut(s@, n as int) == Some(k + i),
                None => cut(s@, n as int) is None,
            },
        decreases s@.len() - i,
    {
        let w = char_width(s[i]);
        assert(s@.skip(i as int).drop_first() =~= s@.skip(i + 1));
        if w > left {
            assert(cut(s@.skip(i + 1), left - w) is None);
            return None;
        }
        left = left - w;
        i = i + 1;
    }
    if left == 0 {
        Some(i)
    } else {
        None
    }
}

/// The first position of either of two characters in `s`.
pub fn position_of_either(s: &[char], a: char, b: char) -> (r: Option<usize>)
    ensures
        match r {
            Some(i) => i < s.len() && find_either(s@, a, b) == Some(i as int),
            None => find_either(s@, a, b) is None,
        },
{
    let mut i: usize = 0;
    while i < s.len()
        invariant
            i <= s@.len(),
            find_either(s@, a, b) == find_from(s@, either_of(a, b), i as int),
        decreases s@.len() - i,
    {
        if s[i] == a || s[i] == b {
            return Some(i);
        }
        i = i + 1;
    }
    None
}

/// The first position of a character in `s`.
pub fn position_of(s: &[char], c: char) -> (r: Option<usize>)
    ensures
        match r {
            Some(i) => i < s.len() && find_char(s@, c) == Some(i as int),
            None => find_char(s@, c) is None,
        },
{
    let mut i: usize = 0;
    while i < s.len()
        invariant
            i <= s@.len(),
            find_char(s@, c) == find_from(s@, equal_to(c), i as int),
        decreases s@.len() - i,
    {
        if s[i] == c {
            return Some(i);
        }
        i = i + 1;
    }
    None
}

/// Whether `needle` stands in `s` at position `at`.
pub fn stands_at(s: &[char], needle: &[char], at: usize) -> (b: bool)
    ensures
        b == occurs_at(s@, needle@, at as int),
{
    if at > s.len() || needle.len() > s.len() - at {
        return false;
    }
    let mut i: usize = 0;
    while i < needle.len()
        invariant
            i <= needle@.len(),
            at + needle@.len() <= s.len(),
            forall|j: int| 0 <= j < i ==> s@[at + j] == needle@[j],
        decreases needle@.len() - i,
    {
        if s[at + i] != needle[i] {
            assert(s@.subrange(at as int, at + needle@.len())[i as int] != needle@[i as int]);
            return false;
        }
        i = i + 1;
    }
    assert(s@.subrange(at as int, at + needle@.len()) =~= needle@);
    true
}

/// The first position at which `needle` stands in `s`.
pub fn position_of_text(s: &[char], needle: &[char]) -> (r: Option<usize>)
    ensures
        match r {
            Some(i) => i + needle@.len() <= s.len() && find_text(s@, needle@) == Some(i as int),
            None => find_text(s@, needle@) is None,
        },
{
    let mut i: usize = 0;
    while i <= s.len() && needle.len() <= s.len() - i
        invariant
            i <= s@.len() + 1,
            find_text(s@, needle@) == find_text_from(s@, needle@, i as int),
        decreases s@.len() + 1 - i,
    {
        if stands_at(s, needle, i) {
            return Some(i);
        }
        if i == s.len() {
            assert(find_text_from(s@, needle@, i + 1) is None);
            return None;
        }
        i = i + 1;
    }
    None
}

/// Whether `s` is the text `t`.
pub fn same_text(s: &[char], t: &str) -> (b: bool)
    ensures
        b == (s@ == t@),
{
    let t = chars_of(t);
    if s.len() != t.len() {
        return false;
    }
    let b = stands_at(s, t.as_slice(), 0);
    assert(s@.subrange(0, s@.len() as int) =~= s@);
    b
}

/// Whether `s` begins with the text `t`.
pub fn has_prefix(s: &[char], t: &str) -> (b: bool)
    ensures
        b == begins_with(s@, t@),
{
    let t = chars_of(t);
    stands_at(s, t.as_slice(), 0)
}

/// The part of `s` after the white space at its start.
pub fn trimmed_start(s: &[char]) -> (r: &[char])
    ensures
        r@ == trim_start(s@),
{
    let mut i: usize = 0;
    assert(s@.skip(0) =~= s@);
    while i < s.len() && white_char(s[i])
        invariant
            i <= s@.len(),
            trim_start(s@) == trim_start(s@.skip(i as int)),
        decreases s@.len() - i,
    {
        assert(s@.skip(i as int).drop_first() =~= s@.skip(i + 1));
        i = i + 1;
    }
    assert(s@.subrange(i as int, s@.len() as int) =~= s@.skip(i as int));
    slice_subrange(s, i, s.len())
}

/// The part of `s` before the white space at its end.
pub fn trimmed_end(s: &[char]) -> (r: &[char])
    ensures
        r@ == trim_end(s@),
{
    let mut n: usize = s.len();
    assert(s@.take(n as int) =~= s@);
    while n > 0 && white_char(s[n - 1])
        invariant
            n <= s@.len(),
            trim_end(s@) == trim_end(s@.take(n as int)),
        decreases n,
    {
        assert(s@.take(n as int).drop_last() =~= s@.take(n - 1));
        n = n - 1;
    }
    assert(s@.subrange(0, n as int) =~= s@.take(n as int));
    slice_subrange(s, 0, n)
}

/// `s` without the white space at its start and its end.
pub fn trimmed(s: &[char]) -> (r: &[char])
    ensures
        r@ == trim(s@),
{
    trimmed_end(trimmed_start(s))
}

/// The first run of characters in `s` that are not white space.
pub fn word_at_start(s: &[char]) -> (r: Option<&[char]>)
    ensures
        match r {
            Some(w) => first_word(s@) == Some(w@),
            None => first_word(s@) is None,
        },
{
    let t = trimmed_start(s);
    if t.len() == 0 {
        return None;
    }
    let mut i: usize = 0;
    while i < t.len() && !white_char(t[i])
        invariant
            i <= t@.len(),
            find_white(t@) == find_from(t@, white(), i as int),
        decreases t@.len() - i,
    {
        i = i + 1;
    }
    assert(t@.subrange(0, i as int) =~= t@.take(i as int));
    assert(t@.take(t@.len() as int) =~= t@);
    Some(slice_subrange(t, 0, i))
}

/// `s` cut at the first `c`: what stands before it and what stands after it.
pub fn split_at_first(s: &[char], c: char) -> (r: Option<(&[char], &[char])>)
    ensures
        match r {
            Some((a, b)) => find_char(s@, c) is Some && a@ == s@.take(find_char(s@, c)->0) && b@
                == s@.skip(find_char(s@, c)->0 + 1),
            None => find_char(s@, c) is None,
        },
{
    match position_of(s, c) {
        Some(i) => {
            assert(s@.subrange(0, i as int) =~= s@.take(i as int));
            assert(s@.subrange(i + 1, s@.len() as int) =~= s@.skip(i + 1));
            Some((slice_subrange(s, 0, i), slice_subrange(s, i + 1, s.len())))
        },
        None => None,
    }
}

/// The first line of a text that is not empty, and the text after it.
pub fn first_line(s: &[char]) -> (r: (&[char], &[char]))
    requires
        s@.len() > 0,
    ensures
        lines(s@) == seq![r.0@] + lines(r.1@),
        r.1@.len() < s@.len(),
{
    match split_at_first(s, '\n') {
        Some((a, b)) => {
            proof {
                lemma_find_from(s@, equal_to('\n'), 0);
            }
            if a.len() > 0 && a[a.len() - 1] == '\r' {
                assert(a@.subrange(0, a@.len() - 1) =~= a@.drop_last());
                (slice_subrange(a, 0, a.len() - 1), b)
            } else {
                (a, b)
            }
        },
        None => {
            let rest = slice_subrange(s, s.len(), s.len());
            assert(rest@ =~= Seq::<char>::empty());
            assert(seq![s@] + lines(rest@) =~= seq![s@]);
            (s, rest)
        },
    }
}

/// The texts of strings.
pub open spec fn texts(v: Seq<String>) -> Seq<Seq<char>> {
    v.map_values(|s: String| s@)
}

/// Strings in a row, with `sep` between any two that are next to each other.
pub fn join_texts(parts: &Vec<String>, sep: &str) -> (r: String)
    ensures
        r@ == join(texts(parts@), sep@),
{
    let mut r = String::new();
    let ghost all = texts(parts@);
    let mut i: usize = 0;
    while i < parts.len()
        invariant
            i <= parts@.len(),
            all == texts(parts@),
            r@ == join(all.take(i as int), sep@),
        decreases parts@.len() - i,
    {
        if i > 0 {
            r.append(sep);
        }
        r.append(parts[i].as_str());
        assert(all.take(i + 1).drop_last() =~= all.take(i as int));
        assert(all.take(i + 1).last() == parts@[i as int]@);
        assert(i == 0 ==> Seq::<char>::empty() + parts@[0]@ =~= parts@[0]@);
        i = i + 1;
    }
    assert(all.take(all.len() as int) =~= all);
    r
}

/// The first place of a character has that character, and no place before it has;
/// without a place, the text does not have it at all.
pub proof fn law_find_char(s: Seq<char>, c: char)
    ensures
        match find_char(s, c) {
            Some(i) => 0 <= i < s.len() && s[i] == c && forall|j: int| 0 <= j < i ==> s[j] != c,
            None => forall|j: int| 0 <= j < s.len() ==> s[j] != c,
        },
{
    lemma_find_from(s, equal_to(c), 0);
}

/// The first place of either of two characters has one of them, and no place before
/// it has; without a place, the text has neither.
pub proof fn law_find_either(s: Seq<char>, a: char, b: char)
    ensures
        match find_either(s, a, b) {
            Some(i) => 0 <= i < s.len() && (s[i] == a || s[i] == b) && forall|j: int|
                0 <= j < i ==> s[j] != a && s[j] != b,
            None => forall|j: int| 0 <= j < s.len() ==> s[j] != a && s[j] != b,
        },
{
    lemma_find_from(s, either_of(a, b), 0);
}

/// A text that stands somewhere is found there or before.
pub proof fn law_text_is_found(before: Seq<char>, needle: Seq<char>, after: Seq<char>)
    ensures
        find_text(before + needle + after, needle) matches Some(i) && i <= before.len(),
{
    let s = before + needle + after;
    let n = before.len() as int;
    assert(s.subrange(n, n + needle.len()) =~= needle);
    assert(occurs_at(s, needle, n));
    lemma_find_text_from(s, needle, 0);
}

/// Where a text is found, it stands.
pub proof fn law_found_text_stands(s: Seq<char>, needle: Seq<char>)
    ensures
        find_text(s, needle) matches Some(i) ==> 0 <= i <= s.len() - needle.len() && s == s.take(i)
            + needle + s.skip(i + needle.len()),
{
    lemma_find_text_from(s, needle, 0);
    if let Some(i) = find_text(s, needle) {
        assert(s =~= s.take(i) + s.subrange(i, i + needle.len()) + s.skip(i + needle.len()));
    }
}

/// A text begins with another if it is that and something behind it.
pub proof fn law_begins_with(s: Seq<char>, prefix: Seq<char>, rest: Seq<char>)
    ensures
        begins_with(prefix + rest, prefix),
        begins_with(s, prefix) ==> prefix.len() <= s.len() && s == prefix + s.skip(
            prefix.len() as int,
        ),
{
    let n = prefix.len() as int;
    assert((prefix + rest).subrange(0, n) =~= prefix);
    if begins_with(s, prefix) {
        assert(s =~= s.subrange(0, n) + s.skip(n));
    }
}

/// Whether all characters are white space.
pub open spec fn all_white(s: Seq<char>) -> bool {
    forall|i: int| 0 <= i < s.len() ==> is_white(#[trigger] s[i])
}

/// White space before a text that does not begin with any is taken off.
proof fn lemma_trim_start(a: Seq<char>, m: Seq<char>)
    requires
        all_white(a),
        m.len() > 0 ==> !is_white(m[0]),
    ensures
        trim_start(a + m) == m,
    decreases a.len(),
{
    if a.len() > 0 {
        let d = a.drop_first();
        assert(is_white(a[0]));
        assert forall|i: int| 0 <= i < d.len() implies is_white(#[trigger] d[i]) by {
            assert(is_white(a[i + 1]));
        }
        assert((a + m)[0] == a[0]);
        assert((a + m).drop_first() =~= d + m);
        lemma_trim_start(d, m);
    } else {
        assert(a + m =~= m);
    }
}

/// White space behind a text that does not end with any is taken off.
proof fn lemma_trim_end(m: Seq<char>, b: Seq<char>)
    requires
        all_white(b),
        m.len() > 0 ==> !is_white(m.last()),
    ensures
        trim_end(m + b) == m,
    decreases b.len(),
{
    if b.len() > 0 {
        let d = b.drop_last();
        assert(is_white(b[b.len() - 1]));
        assert forall|i: int| 0 <= i < d.len() implies is_white(#[trigger] d[i]) by {
            assert(is_white(b[i]));
        }
        assert((m + b).last() == b.last());
        assert((m + b).drop_last() =~= m + d);
        lemma_trim_end(m, d);
    } else {
        assert(m + b =~= m);
    }
}

/// Trimming takes off the white space around a text, all of it and nothing else.
pub proof fn law_trim(a: Seq<char>, m: Seq<char>, b: Seq<char>)
    requires
        all_white(a),
        all_white(b),
        m.len() > 0 ==> !is_white(m[0]) && !is_white(m.last()),
    ensures
        trim(a + m + b) == m,
        m.len() > 0 ==> trim_start(a + m + b) == m + b,
        trim_end(m + b) == m,
{
    lemma_trim_end(m, b);
    if m.len() > 0 {
        assert((m + b)[0] == m[0]);
        assert(a + m + b =~= a + (m + b));
        lemma_trim_start(a, m + b);
    } else {
        let all = a + m + b;
        assert forall|i: int| 0 <= i < all.len() implies is_white(#[trigger] all[i]) by {
            if i < a.len() {
                assert(all[i] == a[i]);
            } else {
                assert(all[i] == b[i - a.len()]);
            }
        }
        assert(all =~= all + m);
        lemma_trim_start(all, m);
    }
}

/// The first word of a text is what stands between white space and white space, or
/// the end. White space alone has no word.
pub proof fn law_first_word(lead: Seq<char>, word: Seq<char>, rest: Seq<char>)
    requires
        all_white(lead),
        forall|i: int| 0 <= i < word.len() ==> !is_white(#[trigger] word[i]),
        rest.len() > 0 ==> is_white(rest[0]),
    ensures
        word.len() > 0 ==> first_word(lead + word + rest) == Some(word),
        first_word(lead) is None,
{
    assert(lead + Seq::<char>::empty() =~= lead);
    lemma_trim_start(lead, Seq::empty());
    if word.len() > 0 {
        let t = word + rest;
        assert(lead + word + rest =~= lead + t);
        assert(!is_white(word[0]));
        lemma_trim_start(lead, t);
        lemma_find_from(t, white(), 0);
        assert forall|i: int| 0 <= i < word.len() implies !is_white(#[trigger] t[i]) by {
            assert(t[i] == word[i]);
        }
        if rest.len() > 0 {
            assert(t[word.len() as int] == rest[0]);
        } else {
            assert(t =~= word);
        }
        assert(t.take(word.len() as int) =~= word);
    }
}

/// Lines with their ends, each a line feed, with or without a carriage return before
/// it.
pub open spec fn with_ends(ls: Seq<Seq<char>>, crlf: Seq<bool>) -> Seq<char>
    decreases ls.len(),
{
    if ls.len() == 0 {
        Seq::empty()
    } else {
        ls[0] + (if crlf[0] {
            seq!['\r', '\n']
        } else {
            seq!['\n']
        }) + with_ends(ls.drop_first(), crlf.drop_first())
    }
}

/// Lines read back: rows of texts without a line feed, each with an end, and perhaps
/// one more behind the last end, are the lines of what they make. A text with a
/// carriage return at its end needs the longer end, or that character is lost.
pub proof fn law_lines_read_back(ls: Seq<Seq<char>>, crlf: Seq<bool>, last: Seq<char>)
    requires
        crlf.len() == ls.len(),
        forall|i: int, j: int|
            0 <= i < ls.len() && 0 <= j < ls[i].len() ==> #[trigger] ls[i][j] != '\n',
        forall|i: int|
            0 <= i < ls.len() && (#[trigger] ls[i]).len() > 0 && ls[i].last() == '\r' ==> crlf[i],
        forall|j: int| 0 <= j < last.len() ==> last[j] != '\n',
    ensures
        lines(with_ends(ls, crlf) + last) == if last.len() > 0 {
            ls.push(last)
        } else {
            ls
        },
    decreases ls.len(),
{
    if ls.len() == 0 {
        assert(with_ends(ls, crlf) + last =~= last);
        lemma_find_from(last, equal_to('\n'), 0);
        if last.len() > 0 {
            assert(ls.push(last) =~= seq![last]);
        } else {
            assert(ls =~= Seq::empty());
        }
    } else {
        let (d, e) = (ls.drop_first(), crlf.drop_first());
        assert forall|i: int, j: int|
            0 <= i < d.len() && 0 <= j < d[i].len() implies #[trigger] d[i][j] != '\n' by {
            assert(ls[i + 1][j] != '\n');
        }
        assert forall|i: int|
            0 <= i < d.len() && (#[trigger] d[i]).len() > 0 && d[i].last() == '\r' implies e[i] by {
            assert(ls[i + 1].last() == '\r');
        }
        law_lines_read_back(d, e, last);
        let end = if crlf[0] {
            seq!['\r', '\n']
        } else {
            seq!['\n']
        };
        let rest = with_ends(d, e) + last;
        let s = with_ends(ls, crlf) + last;
        let first = ls[0];
        assert(s =~= first + end + rest);
        lemma_find_from(s, equal_to('\n'), 0);
        let at = first.len() + end.len() - 1;
        assert(s[at] == '\n');
        assert forall|j: int| 0 <= j < at implies #[trigger] s[j] != '\n' by {
            if j < first.len() {
                assert(s[j] == ls[0][j]);
            }
        }
        assert(find_char(s, '\n') == Some(at));
        assert(s.skip(at + 1) =~= rest);
        if crlf[0] {
            assert(s.take(at).drop_last() =~= first);
        } else {
            assert(s.take(at) =~= first);
            assert(first.len() > 0 ==> ls[0].last() != '\r');
        }
        assert(ls =~= seq![first] + d);
        assert(ls.push(last) =~= seq![first] + d.push(last));
    }
}

/// Joining rows of texts: nothing makes nothing, one makes itself, and two rows make
/// what each of them makes, with the separator between.
pub proof fn law_join(a: Seq<Seq<char>>, b: Seq<Seq<char>>, one: Seq<char>, sep: Seq<char>)
    ensures
        join(Seq::empty(), sep) == Seq::<char>::empty(),
        join(seq![one], sep) == one,
        a.len() > 0 && b.len() > 0 ==> join(a + b, sep) == join(a, sep) + sep + join(b, sep),
    decreases b.len(),
{
    if a.len() > 0 && b.len() > 0 {
        let d = b.drop_last();
        assert((a + b).drop_last() =~= a + d);
        if d.len() > 0 {
            law_join(a, d, one, sep);
            assert(join(a, sep) + sep + join(d, sep) + sep + b.last() =~= join(a, sep) + sep + (
            join(d, sep) + sep + b.last()));
        } else {
            assert(a + d =~= a);
        }
    }
}

/// The texts of strings are one for each, in order.
pub proof fn law_texts(v: Seq<String>)
    ensures
        texts(v).len() == v.len(),
        forall|i: int| 0 <= i < v.len() ==> #[trigger] texts(v)[i] == v[i]@,
{
}

} // verus!
