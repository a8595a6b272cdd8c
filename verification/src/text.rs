//! Text as sequences of characters.
//!
//! Contracts everywhere in this crate speak of a string through its view, a
//! `Seq<char>`. This module names the operations on such sequences and carries
//! them out on `str` and `String`.

use vstd::prelude::*;

verus! {

/// What a string holds, as contracts see it.
pub type Text = Seq<char>;

/// `String::push` appends the given character to the end of the string.
pub assume_specification[ String::push ](s: &mut String, ch: char)
    ensures
        final(s)@ == old(s)@.push(ch),
;

/// The characters of a string, in order.
pub fn chars_of(s: &str) -> (out: Vec<char>)
    ensures
        out@ == s@,
{
    let mut out: Vec<char> = Vec::new();
    for c in it: s.chars()
        invariant
            it.seq() == s@,
            out@ == it.seq().take(it.index() as int),
    {
        out.push(c);
    }
    out
}

/// Whether two strings hold the same characters.
pub fn same(a: &str, b: &str) -> (r: bool)
    ensures
        r == (a@ == b@),
{
    a.to_owned() == b.to_owned()
}

/// Appends one line to a list of lines.
pub fn emit(out: &mut Vec<String>, line: String)
    ensures
        final(out).deep_view() == old(out).deep_view().push(line@),
{
    out.push(line);
}

/// Whether `list` holds a string with the characters of `s`.
pub fn among(list: &[String], s: &str) -> (r: bool)
    ensures
        r == list.deep_view().contains(s@),
{
    let mut i: usize = 0;
    while i < list.len()
        invariant
            i <= list.len(),
            forall|j: int| 0 <= j < i ==> list@[j]@ != s@,
        decreases list.len() - i,
    {
        if same(list[i].as_str(), s) {
            assert(list.deep_view()[i as int] == s@);
            return true;
        }
        i += 1;
    }
    assert forall|j: int| 0 <= j < list.deep_view().len() implies list.deep_view()[j] != s@ by {
        assert(list.deep_view()[j] == list@[j]@);
    }
    false
}

// ---------------------------------------------------------------------------
// Lengths
// ---------------------------------------------------------------------------

/// The number of bytes of a text in UTF-8.
pub open spec fn byte_len(s: Text) -> nat {
    vstd::utf8::encode_utf8(s).len()
}

/// The number of bytes a string takes.
pub fn bytes_in(s: &str) -> (n: usize)
    ensures
        n == byte_len(s@),
{
    s.as_bytes().len()
}

// ---------------------------------------------------------------------------
// White space
// ---------------------------------------------------------------------------

/// The characters with Unicode's `White_Space` property.
pub open spec fn is_space(c: char) -> bool {
    let u = c as u32;
    ||| 0x9 <= u <= 0xd
    ||| u == 0x20
    ||| u == 0x85
    ||| u == 0xa0
    ||| u == 0x1680
    ||| 0x2000 <= u <= 0x200a
    ||| u == 0x2028
    ||| u == 0x2029
    ||| u == 0x202f
    ||| u == 0x205f
    ||| u == 0x3000
}

/// Whether a character is white space.
pub fn white_space(c: char) -> (r: bool)
    ensures
        r == is_space(c),
{
    let u: u32 = c as u32;
    (0x9 <= u && u <= 0xd) || u == 0x20 || u == 0x85 || u == 0xa0 || u == 0x1680 || (0x2000 <= u
        && u <= 0x200a) || u == 0x2028 || u == 0x2029 || u == 0x202f || u == 0x205f || u == 0x3000
}

/// A text without its leading white space.
pub open spec fn trim_start(s: Text) -> Text
    decreases s.len(),
{
    if s.len() > 0 && is_space(s[0]) {
        trim_start(s.drop_first())
    } else {
        s
    }
}

/// A text without its trailing white space.
pub open spec fn trim_end(s: Text) -> Text
    decreases s.len(),
{
    if s.len() > 0 && is_space(s.last()) {
        trim_end(s.drop_last())
    } else {
        s
    }
}

/// A text without white space at either end.
pub open spec fn trim(s: Text) -> Text {
    trim_end(trim_start(s))
}

/// The number of leading characters that are not white space.
pub open spec fn word_len(s: Text) -> nat
    decreases s.len(),
{
    if s.len() == 0 || is_space(s[0]) {
        0
    } else {
        1 + word_len(s.drop_first())
    }
}

/// The words of a text: its maximal runs of characters that are not white
/// space, in order.
pub open spec fn words(s: Text) -> Seq<Text>
    decreases s.len(),
{
    proof {
        lemma_trim_start(s);
        lemma_word_len(trim_start(s));
    }
    let t = trim_start(s);
    if t.len() == 0 {
        Seq::empty()
    } else {
        seq![t.take(word_len(t) as int)] + words(t.skip(word_len(t) as int))
    }
}

/// Dropping leading white space leaves a tail that does not begin with any.
pub proof fn lemma_trim_start(s: Text)
    ensures
        trim_start(s).len() <= s.len(),
        trim_start(s).len() > 0 ==> !is_space(trim_start(s)[0]),
        trim_start(s) == s.skip(s.len() - trim_start(s).len()),
    decreases s.len(),
{
    if s.len() > 0 && is_space(s[0]) {
        lemma_trim_start(s.drop_first());
    }
}

/// The first word is a run without white space, and ends where white space or
/// the text's end is.
pub proof fn lemma_word_len(s: Text)
    ensures
        word_len(s) <= s.len(),
        s.len() > 0 && !is_space(s[0]) ==> word_len(s) > 0,
        word_len(s) < s.len() ==> is_space(s[word_len(s) as int]),
        forall|i: int| 0 <= i < word_len(s) ==> !is_space(#[trigger] s[i]),
    decreases s.len(),
{
    if s.len() > 0 && !is_space(s[0]) {
        lemma_word_len(s.drop_first());
        assert forall|i: int| 0 <= i < word_len(s) implies !is_space(#[trigger] s[i]) by {
            if i > 0 {
                assert(s[i] == s.drop_first()[i - 1]);
            }
        }
    }
}

/// Where the text after leading white space begins, from position `from` on.
fn skip_space(cs: &Vec<char>, from: usize) -> (at: usize)
    requires
        from <= cs@.len(),
    ensures
        from <= at <= cs@.len(),
        cs@.skip(at as int) == trim_start(cs@.skip(from as int)),
        at < cs@.len() ==> !is_space(cs@[at as int]),
{
    let mut at: usize = from;
    while at < cs.len() && white_space(cs[at])
        invariant
            from <= at <= cs@.len(),
            trim_start(cs@.skip(at as int)) == trim_start(cs@.skip(from as int)),
        decreases cs@.len() - at,
    {
        assert(cs@.skip(at as int).drop_first() == cs@.skip(at + 1));
        at += 1;
    }
    at
}

/// Where the word that begins at `from` ends.
fn skip_word(cs: &Vec<char>, from: usize) -> (at: usize)
    requires
        from <= cs@.len(),
    ensures
        from <= at <= cs@.len(),
        at - from == word_len(cs@.skip(from as int)),
{
    let mut at: usize = from;
    while at < cs.len() && !white_space(cs[at])
        invariant
            from <= at <= cs@.len(),
            word_len(cs@.skip(from as int)) == at - from + word_len(cs@.skip(at as int)),
        decreases cs@.len() - at,
    {
        assert(cs@.skip(at as int).drop_first() == cs@.skip(at + 1));
        at += 1;
    }
    at
}

/// A copy of a string without white space at either end.
pub fn trimmed(s: &str) -> (out: String)
    ensures
        out@ == trim(s@),
{
    let cs = chars_of(s);
    assert(cs@.skip(0) == cs@);
    let start: usize = skip_space(&cs, 0);
    let mut end: usize = cs.len();
    assert(cs@.subrange(start as int, end as int) == cs@.skip(start as int));
    while start < end && white_space(cs[end - 1])
        invariant
            start <= end <= cs@.len(),
            trim_end(cs@.subrange(start as int, end as int)) == trim(s@),
        decreases end,
    {
        assert(cs@.subrange(start as int, end as int).drop_last() == cs@.subrange(
            start as int,
            end - 1,
        ));
        end -= 1;
    }
    s.substring_char(start, end).to_owned()
}

/// The words of a string, in order.
pub fn words_of(s: &str) -> (out: Vec<String>)
    ensures
        out.deep_view() == words(s@),
{
    let cs = chars_of(s);
    let mut out: Vec<String> = Vec::new();
    assert(cs@.skip(0) == cs@);
    assert(out.deep_view() + words(s@) == words(s@));
    let mut at: usize = 0;
    loop
        invariant
            cs@ == s@,
            at <= cs@.len(),
            out.deep_view() + words(cs@.skip(at as int)) == words(s@),
        decreases cs@.len() - at,
    {
        let ghost rest = cs@.skip(at as int);
        let start: usize = skip_space(&cs, at);
        if start == cs.len() {
            assert(words(rest) == Seq::<Text>::empty());
            assert(out.deep_view() + words(rest) == out.deep_view());
            return out;
        }
        let end: usize = skip_word(&cs, start);
        proof {
            let t = trim_start(rest);
            lemma_word_len(t);
            assert(t.take(end - start) == s@.subrange(start as int, end as int));
            assert(t.skip(end - start) == cs@.skip(end as int));
        }
        let ghost before = out.deep_view();
        let word = s.substring_char(start, end).to_owned();
        emit(&mut out, word);
        proof {
            assert(before + (seq![word@] + words(cs@.skip(end as int))) == before.push(word@)
                + words(cs@.skip(end as int)));
        }
        at = end;
    }
}

// ---------------------------------------------------------------------------
// Finding
// ---------------------------------------------------------------------------

/// How many characters come before the first `c`; all of them if there is none.
pub open spec fn upto(s: Text, c: char) -> nat
    decreases s.len(),
{
    if s.len() == 0 || s[0] == c {
        0
    } else {
        1 + upto(s.drop_first(), c)
    }
}

/// What precedes the first `c` has none in it, and a `c` follows unless the
/// text ends there.
pub proof fn lemma_upto(s: Text, c: char)
    ensures
        upto(s, c) <= s.len(),
        upto(s, c) < s.len() ==> s[upto(s, c) as int] == c,
        forall|i: int| 0 <= i < upto(s, c) ==> #[trigger] s[i] != c,
    decreases s.len(),
{
    if s.len() > 0 && s[0] != c {
        lemma_upto(s.drop_first(), c);
        assert forall|i: int| 0 <= i < upto(s, c) implies #[trigger] s[i] != c by {
            if i > 0 {
                assert(s[i] == s.drop_first()[i - 1]);
            }
        }
    }
}

/// The position of the first `c` from `from` on, or the text's end.
pub fn seek(cs: &Vec<char>, from: usize, c: char) -> (at: usize)
    requires
        from <= cs@.len(),
    ensures
        from <= at <= cs@.len(),
        at - from == upto(cs@.skip(from as int), c),
{
    let mut at: usize = from;
    while at < cs.len() && cs[at] != c
        invariant
            from <= at <= cs@.len(),
            upto(cs@.skip(from as int), c) == at - from + upto(cs@.skip(at as int), c),
        decreases cs@.len() - at,
    {
        assert(cs@.skip(at as int).drop_first() == cs@.skip(at + 1));
        at += 1;
    }
    at
}

/// Whether `needle` stands in `s` at position `i`.
pub open spec fn occurs_at(s: Text, needle: Text, i: int) -> bool {
    &&& 0 <= i <= s.len() - needle.len()
    &&& s.subrange(i, i + needle.len()) == needle
}

/// Whether `needle` stands anywhere in `s`.
pub open spec fn occurs(s: Text, needle: Text) -> bool {
    exists|i: int| occurs_at(s, needle, i)
}

/// Whether the characters of `needle` stand in `cs` at position `at`.
fn stands_at(cs: &Vec<char>, needle: &Vec<char>, at: usize) -> (r: bool)
    requires
        at <= cs@.len(),
    ensures
        r == occurs_at(cs@, needle@, at as int),
{
    if needle.len() > cs.len() - at {
        return false;
    }
    let mut k: usize = 0;
    while k < needle.len()
        invariant
            k <= needle@.len(),
            at + needle@.len() <= cs.len(),
            forall|j: int| 0 <= j < k ==> cs@[at + j] == needle@[j],
        decreases needle@.len() - k,
    {
        if cs[at + k] != needle[k] {
            assert(cs@.subrange(at as int, at + needle@.len())[k as int] != needle@[k as int]);
            return false;
        }
        k += 1;
    }
    assert(cs@.subrange(at as int, at + needle@.len()) == needle@);
    true
}

/// The first position at which `needle` stands in `s`, if any.
pub open spec fn first_at(s: Text, needle: Text) -> Option<nat>
    decreases s.len(),
{
    if occurs_at(s, needle, 0) {
        Some(0)
    } else if s.len() == 0 {
        None
    } else {
        match first_at(s.drop_first(), needle) {
            Some(i) => Some(i + 1),
            None => None,
        }
    }
}

/// The first position of a needle is one where it stands, and before it there
/// is no other; without one the needle stands nowhere.
pub proof fn lemma_first_at(s: Text, needle: Text)
    ensures
        match first_at(s, needle) {
            Some(i) => occurs_at(s, needle, i as int) && forall|j: int|
                0 <= j < i ==> !occurs_at(s, needle, j),
            None => !occurs(s, needle),
        },
    decreases s.len(),
{
    if !occurs_at(s, needle, 0) && s.len() > 0 {
        let rest = s.drop_first();
        lemma_first_at(rest, needle);
        assert forall|j: int| 0 < j && occurs_at(s, needle, j) implies occurs_at(
            rest,
            needle,
            j - 1,
        ) by {
            assert(s.subrange(j, j + needle.len()) == rest.subrange(j - 1, j - 1 + needle.len()));
        }
        if let Some(i) = first_at(rest, needle) {
            let k = i as int;
            assert(s.subrange(k + 1, k + 1 + needle.len()) == rest.subrange(k, k + needle.len()));
        }
    }
}

/// The first position from `from` on at which `needle` stands, if any.
pub fn find_from(cs: &Vec<char>, needle: &Vec<char>, from: usize) -> (at: Option<usize>)
    requires
        from <= cs@.len(),
    ensures
        match at {
            Some(i) => from <= i <= cs@.len() && first_at(cs@.skip(from as int), needle@) == Some(
                (i - from) as nat,
            ),
            None => first_at(cs@.skip(from as int), needle@) is None,
        },
{
    let mut i: usize = from;
    loop
        invariant
            from <= i <= cs@.len(),
            match first_at(cs@.skip(i as int), needle@) {
                Some(k) => first_at(cs@.skip(from as int), needle@) == Some((i - from + k) as nat),
                None => first_at(cs@.skip(from as int), needle@) is None,
            },
        decreases cs@.len() - i,
    {
        let ghost rest = cs@.skip(i as int);
        proof {
            if occurs_at(cs@, needle@, i as int) || occurs_at(rest, needle@, 0) {
                assert(cs@.subrange(i as int, i + needle@.len()) == rest.subrange(
                    0,
                    needle@.len() as int,
                ));
            }
        }
        if stands_at(cs, needle, i) {
            return Some(i);
        }
        if i == cs.len() {
            return None;
        }
        assert(rest.drop_first() == cs@.skip(i + 1));
        i += 1;
    }
}

/// Whether `needle` stands anywhere in `s`.
pub fn contains(s: &str, needle: &str) -> (r: bool)
    ensures
        r == occurs(s@, needle@),
{
    let cs = chars_of(s);
    let ns = chars_of(needle);
    proof {
        lemma_first_at(s@, needle@);
        assert(cs@.skip(0) == s@);
    }
    find_from(&cs, &ns, 0).is_some()
}

/// Whether `s` begins with `prefix`.
pub open spec fn begins(s: Text, prefix: Text) -> bool {
    occurs_at(s, prefix, 0)
}

/// Whether `s` begins with `prefix`.
pub fn starts_with(s: &str, prefix: &str) -> (r: bool)
    ensures
        r == begins(s@, prefix@),
{
    let cs = chars_of(s);
    let ps = chars_of(prefix);
    stands_at(&cs, &ps, 0)
}

/// Whether `s` ends with `suffix`.
pub open spec fn ends(s: Text, suffix: Text) -> bool {
    occurs_at(s, suffix, s.len() - suffix.len())
}

/// Whether `s` ends with `suffix`.
pub fn ends_with(s: &str, suffix: &str) -> (r: bool)
    ensures
        r == ends(s@, suffix@),
{
    let cs = chars_of(s);
    let ss = chars_of(suffix);
    if ss.len() > cs.len() {
        return false;
    }
    stands_at(&cs, &ss, cs.len() - ss.len())
}

/// What follows the last `c` of a text; the whole text if there is none.
pub open spec fn after_last(s: Text, c: char) -> Text
    decreases s.len(),
{
    if s.len() == 0 || s.last() == c {
        Seq::empty()
    } else {
        after_last(s.drop_last(), c).push(s.last())
    }
}

/// What follows the last `c` of a string.
pub fn tail_after(s: &str, c: char) -> (out: String)
    ensures
        out@ == after_last(s@, c),
{
    let cs = chars_of(s);
    let mut at: usize = cs.len();
    assert(cs@.take(at as int) == cs@);
    assert(after_last(cs@, c) + cs@.skip(at as int) == after_last(cs@, c));
    while at > 0 && cs[at - 1] != c
        invariant
            cs@ == s@,
            at <= cs@.len(),
            after_last(cs@.take(at as int), c) + cs@.skip(at as int) == after_last(s@, c),
        decreases at,
    {
        proof {
            let t = cs@.take(at as int);
            assert(t.drop_last() == cs@.take(at - 1));
            assert(after_last(t.drop_last(), c).push(t.last()) + cs@.skip(at as int)
                == after_last(t.drop_last(), c) + cs@.skip(at - 1));
        }
        at -= 1;
    }
    assert(after_last(cs@.take(at as int), c) == Seq::<char>::empty());
    assert(Seq::<char>::empty() + cs@.skip(at as int) == cs@.skip(at as int));
    assert(cs@.skip(at as int) == s@.subrange(at as int, s@.len() as int));
    s.substring_char(at, cs.len()).to_owned()
}

// ---------------------------------------------------------------------------
// Splitting and joining
// ---------------------------------------------------------------------------

/// The pieces of a text between the characters `c`.
pub open spec fn split(s: Text, c: char) -> Seq<Text>
    decreases s.len(),
{
    proof {
        lemma_upto(s, c);
    }
    let n = upto(s, c) as int;
    if n >= s.len() {
        seq![s]
    } else {
        seq![s.take(n)] + split(s.skip(n + 1), c)
    }
}

/// The pieces of a string between the characters `c`.
pub fn split_on(s: &str, c: char) -> (out: Vec<String>)
    ensures
        out.deep_view() == split(s@, c),
{
    let cs = chars_of(s);
    let mut out: Vec<String> = Vec::new();
    let mut at: usize = 0;
    assert(cs@.skip(0) == cs@);
    assert(out.deep_view() + split(s@, c) == split(s@, c));
    loop
        invariant
            cs@ == s@,
            at <= cs@.len(),
            out.deep_view() + split(cs@.skip(at as int), c) == split(s@, c),
        decreases cs@.len() - at,
    {
        let ghost rest = cs@.skip(at as int);
        let ghost before = out.deep_view();
        let end: usize = seek(&cs, at, c);
        assert(rest.take(end - at) == s@.subrange(at as int, end as int));
        let piece = s.substring_char(at, end).to_owned();
        emit(&mut out, piece);
        if end == cs.len() {
            assert(rest.take(end - at) == rest);
            assert(before + seq![piece@] == before.push(piece@));
            return out;
        }
        proof {
            assert(rest.skip(end - at + 1) == cs@.skip(end + 1));
            assert(before + (seq![piece@] + split(cs@.skip(end + 1), c)) == before.push(piece@)
                + split(cs@.skip(end + 1), c));
        }
        at = end + 1;
    }
}

/// A line without the carriage return of its ending.
pub open spec fn without_return(s: Text) -> Text {
    if s.len() > 0 && s.last() == '\r' {
        s.drop_last()
    } else {
        s
    }
}

/// The lines of a text. A line ends at a line feed, with or without a carriage
/// return before it; the ending of the last line may be missing.
pub open spec fn text_lines(s: Text) -> Seq<Text>
    decreases s.len(),
{
    proof {
        lemma_upto(s, '\n');
    }
    let n = upto(s, '\n') as int;
    if s.len() == 0 {
        Seq::empty()
    } else if n >= s.len() {
        seq![s]
    } else {
        seq![without_return(s.take(n))] + text_lines(s.skip(n + 1))
    }
}

/// The lines of a string.
pub fn lines_of(s: &str) -> (out: Vec<String>)
    ensures
        out.deep_view() == text_lines(s@),
{
    let cs = chars_of(s);
    let mut out: Vec<String> = Vec::new();
    let mut at: usize = 0;
    assert(cs@.skip(0) == cs@);
    assert(out.deep_view() + text_lines(s@) == text_lines(s@));
    while at < cs.len()
        invariant
            cs@ == s@,
            at <= cs@.len(),
            out.deep_view() + text_lines(cs@.skip(at as int)) == text_lines(s@),
        decreases cs@.len() - at,
    {
        let ghost rest = cs@.skip(at as int);
        let ghost before = out.deep_view();
        let end: usize = seek(&cs, at, '\n');
        assert(rest.take(end - at) == s@.subrange(at as int, end as int));
        if end == cs.len() {
            assert(rest.take(end - at) == rest);
            let line = s.substring_char(at, end).to_owned();
            emit(&mut out, line);
            assert(before + seq![line@] == before.push(line@));
            return out;
        }
        let stop: usize = if end > at && cs[end - 1] == '\r' {
            assert(rest.take(end - at).drop_last() == s@.subrange(at as int, end - 1));
            end - 1
        } else {
            end
        };
        let line = s.substring_char(at, stop).to_owned();
        assert(line@ == without_return(rest.take(end - at)));
        emit(&mut out, line);
        proof {
            assert(rest.skip(end - at + 1) == cs@.skip(end + 1));
            assert(before + (seq![line@] + text_lines(cs@.skip(end + 1))) == before.push(line@)
                + text_lines(cs@.skip(end + 1)));
        }
        at = end + 1;
    }
    assert(out.deep_view() + Seq::<Text>::empty() == out.deep_view());
    out
}

/// Texts strung together with a separator between each two.
pub open spec fn joined(parts: Seq<Text>, sep: Text) -> Text
    decreases parts.len(),
{
    if parts.len() == 0 {
        Seq::empty()
    } else if parts.len() == 1 {
        parts.first()
    } else {
        joined(parts.drop_last(), sep) + sep + parts.last()
    }
}

/// Strings strung together with a separator between each two.
pub fn join(parts: &[String], sep: &str) -> (out: String)
    ensures
        out@ == joined(parts.deep_view(), sep@),
{
    if parts.len() == 0 {
        return String::new();
    }
    let mut out = parts[0].clone();
    let mut i: usize = 1;
    let ghost all = parts.deep_view();
    assert(all.take(1).first() == parts@[0]@);
    while i < parts.len()
        invariant
            all == parts.deep_view(),
            1 <= i <= parts.len(),
            out@ == joined(all.take(i as int), sep@),
        decreases parts.len() - i,
    {
        proof {
            let next = all.take(i + 1);
            assert(next.drop_last() == all.take(i as int));
            assert(next.last() == parts@[i as int]@);
        }
        out = out.concat(sep).concat(parts[i].as_str());
        i += 1;
    }
    assert(all.take(i as int) == all);
    out
}

/// A text of `n` times the character `c`.
pub open spec fn fill(c: char, n: int) -> Text {
    Seq::new(
        if n > 0 {
            n as nat
        } else {
            0
        },
        |i: int| c,
    )
}

/// A string of `n` times the character `c`.
pub fn filled(c: char, n: usize) -> (out: String)
    ensures
        out@ == fill(c, n as int),
{
    let mut out = String::new();
    let mut i: usize = 0;
    while i < n
        invariant
            i <= n,
            out@ == fill(c, i as int),
        decreases n - i,
    {
        out.push(c);
        i += 1;
    }
    out
}

/// A text with every `from` turned into `to`.
pub open spec fn replaced(s: Text, from: char, to: char) -> Text {
    Seq::new(
        s.len(),
        |i: int|
            if s[i] == from {
                to
            } else {
                s[i]
            },
    )
}

/// A copy of a string with every `from` turned into `to`.
pub fn replace(s: &str, from: char, to: char) -> (out: String)
    ensures
        out@ == replaced(s@, from, to),
{
    let cs = chars_of(s);
    let mut out = String::new();
    let mut i: usize = 0;
    while i < cs.len()
        invariant
            cs@ == s@,
            i <= cs@.len(),
            out@ == replaced(s@, from, to).take(i as int),
        decreases cs@.len() - i,
    {
        if cs[i] == from {
            out.push(to);
        } else {
            out.push(cs[i]);
        }
        i += 1;
    }
    assert(replaced(s@, from, to).take(i as int) == replaced(s@, from, to));
    out
}

// ---------------------------------------------------------------------------
// Numbers
// ---------------------------------------------------------------------------

/// The character of a decimal digit.
pub open spec fn digit(d: nat) -> char {
    ('0' as u32 + d) as char
}

/// A number in decimal, without leading zeros.
pub open spec fn decimal(n: nat) -> Text
    decreases n,
{
    if n < 10 {
        seq![digit(n)]
    } else {
        decimal(n / 10).push(digit(n % 10))
    }
}

/// The character of a decimal digit.
fn digit_char(d: u64) -> (c: char)
    requires
        d < 10,
    ensures
        c == digit(d as nat),
{
    (48u8 + d as u8) as char
}

/// A number in decimal.
pub fn number(n: u64) -> (out: String)
    ensures
        out@ == decimal(n as nat),
    decreases n,
{
    if n < 10 {
        let mut out = String::new();
        out.push(digit_char(n));
        assert(out@ == seq![digit(n as nat)]);
        out
    } else {
        let mut out = number(n / 10);
        out.push(digit_char(n % 10));
        out
    }
}

/// Whether a character is one of `0` to `9`.
pub open spec fn is_digit(c: char) -> bool {
    '0' <= c <= '9'
}

/// The number that a run of decimal digits stands for.
pub open spec fn value(digits: Text) -> nat
    decreases digits.len(),
{
    if digits.len() == 0 {
        0
    } else {
        value(digits.drop_last()) * 10 + (digits.last() as u32 - '0' as u32) as nat
    }
}

/// The digits of a written number: what follows an optional plus sign.
pub open spec fn unsigned(s: Text) -> Text {
    if s.len() > 0 && s[0] == '+' {
        s.drop_first()
    } else {
        s
    }
}

/// Whether a text is a number of 64 bits: an optional plus sign, at least one
/// digit and nothing else, and not too large.
pub open spec fn is_u64(s: Text) -> bool {
    &&& unsigned(s).len() > 0
    &&& forall|i: int| 0 <= i < unsigned(s).len() ==> is_digit(#[trigger] unsigned(s)[i])
    &&& value(unsigned(s)) <= u64::MAX
}

/// A prefix of digits never stands for more than the whole.
proof fn lemma_value_prefix(digits: Text, n: int)
    requires
        0 <= n <= digits.len(),
        forall|i: int| 0 <= i < digits.len() ==> is_digit(#[trigger] digits[i]),
    ensures
        value(digits.take(n)) <= value(digits),
    decreases digits.len(),
{
    if n == digits.len() {
        assert(digits.take(n) == digits);
    } else {
        let shorter = digits.drop_last();
        lemma_value_prefix(shorter, n);
        assert(shorter.take(n) == digits.take(n));
    }
}

/// The number a string stands for, if it is one of 64 bits.
pub fn parse_u64(s: &str) -> (r: Option<u64>)
    ensures
        match r {
            Some(n) => is_u64(s@) && n == value(unsigned(s@)),
            None => !is_u64(s@),
        },
{
    let cs = chars_of(s);
    let start: usize = if cs.len() > 0 && cs[0] == '+' {
        1
    } else {
        0
    };
    let ghost digits = unsigned(s@);
    assert(digits == cs@.skip(start as int));
    if start == cs.len() {
        return None;
    }
    let mut n: u64 = 0;
    let mut i: usize = start;
    while i < cs.len()
        invariant
            start <= i <= cs@.len(),
            digits == cs@.skip(start as int),
            digits == unsigned(s@),
            digits.len() > 0,
            forall|j: int| 0 <= j < i - start ==> is_digit(#[trigger] digits[j]),
            n == value(digits.take(i - start)),
        decreases cs@.len() - i,
    {
        let c = cs[i];
        assert(digits[i - start] == c);
        if !('0' <= c && c <= '9') {
            return None;
        }
        let d: u64 = (c as u32 - 48) as u64;
        proof {
            assert(digits.take(i - start + 1).drop_last() == digits.take(i - start));
            if is_u64(s@) {
                lemma_value_prefix(digits, i - start + 1);
            }
        }
        if n > (u64::MAX - d) / 10 {
            return None;
        }
        n = n * 10 + d;
        i += 1;
    }
    assert(digits.take(i - start) == digits);
    Some(n)
}

// ---------------------------------------------------------------------------
// Order
// ---------------------------------------------------------------------------

/// Whether `a` comes before `b` in the order of their characters' code points.
pub open spec fn precedes(a: Text, b: Text) -> bool
    decreases a.len(),
{
    if b.len() == 0 {
        false
    } else if a.len() == 0 {
        true
    } else if a[0] == b[0] {
        precedes(a.drop_first(), b.drop_first())
    } else {
        a[0] < b[0]
    }
}

/// Of two different texts exactly one precedes the other.
pub proof fn lemma_precedes_total(a: Text, b: Text)
    ensures
        a != b ==> precedes(a, b) || precedes(b, a),
        !(precedes(a, b) && precedes(b, a)),
        !precedes(a, a),
    decreases a.len(),
{
    if a.len() > 0 {
        lemma_precedes_total(a.drop_first(), a.drop_first());
    }
    if a.len() > 0 && b.len() > 0 {
        lemma_precedes_total(a.drop_first(), b.drop_first());
        if a[0] == b[0] && a.drop_first() == b.drop_first() {
            assert(a == seq![a[0]] + a.drop_first());
            assert(b == seq![b[0]] + b.drop_first());
        }
    } else if a.len() == 0 && b.len() == 0 {
        assert(a == b);
    }
}

/// The order of texts is transitive.
pub proof fn lemma_precedes_transitive(a: Text, b: Text, c: Text)
    requires
        precedes(a, b),
        precedes(b, c),
    ensures
        precedes(a, c),
    decreases a.len(),
{
    if a.len() > 0 && a[0] == b[0] && b[0] == c[0] {
        lemma_precedes_transitive(a.drop_first(), b.drop_first(), c.drop_first());
    }
}

/// Whether `a` comes before `b` in the order of their characters' code points.
pub fn comes_before(a: &str, b: &str) -> (r: bool)
    ensures
        r == precedes(a@, b@),
{
    let xs = chars_of(a);
    let ys = chars_of(b);
    let mut i: usize = 0;
    assert(xs@.skip(0) == xs@ && ys@.skip(0) == ys@);
    while i < xs.len() && i < ys.len() && xs[i] == ys[i]
        invariant
            i <= xs@.len(),
            i <= ys@.len(),
            precedes(xs@.skip(i as int), ys@.skip(i as int)) == precedes(a@, b@),
        decreases xs@.len() - i,
    {
        assert(xs@.skip(i as int).drop_first() == xs@.skip(i + 1));
        assert(ys@.skip(i as int).drop_first() == ys@.skip(i + 1));
        i += 1;
    }
    if i == ys.len() {
        false
    } else if i == xs.len() {
        true
    } else {
        xs[i] < ys[i]
    }
}

/// Whether each text of a list precedes all that follow it.
pub open spec fn ascending(list: Seq<Text>) -> bool {
    forall|i: int, j: int| 0 <= i < j < list.len() ==> precedes(#[trigger] list[i], #[trigger] list[j])
}

/// A list in order with `x` put in its place, unless it is there already.
pub open spec fn placed(list: Seq<Text>, x: Text) -> Seq<Text>
    decreases list.len(),
{
    if list.len() == 0 {
        seq![x]
    } else if list.last() == x {
        list
    } else if precedes(list.last(), x) {
        list.push(x)
    } else {
        placed(list.drop_last(), x).push(list.last())
    }
}

/// The different texts of a list, in order.
pub open spec fn sorted_set(list: Seq<Text>) -> Seq<Text>
    decreases list.len(),
{
    if list.len() == 0 {
        Seq::empty()
    } else {
        placed(sorted_set(list.drop_last()), list.last())
    }
}

/// Putting a text into an ascending list keeps it ascending and adds that text
/// alone.
pub proof fn lemma_placed(list: Seq<Text>, x: Text)
    requires
        ascending(list),
    ensures
        ascending(placed(list, x)),
        forall|t: Text| #[trigger] placed(list, x).contains(t) <==> list.contains(t) || t == x,
    decreases list.len(),
{
    let out = placed(list, x);
    if list.len() == 0 {
        assert(out[0] == x);
        assert forall|t: Text| #[trigger] out.contains(t) <==> list.contains(t) || t == x by {
            if t == x {
                assert(out[0] == t);
            }
        }
    } else if list.last() == x {
        assert(list[list.len() - 1] == x);
    } else if precedes(list.last(), x) {
        assert forall|i: int, j: int| 0 <= i < j < out.len() implies precedes(
            #[trigger] out[i],
            #[trigger] out[j],
        ) by {
            if j == list.len() && i < list.len() - 1 {
                lemma_precedes_transitive(list[i], list.last(), x);
            }
        }
        assert forall|t: Text| #[trigger] out.contains(t) <==> list.contains(t) || t == x by {
            if t == x {
                assert(out[list.len() as int] == t);
            }
            if list.contains(t) {
                let k = choose|k: int| 0 <= k < list.len() && list[k] == t;
                assert(out[k] == t);
            }
        }
    } else {
        let rest = list.drop_last();
        let last = list.last();
        assert forall|i: int, j: int| 0 <= i < j < rest.len() implies precedes(
            #[trigger] rest[i],
            #[trigger] rest[j],
        ) by {
            assert(rest[i] == list[i] && rest[j] == list[j]);
        }
        lemma_placed(rest, x);
        lemma_precedes_total(last, x);
        let inner = placed(rest, x);
        assert forall|i: int| 0 <= i < inner.len() implies precedes(#[trigger] inner[i], last) by {
            assert(inner.contains(inner[i]));
            if inner[i] != x {
                assert(rest.contains(inner[i]));
                let k = choose|k: int| 0 <= k < rest.len() && rest[k] == inner[i];
                assert(precedes(list[k], list[list.len() - 1]));
            }
        }
        assert forall|t: Text| #[trigger] out.contains(t) <==> list.contains(t) || t == x by {
            if out.contains(t) {
                let k = choose|k: int| 0 <= k < out.len() && out[k] == t;
                if k < inner.len() {
                    assert(inner[k] == t);
                    assert(inner.contains(t));
                    if rest.contains(t) {
                        let m = choose|m: int| 0 <= m < rest.len() && rest[m] == t;
                        assert(list[m] == t);
                    }
                } else {
                    assert(list[list.len() - 1] == t);
                }
            }
            if list.contains(t) || t == x {
                if t == last {
                    assert(out[inner.len() as int] == t);
                } else {
                    if list.contains(t) {
                        let m = choose|m: int| 0 <= m < list.len() && list[m] == t;
                        assert(rest[m] == t);
                    }
                    assert(inner.contains(t));
                    let k = choose|k: int| 0 <= k < inner.len() && inner[k] == t;
                    assert(out[k] == t);
                }
            }
        }
    }
}

/// Sorting and removing duplicates gives an ascending list of the same texts.
pub proof fn lemma_sorted_set(list: Seq<Text>)
    ensures
        ascending(sorted_set(list)),
        forall|t: Text| #[trigger] sorted_set(list).contains(t) <==> list.contains(t),
    decreases list.len(),
{
    if list.len() > 0 {
        let rest = list.drop_last();
        lemma_sorted_set(rest);
        lemma_placed(sorted_set(rest), list.last());
        assert forall|t: Text| #[trigger] sorted_set(list).contains(t) <==> list.contains(t) by {
            if list.contains(t) {
                let k = choose|k: int| 0 <= k < list.len() && list[k] == t;
                if k < rest.len() {
                    assert(rest[k] == t);
                }
            }
            if rest.contains(t) {
                let k = choose|k: int| 0 <= k < rest.len() && rest[k] == t;
                assert(list[k] == t);
            }
            assert(list[list.len() - 1] == list.last());
        }
    }
}

/// Puts a string in its place in an ordered list, unless it is there already.
fn place(list: &mut Vec<String>, x: String)
    ensures
        final(list).deep_view() == placed(old(list).deep_view(), x@),
{
    let ghost all = list.deep_view();
    let mut i: usize = list.len();
    assert(all.take(i as int) == all);
    assert(placed(all, x@) + all.skip(i as int) == placed(all, x@));
    loop
        invariant
            all == list.deep_view(),
            all == old(list).deep_view(),
            i <= list.len(),
            placed(all.take(i as int), x@) + all.skip(i as int) == placed(all, x@),
        ensures
            placed(all.take(i as int), x@) == all.take(i as int).push(x@),
        decreases i,
    {
        let ghost front = all.take(i as int);
        if i == 0 {
            assert(front.push(x@) == seq![x@]);
            break;
        }
        assert(front.last() == list@[i - 1]@);
        if same(list[i - 1].as_str(), x.as_str()) {
            assert(front + all.skip(i as int) == all);
            return ;
        }
        if comes_before(list[i - 1].as_str(), x.as_str()) {
            break;
        }
        proof {
            assert(front.drop_last() == all.take(i - 1));
            assert(placed(front.drop_last(), x@).push(front.last()) + all.skip(i as int) == placed(
                front.drop_last(),
                x@,
            ) + all.skip(i - 1));
        }
        i -= 1;
    }
    list.insert(i, x);
    assert(list.deep_view() == all.take(i as int).push(x@) + all.skip(i as int));
}

/// The different strings of a list, in order.
pub fn sort_unique(list: &[String]) -> (out: Vec<String>)
    ensures
        out.deep_view() == sorted_set(list.deep_view()),
{
    let ghost all = list.deep_view();
    let mut out: Vec<String> = Vec::new();
    let mut i: usize = 0;
    assert(out.deep_view() == sorted_set(all.take(0)));
    while i < list.len()
        invariant
            all == list.deep_view(),
            i <= list.len(),
            out.deep_view() == sorted_set(all.take(i as int)),
        decreases list.len() - i,
    {
        assert(all.take(i + 1).drop_last() == all.take(i as int));
        assert(all.take(i + 1).last() == list@[i as int]@);
        place(&mut out, list[i].clone());
        i += 1;
    }
    assert(all.take(i as int) == all);
    out
}

/// Whether a text is a single word: it is not empty and has no white space.
pub open spec fn is_word(s: Text) -> bool {
    s.len() > 0 && forall|i: int| 0 <= i < s.len() ==> !is_space(#[trigger] s[i])
}

proof fn lemma_word_len_of_word(w: Text, rest: Text)
    requires
        forall|i: int| 0 <= i < w.len() ==> !is_space(#[trigger] w[i]),
        rest.len() == 0 || is_space(rest[0]),
    ensures
        word_len(w + rest) == w.len(),
    decreases w.len(),
{
    let s = w + rest;
    if w.len() > 0 {
        assert(s[0] == w[0]);
        let tail = w.drop_first();
        assert forall|i: int| 0 <= i < tail.len() implies !is_space(#[trigger] tail[i]) by {
            assert(tail[i] == w[i + 1]);
        }
        assert(s.drop_first() == tail + rest);
        lemma_word_len_of_word(tail, rest);
    } else {
        assert(s == rest);
    }
}

proof fn lemma_words_of_word(w: Text)
    requires
        is_word(w),
    ensures
        words(w) == seq![w],
{
    assert(trim_start(w) == w);
    assert(w + Seq::<char>::empty() == w);
    lemma_word_len_of_word(w, Seq::empty());
    assert(w.take(w.len() as int) == w);
    assert(w.skip(w.len() as int) == Seq::<char>::empty());
    assert(trim_start(Seq::<char>::empty()).len() == 0);
    assert(words(Seq::<char>::empty()) == Seq::<Text>::empty());
    assert(words(w) =~= seq![w]);
}

proof fn lemma_trim_start_grows(s: Text, more: Text)
    ensures
        trim_start(s).len() > 0 ==> trim_start(s + more) == trim_start(s) + more,
        trim_start(s).len() == 0 ==> trim_start(s + more) == trim_start(more),
    decreases s.len(),
{
    if s.len() == 0 {
        assert(s + more == more);
    } else if is_space(s[0]) {
        assert((s + more).drop_first() == s.drop_first() + more);
        lemma_trim_start_grows(s.drop_first(), more);
    }
}

/// A word after white space is one more word.
pub proof fn lemma_one_more_word(s: Text, w: Text)
    requires
        is_word(w),
    ensures
        words(s + " "@ + w) == words(s).push(w),
    decreases s.len(),
{
    reveal_strlit(" ");
    let more = " "@ + w;
    let long = s + " "@ + w;
    assert(long == s + more);
    lemma_trim_start_grows(s, more);
    lemma_trim_start(s);
    assert(more.drop_first() == w);
    assert(trim_start(w) == w);
    let t = trim_start(s);
    if t.len() == 0 {
        assert(trim_start(long) == w);
        lemma_words_of_word(w);
        assert(words(long) == words(w));
        assert(words(s) == Seq::<Text>::empty());
        assert(words(s).push(w) =~= seq![w]);
    } else {
        let n = word_len(t) as int;
        lemma_word_len(t);
        let head = t.take(n);
        let rest = t.skip(n);
        assert(t == head + rest);
        assert(t + more == head + (rest + more));
        assert(rest.len() > 0 ==> rest[0] == t[n]);
        assert((rest + more)[0] == if rest.len() > 0 {
            rest[0]
        } else {
            ' '
        });
        assert forall|i: int| 0 <= i < head.len() implies !is_space(#[trigger] head[i]) by {
            assert(head[i] == t[i]);
        }
        lemma_word_len_of_word(head, rest + more);
        assert((t + more).take(n) == head);
        assert((t + more).skip(n) == rest + more);
        assert(rest + more == rest + " "@ + w);
        lemma_one_more_word(rest, w);
        assert(words(long) == seq![head] + words(rest).push(w));
        assert(seq![head] + words(rest).push(w) =~= (seq![head] + words(rest)).push(w));
    }
}

/// The words of words strung together are those words.
pub proof fn lemma_words_of_joined(parts: Seq<Text>)
    requires
        forall|i: int| 0 <= i < parts.len() ==> is_word(#[trigger] parts[i]),
    ensures
        words(joined(parts, " "@)) == parts,
    decreases parts.len(),
{
    if parts.len() == 0 {
        assert(trim_start(Seq::<char>::empty()).len() == 0);
        assert(words(joined(parts, " "@)) =~= parts);
    } else if parts.len() == 1 {
        lemma_words_of_word(parts.first());
        assert(seq![parts.first()] =~= parts);
    } else {
        let front = parts.drop_last();
        assert forall|i: int| 0 <= i < front.len() implies is_word(#[trigger] front[i]) by {
            assert(front[i] == parts[i]);
        }
        lemma_words_of_joined(front);
        assert(is_word(parts[parts.len() - 1]));
        lemma_one_more_word(joined(front, " "@), parts.last());
        assert(front.push(parts.last()) =~= parts);
    }
}

/// Every word of a text is a single word.
pub proof fn lemma_words_are_words(s: Text)
    ensures
        forall|i: int| 0 <= i < words(s).len() ==> is_word(#[trigger] words(s)[i]),
    decreases s.len(),
{
    lemma_trim_start(s);
    let t = trim_start(s);
    lemma_word_len(t);
    if t.len() > 0 {
        let n = word_len(t) as int;
        let rest = t.skip(n);
        lemma_words_are_words(rest);
        assert forall|i: int| 0 <= i < words(s).len() implies is_word(#[trigger] words(s)[i]) by {
            if i == 0 {
                assert(words(s)[0] == t.take(n));
            } else {
                assert(words(s)[i] == words(rest)[i - 1]);
            }
        }
    }
}

/// Sorting a list that is in order changes nothing.
pub proof fn lemma_sorting_the_sorted(list: Seq<Text>)
    requires
        ascending(list),
    ensures
        sorted_set(list) == list,
    decreases list.len(),
{
    if list.len() == 0 {
        assert(sorted_set(list) =~= list);
    } else {
        let front = list.drop_last();
        assert(ascending(front)) by {
            assert forall|i: int, j: int| 0 <= i < j < front.len() implies precedes(
                #[trigger] front[i],
                #[trigger] front[j],
            ) by {
                assert(front[i] == list[i] && front[j] == list[j]);
            }
        }
        lemma_sorting_the_sorted(front);
        if front.len() > 0 {
            assert(precedes(list[list.len() - 2], list[list.len() - 1]));
            lemma_precedes_total(front.last(), list.last());
        }
        assert(front.push(list.last()) =~= list);
        assert(sorted_set(list) =~= list);
    }
}

/// Trimming takes off all white space at both ends and nothing else.
pub proof fn lemma_trim(s: Text) -> (cut: (int, int))
    ensures
        0 <= cut.0 <= cut.1 <= s.len(),
        trim(s) == s.subrange(cut.0, cut.1),
        forall|i: int| 0 <= i < cut.0 || cut.1 <= i < s.len() ==> is_space(#[trigger] s[i]),
        trim(s).len() > 0 ==> !is_space(trim(s)[0]) && !is_space(trim(s).last()),
{
    let t = trim_start(s);
    lemma_trim_start(s);
    lemma_trim_start_drops_space(s);
    lemma_trim_end(t);
    let from = s.len() - t.len();
    let to = from + trim_end(t).len();
    assert(trim(s) =~= s.subrange(from, to));
    assert forall|i: int| 0 <= i < from || to <= i < s.len() implies is_space(#[trigger] s[i]) by {
        if i >= to {
            assert(t[i - from] == s[i]);
        }
    }
    if trim(s).len() > 0 {
        assert(trim(s)[0] == t[0]);
    }
    (from, to)
}

proof fn lemma_trim_start_drops_space(s: Text)
    ensures
        forall|i: int| 0 <= i < s.len() - trim_start(s).len() ==> is_space(#[trigger] s[i]),
    decreases s.len(),
{
    if s.len() > 0 && is_space(s[0]) {
        let rest = s.drop_first();
        lemma_trim_start_drops_space(rest);
        assert forall|i: int| 0 <= i < s.len() - trim_start(s).len() implies is_space(
            #[trigger] s[i],
        ) by {
            if i > 0 {
                assert(rest[i - 1] == s[i]);
            }
        }
    }
}

proof fn lemma_trim_end(s: Text)
    ensures
        trim_end(s).len() <= s.len(),
        trim_end(s) == s.take(trim_end(s).len() as int),
        trim_end(s).len() > 0 ==> !is_space(trim_end(s).last()),
        forall|i: int| trim_end(s).len() <= i < s.len() ==> is_space(#[trigger] s[i]),
    decreases s.len(),
{
    if s.len() > 0 && is_space(s.last()) {
        let rest = s.drop_last();
        lemma_trim_end(rest);
        assert(rest.take(trim_end(s).len() as int) =~= s.take(trim_end(s).len() as int));
        assert forall|i: int| trim_end(s).len() <= i < s.len() implies is_space(
            #[trigger] s[i],
        ) by {
            if i < rest.len() {
                assert(rest[i] == s[i]);
            }
        }
    } else {
        assert(s.take(s.len() as int) =~= s);
    }
}

/// White space around a text without any at its ends is what trimming takes
/// off.
pub proof fn lemma_trim_of_bare(before: Text, s: Text, after: Text)
    requires
        forall|i: int| 0 <= i < before.len() ==> is_space(#[trigger] before[i]),
        forall|i: int| 0 <= i < after.len() ==> is_space(#[trigger] after[i]),
        s.len() > 0 ==> !is_space(s[0]) && !is_space(s.last()),
    ensures
        trim(before + s + after) == s,
{
    let whole = before + s + after;
    let cut = lemma_trim(whole);
    let t = trim(whole);
    if t.len() == 0 {
        if s.len() > 0 {
            let i = before.len() as int;
            assert(whole[i] == s[0]);
            assert(is_space(whole[i]));
        }
        assert(t =~= s);
    } else {
        assert(t[0] == whole[cut.0]);
        assert(t.last() == whole[cut.1 - 1]);
        if cut.0 < before.len() {
            assert(whole[cut.0] == before[cut.0]);
        }
        if cut.0 >= before.len() + s.len() {
            assert(whole[cut.0] == after[cut.0 - before.len() - s.len()]);
        }
        if cut.1 - 1 >= before.len() + s.len() {
            assert(whole[cut.1 - 1] == after[cut.1 - 1 - before.len() - s.len()]);
        }
        if cut.1 - 1 < before.len() {
            assert(whole[cut.1 - 1] == before[cut.1 - 1]);
        }
        if cut.0 > before.len() {
            assert(whole[before.len() as int] == s[0]);
        }
        if cut.1 < before.len() + s.len() {
            assert(whole[before.len() + s.len() - 1] == s.last());
        }
        assert(t =~= s);
    }
}

/// A text without any of its white space.
pub open spec fn without_space(s: Text) -> Text
    decreases s.len(),
{
    if s.len() == 0 {
        s
    } else if is_space(s[0]) {
        without_space(s.drop_first())
    } else {
        seq![s[0]] + without_space(s.drop_first())
    }
}

/// Texts one after the other.
pub open spec fn strung(parts: Seq<Text>) -> Text
    decreases parts.len(),
{
    if parts.len() == 0 {
        Seq::empty()
    } else {
        parts[0] + strung(parts.drop_first())
    }
}

/// The words of a text hold all of it but the white space, in order.
pub proof fn lemma_words_lose_nothing(s: Text)
    ensures
        strung(words(s)) == without_space(s),
    decreases s.len(),
{
    lemma_trim_start(s);
    lemma_without_space_of_trimmed(s);
    let t = trim_start(s);
    lemma_word_len(t);
    if t.len() == 0 {
        assert(strung(words(s)) =~= without_space(t));
    } else {
        let n = word_len(t) as int;
        let head = t.take(n);
        let rest = t.skip(n);
        lemma_words_lose_nothing(rest);
        lemma_without_space_of_word(head, rest);
        assert(t =~= head + rest);
        assert(words(s)[0] == head);
        assert(words(s).drop_first() =~= words(rest));
    }
}

proof fn lemma_without_space_of_trimmed(s: Text)
    ensures
        without_space(trim_start(s)) == without_space(s),
    decreases s.len(),
{
    if s.len() > 0 && is_space(s[0]) {
        lemma_without_space_of_trimmed(s.drop_first());
    }
}

proof fn lemma_without_space_of_word(w: Text, rest: Text)
    requires
        forall|i: int| 0 <= i < w.len() ==> !is_space(#[trigger] w[i]),
    ensures
        without_space(w + rest) == w + without_space(rest),
    decreases w.len(),
{
    if w.len() == 0 {
        assert(w + rest =~= rest);
        assert(w + without_space(rest) =~= without_space(rest));
    } else {
        let tail = w.drop_first();
        assert forall|i: int| 0 <= i < tail.len() implies !is_space(#[trigger] tail[i]) by {
            assert(tail[i] == w[i + 1]);
        }
        lemma_without_space_of_word(tail, rest);
        assert((w + rest).drop_first() =~= tail + rest);
        assert((w + rest)[0] == w[0]);
        assert(seq![w[0]] + (tail + without_space(rest)) =~= w + without_space(rest));
    }
}

/// The pieces of a text hold no separator, and strung together with one between
/// each two they are the text again.
pub proof fn lemma_split(s: Text, c: char)
    ensures
        split(s, c).len() > 0,
        forall|i: int| 0 <= i < split(s, c).len() ==> !(#[trigger] split(s, c)[i]).contains(c),
        rejoined(split(s, c), c) == s,
    decreases s.len(),
{
    lemma_upto(s, c);
    let n = upto(s, c) as int;
    if n >= s.len() {
        assert(split(s, c) =~= seq![s]);
        assert(split(s, c).drop_first() =~= Seq::<Text>::empty());
    } else {
        let rest = s.skip(n + 1);
        lemma_split(rest, c);
        let all = split(s, c);
        assert(all.drop_first() =~= split(rest, c));
        assert(all[0] == s.take(n));
        assert(s =~= s.take(n) + seq![c] + rest);
        assert forall|i: int| 0 <= i < all.len() implies !(#[trigger] all[i]).contains(c) by {
            if i > 0 {
                assert(all[i] == split(rest, c)[i - 1]);
            }
        }
    }
}

/// Texts with the character `c` between each two.
pub open spec fn rejoined(parts: Seq<Text>, c: char) -> Text
    decreases parts.len(),
{
    if parts.len() == 0 {
        Seq::empty()
    } else if parts.len() == 1 {
        parts[0]
    } else {
        parts[0] + seq![c] + rejoined(parts.drop_first(), c)
    }
}

/// A text put together of lines has those lines: each one ended by a line feed,
/// none of them holding one or ending in a carriage return.
pub proof fn lemma_lines(lines: Seq<Text>)
    requires
        forall|i: int| 0 <= i < lines.len() ==> is_line(#[trigger] lines[i]),
    ensures
        text_lines(lined(lines)) == lines,
    decreases lines.len(),
{
    if lines.len() == 0 {
        assert(text_lines(lined(lines)) =~= lines);
    } else {
        let rest = lines.drop_first();
        assert(forall|i: int| 0 <= i < rest.len() ==> #[trigger] rest[i] == lines[i + 1]);
        lemma_lines(rest);
        assert(is_line(lines[0]));
        lemma_first_line(lines[0], lined(rest));
        assert(seq![lines[0]] + rest =~= lines);
    }
}

/// Whether a text can be a line.
pub open spec fn is_line(s: Text) -> bool {
    !s.contains('\n') && (s.len() > 0 ==> s.last() != '\r')
}

/// Lines, each ended by a line feed.
pub open spec fn lined(lines: Seq<Text>) -> Text
    decreases lines.len(),
{
    if lines.len() == 0 {
        Seq::empty()
    } else {
        lines[0] + seq!['\n'] + lined(lines.drop_first())
    }
}

/// The first line of a text ends at its first line feed, and what follows that
/// has the other lines.
pub proof fn lemma_first_line(line: Text, rest: Text)
    requires
        is_line(line),
    ensures
        text_lines(line + seq!['\n'] + rest) == seq![line] + text_lines(rest),
        text_lines(line + seq!['\r', '\n'] + rest) == seq![line] + text_lines(rest),
{
    let s = line + seq!['\n'] + rest;
    lemma_upto(s, '\n');
    let n = upto(s, '\n') as int;
    if n < line.len() {
        assert(line[n] == '\n');
    }
    if n > line.len() {
        assert(s[line.len() as int] == '\n');
    }
    assert(s.take(n) =~= line);
    assert(s.skip(n + 1) =~= rest);

    let t = line + seq!['\r', '\n'] + rest;
    lemma_upto(t, '\n');
    let m = upto(t, '\n') as int;
    if m < line.len() {
        assert(line[m] == '\n');
    }
    if m == line.len() {
        assert(t[m] == '\r');
    }
    if m > line.len() + 1 {
        assert(t[line.len() as int + 1] == '\n');
    }
    assert(t.take(m) =~= line.push('\r'));
    assert(line.push('\r').drop_last() =~= line);
    assert(t.skip(m + 1) =~= rest);
}

/// A number in decimal is made of digits, does not begin with a zero unless it
/// is zero, and stands for that number.
pub proof fn lemma_decimal(n: nat)
    ensures
        decimal(n).len() > 0,
        forall|i: int| 0 <= i < decimal(n).len() ==> '0' <= #[trigger] decimal(n)[i] <= '9',
        n > 0 ==> decimal(n)[0] != '0',
        n == 0 ==> decimal(n) == seq!['0'],
        value(decimal(n)) == n,
    decreases n,
{
    if n < 10 {
        assert(decimal(n).drop_last() =~= Seq::<char>::empty());
        assert(value(decimal(n).drop_last()) == 0);
        assert(decimal(n).last() as u32 == 48 + n);
        if n == 0 {
            assert(digit(0) == '0');
            assert(decimal(n) =~= seq!['0']);
        }
    } else {
        lemma_decimal(n / 10);
        assert(decimal(n).drop_last() =~= decimal(n / 10));
        assert(decimal(n).last() as u32 == 48 + n % 10);
        assert(decimal(n)[0] == decimal(n / 10)[0]);
    }
}

/// What digits stand for grows tenfold with each that follows.
pub proof fn lemma_value(digits: Text, c: char)
    requires
        '0' <= c <= '9',
    ensures
        value(Seq::<char>::empty()) == 0,
        value(digits.push(c)) == 10 * value(digits) + (c as u32 - 48),
{
    assert(digits.push(c).drop_last() =~= digits);
}

/// What follows the last `c` ends the text, holds no `c`, and comes after one
/// unless it is the whole text.
pub proof fn lemma_after_last(s: Text, c: char)
    ensures
        ends(s, after_last(s, c)),
        !after_last(s, c).contains(c),
        after_last(s, c) != s ==> s.len() > after_last(s, c).len() && s[s.len() - after_last(
            s,
            c,
        ).len() - 1] == c,
    decreases s.len(),
{
    let t = after_last(s, c);
    if s.len() == 0 || s.last() == c {
        assert(s.subrange(s.len() as int, s.len() as int) =~= Seq::<char>::empty());
        if s.len() == 0 {
            assert(t =~= s);
        }
    } else {
        let rest = s.drop_last();
        let r = after_last(rest, c);
        lemma_after_last(rest, c);
        assert(rest.subrange(rest.len() - r.len(), rest.len() as int) == r);
        assert(s.subrange(s.len() - t.len(), s.len() as int) =~= r.push(s.last()));
        assert forall|i: int| 0 <= i < t.len() implies t[i] != c by {
            if i < r.len() {
                assert(t[i] == r[i]);
                assert(r.contains(r[i]));
            }
        }
        if r == rest {
            assert(t =~= s);
        }
    }
}

/// Replacing keeps every other character where it is.
pub proof fn lemma_replaced(s: Text, from: char, to: char)
    ensures
        replaced(s, from, to).len() == s.len(),
        forall|i: int|
            0 <= i < s.len() ==> #[trigger] replaced(s, from, to)[i] == (if s[i] == from {
                to
            } else {
                s[i]
            }),
{
}

/// One text comes before another when it is a shorter beginning of it, or has
/// the smaller character where the two first differ; and only then.
pub proof fn lemma_precedes_at(a: Text, b: Text)
    ensures
        precedes(a, b) <==> exists|k: int| #[trigger] differ_first(a, b, k),
    decreases a.len(),
{
    if a.len() == 0 || b.len() == 0 {
        if b.len() > 0 {
            assert(differ_first(a, b, 0));
        }
    } else if a[0] == b[0] {
        let x = a.drop_first();
        let y = b.drop_first();
        lemma_precedes_at(x, y);
        if exists|k: int| #[trigger] differ_first(x, y, k) {
            let k = choose|k: int| #[trigger] differ_first(x, y, k);
            assert forall|i: int| 0 <= i < k + 1 implies a[i] == b[i] by {
                if i > 0 {
                    assert(x[i - 1] == y[i - 1]);
                }
            }
            if k < x.len() {
                assert(x[k] == a[k + 1] && y[k] == b[k + 1]);
            }
            assert(differ_first(a, b, k + 1));
        }
        if exists|k: int| #[trigger] differ_first(a, b, k) {
            let k = choose|k: int| #[trigger] differ_first(a, b, k);
            assert(k > 0);
            assert forall|i: int| 0 <= i < k - 1 implies x[i] == y[i] by {
                assert(a[i + 1] == b[i + 1]);
            }
            assert(differ_first(x, y, k - 1));
        }
    } else {
        if a[0] < b[0] {
            assert(differ_first(a, b, 0));
        }
        if exists|k: int| #[trigger] differ_first(a, b, k) {
            let k = choose|k: int| #[trigger] differ_first(a, b, k);
            assert(k == 0);
        }
    }
}

/// Whether two texts agree before position `k`, and the first ends there or has
/// the smaller character there.
pub open spec fn differ_first(a: Text, b: Text, k: int) -> bool {
    &&& 0 <= k <= a.len()
    &&& k < b.len()
    &&& forall|i: int| 0 <= i < k ==> a[i] == b[i]
    &&& k == a.len() || a[k] < b[k]
}

/// Lines after lines.
pub proof fn lemma_lined_apart(a: Seq<Text>, b: Seq<Text>)
    ensures
        lined(a + b) == lined(a) + lined(b),
    decreases a.len(),
{
    if a.len() == 0 {
        assert(a + b =~= b);
        assert(lined(a) + lined(b) =~= lined(b));
    } else {
        lemma_lined_apart(a.drop_first(), b);
        assert((a + b).drop_first() =~= a.drop_first() + b);
        assert((a + b)[0] == a[0]);
        assert(lined(a + b) =~= lined(a) + lined(b));
    }
}

pub proof fn lemma_lined_one(a: Text)
    ensures
        lined(seq![a]) == a + seq!['\n'],
{
    assert(seq![a].drop_first() =~= Seq::<Text>::empty());
    assert(lined(seq![a].drop_first()) =~= Seq::<char>::empty());
    assert(lined(seq![a]) =~= a + seq!['\n']);
}

pub proof fn lemma_lined_two(a: Text, b: Text)
    ensures
        lined(seq![a, b]) == a + seq!['\n'] + b + seq!['\n'],
{
    assert(seq![a, b] =~= seq![a] + seq![b]);
    lemma_lined_apart(seq![a], seq![b]);
    lemma_lined_one(a);
    lemma_lined_one(b);
    assert(lined(seq![a, b]) =~= a + seq!['\n'] + b + seq!['\n']);
}

pub proof fn lemma_lined_three(a: Text, b: Text, c: Text)
    ensures
        lined(seq![a, b, c]) == a + seq!['\n'] + b + seq!['\n'] + (c + seq!['\n']),
{
    assert(seq![a, b, c] =~= seq![a, b] + seq![c]);
    lemma_lined_apart(seq![a, b], seq![c]);
    lemma_lined_two(a, b);
    lemma_lined_one(c);
}

pub proof fn lemma_lined_four(a: Text, b: Text, c: Text, d: Text)
    ensures
        lined(seq![a, b, c, d]) == a + seq!['\n'] + b + seq!['\n'] + c + seq!['\n'] + d + seq![
            '\n',
        ],
{
    assert(seq![a, b, c, d] =~= seq![a, b] + seq![c, d]);
    lemma_lined_apart(seq![a, b], seq![c, d]);
    lemma_lined_two(a, b);
    lemma_lined_two(c, d);
    assert(lined(seq![a, b, c, d]) =~= a + seq!['\n'] + b + seq!['\n'] + c + seq!['\n'] + d + seq![
        '\n',
    ]);
}

/// A text between two others occurs in all three together.
pub proof fn lemma_occurs_between(before: Text, needle: Text, after: Text)
    ensures
        occurs(before + needle + after, needle),
{
    let s = before + needle + after;
    assert(s.subrange(before.len() as int, (before.len() + needle.len()) as int) =~= needle);
    assert(occurs_at(s, needle, before.len() as int));
}

/// What is strung together holds each of its parts.
pub proof fn lemma_joined_holds(parts: Seq<Text>, sep: Text, k: int)
    requires
        0 <= k < parts.len(),
    ensures
        occurs(joined(parts, sep), parts[k]),
    decreases parts.len(),
{
    let all = joined(parts, sep);
    if parts.len() == 1 {
        lemma_occurs_between(Seq::empty(), parts[0], Seq::empty());
        assert(Seq::<char>::empty() + parts[0] + Seq::<char>::empty() =~= all);
    } else {
        let front = parts.drop_last();
        if k == parts.len() - 1 {
            lemma_occurs_between(joined(front, sep) + sep, parts[k], Seq::empty());
            assert(joined(front, sep) + sep + parts[k] + Seq::<char>::empty() =~= all);
        } else {
            lemma_joined_holds(front, sep, k);
            let inner = joined(front, sep);
            assert(front[k] == parts[k]);
            let i = choose|i: int| occurs_at(inner, parts[k], i);
            assert(all.subrange(i, i + parts[k].len()) =~= inner.subrange(i, i + parts[k].len()));
            assert(occurs_at(all, parts[k], i));
        }
    }
}

/// A separator more at the end is an empty piece more.
pub proof fn lemma_split_ends(s: Text, c: char)
    ensures
        split(s.push(c), c) == split(s, c).push(Seq::<char>::empty()),
    decreases s.len(),
{
    let t = s.push(c);
    lemma_upto(s, c);
    lemma_upto(t, c);
    let n = upto(s, c) as int;
    let m = upto(t, c) as int;
    if m < n {
        assert(s[m] == t[m]);
    }
    if m > n && n < s.len() {
        assert(t[n] == s[n]);
    }
    if n >= s.len() {
        assert(t[s.len() as int] == c);
        assert(m == s.len());
        assert(t.take(m) =~= s);
        assert(t.skip(m + 1) =~= Seq::<char>::empty());
        assert(split(Seq::<char>::empty(), c) =~= seq![Seq::<char>::empty()]);
        assert(split(t, c) =~= split(s, c).push(Seq::<char>::empty()));
    } else {
        assert(m == n);
        let rest = s.skip(n + 1);
        assert(t.skip(n + 1) =~= rest.push(c));
        assert(t.take(n) =~= s.take(n));
        lemma_split_ends(rest, c);
        assert(split(t, c) =~= split(s, c).push(Seq::<char>::empty()));
    }
}

/// A last line without an ending is a line, as it is; an empty text has none.
pub proof fn lemma_last_line(s: Text)
    requires
        !s.contains('\n'),
    ensures
        s.len() > 0 ==> text_lines(s) == seq![s],
        s.len() == 0 ==> text_lines(s).len() == 0,
{
    lemma_upto(s, '\n');
    let n = upto(s, '\n') as int;
    if n < s.len() {
        assert(s[n] == '\n');
        assert(s.contains(s[n]));
    }
}

/// A text is a number exactly when it has a digit at least and nothing but
/// digits after an optional plus sign, and is not too large.
pub proof fn lemma_what_is_a_number(s: Text)
    ensures
        s.len() > 0 && s[0] != '+' ==> (is_u64(s) <==> (forall|i: int|
            0 <= i < s.len() ==> '0' <= #[trigger] s[i] <= '9') && value(s) <= u64::MAX),
        is_u64(s) && s[0] != '+' ==> is_u64(seq!['+'] + s) && value(unsigned(seq!['+'] + s))
            == value(s),
        !is_u64(Seq::<char>::empty()),
        !is_u64(seq!['+']),
{
    assert((seq!['+'] + s).drop_first() =~= s);
    assert(seq!['+'].drop_first() =~= Seq::<char>::empty());
}

} // verus!
