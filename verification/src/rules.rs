//! What a typed answer has to look like before it is accepted.

use vstd::prelude::*;

use crate::text;
use crate::text::{bytes_in, chars_of, same, words_of, Text};

verus! {

/// The characters a kind of name is made of.
#[derive(Clone, Copy)]
pub enum Alphabet {
    /// Letters, digits and hyphens.
    Hostname,
    /// Letters, digits and `@._+-`.
    Package,
    /// Lowercase letters, digits, underscores and hyphens.
    Username,
}

/// Whether a character is one of `a` to `z`.
pub open spec fn is_lower(c: char) -> bool {
    'a' <= c <= 'z'
}

/// Whether a character is one of `A` to `Z`.
pub open spec fn is_upper(c: char) -> bool {
    'A' <= c <= 'Z'
}

impl Alphabet {
    /// Whether a character belongs to the alphabet.
    pub open spec fn holds(self, c: char) -> bool {
        match self {
            Alphabet::Hostname => is_lower(c) || is_upper(c) || text::is_digit(c) || c == '-',
            Alphabet::Package => is_lower(c) || is_upper(c) || text::is_digit(c) || c == '@' || c
                == '.' || c == '_' || c == '+' || c == '-',
            Alphabet::Username => is_lower(c) || text::is_digit(c) || c == '_' || c == '-',
        }
    }

    /// Whether a text is made of the alphabet's characters.
    pub open spec fn spells(self, s: Text) -> bool {
        forall|i: int| 0 <= i < s.len() ==> self.holds(#[trigger] s[i])
    }

    /// Whether a character belongs to the alphabet.
    pub fn has(&self, c: char) -> (r: bool)
        ensures
            r == self.holds(c),
    {
        let lower = 'a' <= c && c <= 'z';
        let upper = 'A' <= c && c <= 'Z';
        let digit = '0' <= c && c <= '9';
        match self {
            Alphabet::Hostname => lower || upper || digit || c == '-',
            Alphabet::Package => lower || upper || digit || c == '@' || c == '.' || c == '_' || c
                == '+' || c == '-',
            Alphabet::Username => lower || digit || c == '_' || c == '-',
        }
    }

    /// Whether a string is made of the alphabet's characters.
    pub fn spelled(&self, s: &str) -> (r: bool)
        ensures
            r == self.spells(s@),
    {
        let cs = chars_of(s);
        let mut i: usize = 0;
        while i < cs.len()
            invariant
                cs@ == s@,
                i <= cs.len(),
                forall|j: int| 0 <= j < i ==> self.holds(#[trigger] s@[j]),
            decreases cs.len() - i,
        {
            if !self.has(cs[i]) {
                assert(!self.holds(s@[i as int]));
                return false;
            }
            i += 1;
        }
        true
    }
}

/// What is asked of a typed answer.
pub enum Check {
    /// A name for the machine.
    Hostname,
    /// Any number of package names.
    Packages,
    /// A name for the first account.
    Username,
    /// A password; none at all is fine where it may be empty.
    Password { allow_empty: bool },
    /// This very word.
    Word { word: String },
    /// Nothing.
    Anything,
}

/// What a `Check` holds, as contracts see it.
#[verifier::ext_equal]
pub enum CheckView {
    Hostname,
    Packages,
    Username,
    Password { allow_empty: bool },
    Word { word: Text },
    Anything,
}

impl View for Check {
    type V = CheckView;

    open spec fn view(&self) -> CheckView {
        match self {
            Check::Hostname => CheckView::Hostname,
            Check::Packages => CheckView::Packages,
            Check::Username => CheckView::Username,
            Check::Password { allow_empty } => CheckView::Password { allow_empty: *allow_empty },
            Check::Word { word } => CheckView::Word { word: word@ },
            Check::Anything => CheckView::Anything,
        }
    }
}

/// What is wrong with a hostname.
pub open spec fn hostname_complaint(s: Text) -> Option<Text> {
    if s.len() == 0 || text::byte_len(s) > 63 {
        Some("one to sixty-three characters"@)
    } else if !Alphabet::Hostname.spells(s) {
        Some("letters, digits and hyphens only"@)
    } else if s[0] == '-' || s.last() == '-' {
        Some("cannot begin or end with a hyphen"@)
    } else {
        None
    }
}

/// The first of some words that is not a package name.
pub open spec fn first_bad(words: Seq<Text>) -> Option<Text>
    decreases words.len(),
{
    if words.len() == 0 {
        None
    } else if !Alphabet::Package.spells(words[0]) {
        Some(words[0])
    } else {
        first_bad(words.drop_first())
    }
}

/// What is wrong with a list of packages.
pub open spec fn packages_complaint(s: Text) -> Option<Text> {
    match first_bad(text::words(s)) {
        Some(bad) => Some("`"@ + bad + "` is not a package name"@),
        None => None,
    }
}

/// What is wrong with a username.
pub open spec fn username_complaint(s: Text) -> Option<Text> {
    if s.len() == 0 || text::byte_len(s) > 32 {
        Some("one to thirty-two characters"@)
    } else if s == "root"@ {
        Some("root already exists"@)
    } else if !(is_lower(s[0]) || s[0] == '_') {
        Some("must start with a lowercase letter or an underscore"@)
    } else if !Alphabet::Username.spells(s) {
        Some("lowercase letters, digits, underscore and hyphen only"@)
    } else {
        None
    }
}

/// What is wrong with a password.
pub open spec fn password_complaint(s: Text, allow_empty: bool) -> Option<Text> {
    if s.len() == 0 && !allow_empty {
        Some("a password is required"@)
    } else if s.len() > 0 && text::byte_len(s) < 6 {
        Some("at least six characters"@)
    } else {
        None
    }
}

impl CheckView {
    /// What is wrong with an answer; `None` when it is accepted.
    pub open spec fn complaint(self, s: Text) -> Option<Text> {
        match self {
            CheckView::Hostname => hostname_complaint(s),
            CheckView::Packages => packages_complaint(s),
            CheckView::Username => username_complaint(s),
            CheckView::Password { allow_empty } => password_complaint(s, allow_empty),
            CheckView::Word { word } => if s == word {
                None
            } else {
                Some("that is not `"@ + word + "`"@)
            },
            CheckView::Anything => None,
        }
    }
}

/// What is wrong with a hostname.
fn hostname(s: &str) -> (out: Option<String>)
    ensures
        out.deep_view() == hostname_complaint(s@),
{
    let n: usize = s.unicode_len();
    if n == 0 || bytes_in(s) > 63 {
        Some("one to sixty-three characters".to_owned())
    } else if !Alphabet::Hostname.spelled(s) {
        Some("letters, digits and hyphens only".to_owned())
    } else if s.get_char(0) == '-' || s.get_char(n - 1) == '-' {
        Some("cannot begin or end with a hyphen".to_owned())
    } else {
        None
    }
}

/// What is wrong with a list of packages.
fn packages(s: &str) -> (out: Option<String>)
    ensures
        out.deep_view() == packages_complaint(s@),
{
    let words = words_of(s);
    let ghost all = words.deep_view();
    let mut i: usize = 0;
    assert(all.skip(0) == all);
    while i < words.len()
        invariant
            all == words.deep_view(),
            all == text::words(s@),
            i <= words.len(),
            first_bad(all.skip(i as int)) == first_bad(all),
        decreases words.len() - i,
    {
        let ghost rest = all.skip(i as int);
        assert(rest[0] == words@[i as int]@);
        if !Alphabet::Package.spelled(words[i].as_str()) {
            return Some("`".to_owned().concat(words[i].as_str()).concat("` is not a package name"));
        }
        assert(rest.drop_first() == all.skip(i + 1));
        i += 1;
    }
    None
}

/// What is wrong with a username.
fn username(s: &str) -> (out: Option<String>)
    ensures
        out.deep_view() == username_complaint(s@),
{
    if s.unicode_len() == 0 || bytes_in(s) > 32 {
        return Some("one to thirty-two characters".to_owned());
    }
    if same(s, "root") {
        return Some("root already exists".to_owned());
    }
    let first = s.get_char(0);
    if !(('a' <= first && first <= 'z') || first == '_') {
        Some("must start with a lowercase letter or an underscore".to_owned())
    } else if !Alphabet::Username.spelled(s) {
        Some("lowercase letters, digits, underscore and hyphen only".to_owned())
    } else {
        None
    }
}

impl Check {
    /// What is wrong with an answer; `None` when it is accepted.
    pub fn complaint(&self, s: &str) -> (out: Option<String>)
        ensures
            out.deep_view() == self@.complaint(s@),
    {
        match self {
            Check::Hostname => hostname(s),
            Check::Packages => packages(s),
            Check::Username => username(s),
            Check::Password { allow_empty } => {
                let empty = s.unicode_len() == 0;
                if empty && !*allow_empty {
                    Some("a password is required".to_owned())
                } else if !empty && bytes_in(s) < 6 {
                    Some("at least six characters".to_owned())
                } else {
                    None
                }
            },
            Check::Word { word } => if same(s, word.as_str()) {
                None
            } else {
                Some("that is not `".to_owned().concat(word.as_str()).concat("`"))
            },
            Check::Anything => None,
        }
    }
}

proof fn lemma_first_bad(words: Seq<Text>)
    ensures
        first_bad(words) is None <==> forall|i: int|
            0 <= i < words.len() ==> Alphabet::Package.spells(#[trigger] words[i]),
    decreases words.len(),
{
    if words.len() > 0 {
        let rest = words.drop_first();
        lemma_first_bad(rest);
        assert(forall|i: int| 0 <= i < rest.len() ==> #[trigger] rest[i] == words[i + 1]);
        if first_bad(words) is None {
            assert forall|i: int| 0 <= i < words.len() implies Alphabet::Package.spells(
                #[trigger] words[i],
            ) by {
                if i > 0 {
                    assert(rest[i - 1] == words[i]);
                }
            }
        }
        if first_bad(words) is Some && Alphabet::Package.spells(words[0]) {
            let k = choose|k: int|
                0 <= k < rest.len() && !Alphabet::Package.spells(#[trigger] rest[k]);
            assert(words[k + 1] == rest[k]);
        }
    }
}

/// A list of packages is accepted exactly when each of its words is spelled in
/// letters, digits and `@._+-`. So no accepted package name holds a quote or a
/// backslash, and each can stand in a quoted string of the configuration as it
/// is.
pub proof fn lemma_accepted_packages_need_no_escapes(s: Text)
    ensures
        CheckView::Packages.complaint(s) is None <==> forall|i: int|
            0 <= i < text::words(s).len() ==> Alphabet::Package.spells(#[trigger] text::words(s)[i]),
        CheckView::Packages.complaint(s) is None ==> forall|i: int, k: int|
            #![trigger text::words(s)[i][k]]
            0 <= i < text::words(s).len() && 0 <= k < text::words(s)[i].len()
                ==> text::words(s)[i][k] != '"' && text::words(s)[i][k] != '\\'
                && text::words(s)[i][k] != '\n',
{
    lemma_first_bad(text::words(s));
}

/// An accepted hostname is not empty, has at most sixty-three characters, all
/// of them letters, digits or hyphens, and no hyphen at either end.
pub proof fn lemma_accepted_hostname(s: Text)
    ensures
        CheckView::Hostname.complaint(s) is None <==> {
            &&& 1 <= s.len() <= 63
            &&& Alphabet::Hostname.spells(s)
            &&& s[0] != '-'
            &&& s.last() != '-'
        },
{
    if Alphabet::Hostname.spells(s) {
        lemma_ascii_bytes(s);
    }
}

/// An accepted username is not empty, has at most thirty-two characters, starts
/// with a lowercase letter or an underscore, goes on with those, digits and
/// hyphens, and is not `root`.
pub proof fn lemma_accepted_username(s: Text)
    ensures
        CheckView::Username.complaint(s) is None <==> {
            &&& 1 <= s.len() <= 32
            &&& is_lower(s[0]) || s[0] == '_'
            &&& Alphabet::Username.spells(s)
            &&& s != "root"@
        },
{
    if Alphabet::Username.spells(s) {
        lemma_ascii_bytes(s);
    }
}

/// A text of ASCII characters has as many bytes as characters.
proof fn lemma_ascii_bytes(s: Text)
    requires
        forall|i: int| 0 <= i < s.len() ==> (#[trigger] s[i]) as u32 <= 0x7f,
    ensures
        text::byte_len(s) == s.len(),
    decreases s.len(),
{
    reveal_with_fuel(vstd::utf8::encode_utf8, 2);
    if s.len() > 0 {
        lemma_ascii_bytes(s.drop_first());
    }
}

/// A password is accepted exactly when it has at least six bytes, or is empty
/// where it may be; the word is accepted alone; and what nothing is asked of is
/// always accepted.
pub proof fn lemma_accepted_password(s: Text, allow_empty: bool, word: Text)
    ensures
        (CheckView::Password { allow_empty }).complaint(s) is None <==> if s.len() == 0 {
            allow_empty
        } else {
            text::byte_len(s) >= 6
        },
        (CheckView::Word { word }).complaint(s) is None <==> s == word,
        CheckView::Anything.complaint(s) is None,
{
}

/// Names are spelled in ASCII: in lowercase letters, digits and hyphens, and
/// beyond those only in capitals for a hostname, in capitals and `@._+` for a
/// package, and in underscores for a user.
pub proof fn lemma_alphabets(c: char)
    ensures
        ('a' <= c <= 'z' || '0' <= c <= '9' || c == '-') ==> Alphabet::Hostname.holds(c)
            && Alphabet::Package.holds(c) && Alphabet::Username.holds(c),
        'A' <= c <= 'Z' ==> Alphabet::Hostname.holds(c) && Alphabet::Package.holds(c)
            && !Alphabet::Username.holds(c),
        c == '_' ==> !Alphabet::Hostname.holds(c) && Alphabet::Package.holds(c)
            && Alphabet::Username.holds(c),
        (c == '@' || c == '.' || c == '+') ==> !Alphabet::Hostname.holds(c)
            && Alphabet::Package.holds(c) && !Alphabet::Username.holds(c),
        !('a' <= c <= 'z' || '0' <= c <= '9' || c == '-' || 'A' <= c <= 'Z' || c == '_' || c == '@'
            || c == '.' || c == '+') ==> !Alphabet::Hostname.holds(c) && !Alphabet::Package.holds(c)
            && !Alphabet::Username.holds(c),
{
}

/// A word that is not a package name is told by itself, and it is the first.
pub proof fn lemma_the_first_bad_word_is_told(words: Seq<Text>)
    ensures
        first_bad(words) matches Some(bad) ==> exists|k: int|
            #![trigger words[k]]
            0 <= k < words.len() && words[k] == bad && !Alphabet::Package.spells(words[k])
                && forall|j: int| 0 <= j < k ==> Alphabet::Package.spells(#[trigger] words[j]),
    decreases words.len(),
{
    if words.len() > 0 && Alphabet::Package.spells(words[0]) {
        let rest = words.drop_first();
        lemma_the_first_bad_word_is_told(rest);
        if let Some(bad) = first_bad(rest) {
            let k = choose|k: int|
                #![trigger rest[k]]
                0 <= k < rest.len() && rest[k] == bad && !Alphabet::Package.spells(rest[k])
                    && forall|j: int| 0 <= j < k ==> Alphabet::Package.spells(#[trigger] rest[j]);
            assert(words[k + 1] == rest[k]);
            assert forall|j: int| 0 <= j < k + 1 implies Alphabet::Package.spells(
                #[trigger] words[j],
            ) by {
                if j > 0 {
                    assert(words[j] == rest[j - 1]);
                }
            }
        }
    }
}

} // verus!
