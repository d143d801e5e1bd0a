//! The regular expressions of the project and what they match.
use crate::text::{begins_with, is_ascii_digit};
use vstd::prelude::*;

verus! {

/// A commit hash: seven to forty lower-case hexadecimal digits.
pub const HEX: &'static str = "^[0-9a-f]{7,40}$";

/// A number.
pub const NUM: &'static str = "^\\d+$";

/// A version at the start of a text.
pub const VER: &'static str = "^v?\\d+\\.\\d+(\\.\\d+)?";

/// The start of a web address.
pub const URL: &'static str = "^https?://";

/// A terminal control sequence that has lost its escape byte.
pub const CSI: &'static str = "\\[[0-9;?]*[A-Za-z]";

/// The compiled expression of the `regex` crate.
#[verifier::external_type_specification]
#[verifier::external_body]
pub struct ExRegex(regex::Regex);

/// The text that an expression was compiled from.
pub uninterp spec fn pattern_of(re: regex::Regex) -> Seq<char>;

/// Whether `\d` of the `regex` crate matches a character beyond ASCII: whether
/// [`NUM`] matches the character alone.
pub uninterp spec fn wide_digit(c: char) -> bool;

/// What `\d` matches.
pub open spec fn is_digit(c: char) -> bool {
    if (c as u32) < 128 {
        is_ascii_digit(c)
    } else {
        wide_digit(c)
    }
}

/// Whether `p` is one of the expressions above.
pub open spec fn known(p: Seq<char>) -> bool {
    p == HEX@ || p == NUM@ || p == VER@ || p == URL@ || p == CSI@
}

/// What [`HEX`] matches.
pub open spec fn is_hash(s: Seq<char>) -> bool {
    &&& 7 <= s.len() <= 40
    &&& forall|i: int|
        0 <= i < s.len() ==> is_ascii_digit(#[trigger] s[i]) || ('a' <= s[i] && s[i] <= 'f')
}

/// What [`NUM`] matches.
pub open spec fn is_number(s: Seq<char>) -> bool {
    s.len() > 0 && forall|i: int| 0 <= i < s.len() ==> is_digit(#[trigger] s[i])
}

/// How many digits `s` begins with.
pub open spec fn leading_digits(s: Seq<char>) -> nat
    decreases s.len(),
{
    if s.len() > 0 && is_digit(s[0]) {
        1 + leading_digits(s.skip(1))
    } else {
        0
    }
}

/// What [`VER`] matches: digits, a dot and a digit, after an optional `v`.
pub open spec fn is_version(s: Seq<char>) -> bool {
    let t = if s.len() > 0 && s[0] == 'v' {
        s.skip(1)
    } else {
        s
    };
    let n = leading_digits(t);
    n > 0 && n + 1 < t.len() && t[n as int] == '.' && is_digit(t[n as int + 1])
}

/// What [`URL`] matches.
pub open spec fn is_address(s: Seq<char>) -> bool {
    begins_with(s, "http://"@) || begins_with(s, "https://"@)
}

/// How many of the characters from `i` on may stand inside a control sequence.
pub open spec fn parameter_run(s: Seq<char>, i: int) -> int
    decreases s.len() - i,
{
    if 0 <= i < s.len() && (is_ascii_digit(s[i]) || s[i] == ';' || s[i] == '?') {
        1 + parameter_run(s, i + 1)
    } else {
        0
    }
}

/// The length of the match of [`CSI`] at the start of `s`, or zero.
pub open spec fn sequence_length(s: Seq<char>) -> int {
    if s.len() > 0 && s[0] == '[' {
        let end = 1 + parameter_run(s, 1);
        if end < s.len() && (('a' <= s[end] && s[end] <= 'z') || ('A' <= s[end] && s[end] <= 'Z')) {
            end + 1
        } else {
            0
        }
    } else {
        0
    }
}

/// A text without the matches of [`CSI`].
pub open spec fn without_sequences(s: Seq<char>) -> Seq<char>
    decreases s.len(),
{
    if s.len() == 0 {
        Seq::empty()
    } else if sequence_length(s) > 0 {
        without_sequences(s.skip(sequence_length(s)))
    } else {
        seq![s[0]] + without_sequences(s.skip(1))
    }
}

/// `regex::Regex::new` on one of the expressions above, all of which compile.
#[verifier::external_body]
pub(crate) fn compile(pattern: &str) -> (r: regex::Regex)
    requires
        known(pattern@),
    ensures
        pattern_of(r) == pattern@,
{
    regex::Regex::new(pattern).unwrap()
}

/// `regex::Regex::is_match`, for the expressions whose matches are asked for.
/// Which characters beyond ASCII are digits is left to the crate's Unicode
/// tables.
#[verifier::external_body]
pub(crate) fn is_match(re: &regex::Regex, text: &str) -> (r: bool)
    ensures
        pattern_of(*re) == NUM@ && text@.len() == 1 && text@[0] as u32 >= 128 ==> r == wide_digit(
            text@[0],
        ),
        pattern_of(*re) == HEX@ ==> r == is_hash(text@),
        pattern_of(*re) == NUM@ ==> r == is_number(text@),
        pattern_of(*re) == VER@ ==> r == is_version(text@),
        pattern_of(*re) == URL@ ==> r == is_address(text@),
{
    re.is_match(text)
}

/// `regex::Regex::replace_all` with the empty text: every leftmost match of
/// [`CSI`] is taken out.
#[verifier::external_body]
pub(crate) fn remove_matches(re: &regex::Regex, text: &str) -> (r: String)
    ensures
        pattern_of(*re) == CSI@ ==> r@ == without_sequences(text@),
{
    re.replace_all(text, "").into_owned()
}

} // verus!
