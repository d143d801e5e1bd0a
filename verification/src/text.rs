//! Text as sequences of characters: splitting, trimming, searching, and the few
//! standard functions on strings that are taken on trust.
use vstd::prelude::*;
use vstd::utf8::{
    decode_utf8, decode_utf8_encode_utf8, encode_scalar, encode_utf8, encode_utf8_decode_utf8,
    encode_utf8_valid_utf8, is_ascii_chars, valid_utf8,
};

verus! {

// ---------------------------------------------------------------------------
// Trusted functions of the standard library
// ---------------------------------------------------------------------------

/// `String::push` appends one character at the end.
pub assume_specification[ String::push ](s: &mut String, c: char)
    ensures
        final(s)@ == old(s)@.push(c),
;

/// `==` on string slices compares their characters one by one.
pub assume_specification[ <str as PartialEq<str>>::eq ](a: &str, b: &str) -> (r: bool)
    ensures
        r == (a@ == b@),
;

/// What `String::from_utf8_lossy` makes of a byte sequence.
pub uninterp spec fn lossy_utf8(bytes: Seq<u8>) -> Seq<char>;

/// `String::from_utf8_lossy`: the text of valid UTF-8; what stands in for
/// ill-formed bytes is left to the standard library and only named here.
#[verifier::external_body]
pub(crate) fn from_utf8_lossy(bytes: &[u8]) -> (r: String)
    ensures
        r@ == lossy_utf8(bytes@),
        valid_utf8(bytes@) ==> r@ == decode_utf8(bytes@),
{
    String::from_utf8_lossy(bytes).into_owned()
}

/// The text of bytes: what they encode where they are UTF-8, and otherwise what is
/// left once something stands in for the ill-formed ones.
pub open spec fn text_in(bytes: Seq<u8>) -> Seq<char> {
    if valid_utf8(bytes) {
        decode_utf8(bytes)
    } else {
        lossy_utf8(bytes)
    }
}

/// Reads the text of bytes.
pub fn read_text(bytes: &[u8]) -> (r: String)
    ensures
        r@ == text_in(bytes@),
{
    from_utf8_lossy(bytes)
}

/// Encoding two texts one after the other.
pub proof fn lemma_encode_both(a: Seq<char>, b: Seq<char>)
    ensures
        encode_utf8(a + b) == encode_utf8(a) + encode_utf8(b),
    decreases a.len(),
{
    if a.len() == 0 {
        assert(a + b =~= b);
        assert(encode_utf8(a) + encode_utf8(b) =~= encode_utf8(b));
    } else {
        let rest = a.drop_first();
        lemma_encode_both(rest, b);
        assert((a + b).drop_first() =~= rest + b);
        assert((a + b)[0] == a[0]);
        let head = encode_scalar(a[0] as u32);
        assert(head + (encode_utf8(rest) + encode_utf8(b)) =~= (head + encode_utf8(rest))
            + encode_utf8(b));
    }
}

/// Where UTF-8 follows UTF-8, text follows text.
pub proof fn texts_follow_as_their_bytes_do(a: Seq<u8>, b: Seq<u8>)
    requires
        valid_utf8(a),
        valid_utf8(b),
    ensures
        valid_utf8(a + b),
        decode_utf8(a + b) == decode_utf8(a) + decode_utf8(b),
        text_in(a + b) == text_in(a) + text_in(b),
{
    let (x, y) = (decode_utf8(a), decode_utf8(b));
    decode_utf8_encode_utf8(a);
    decode_utf8_encode_utf8(b);
    lemma_encode_both(x, y);
    encode_utf8_valid_utf8(x + y);
    encode_utf8_decode_utf8(x + y);
}

/// `std::str::from_utf8`: the text if the bytes are well-formed UTF-8, and
/// nothing otherwise.
#[verifier::external_body]
pub(crate) fn from_utf8(bytes: &[u8]) -> (r: Option<String>)
    ensures
        r is Some <==> valid_utf8(bytes@),
        r matches Some(s) ==> s@ == decode_utf8(bytes@),
{
    std::str::from_utf8(bytes).ok().map(String::from)
}

/// What `str::to_uppercase` makes of a text.
pub uninterp spec fn uppercase(s: Seq<char>) -> Seq<char>;

/// The upper-case form of an ASCII character.
pub open spec fn ascii_upper(c: char) -> char {
    if 'a' <= c <= 'z' {
        (c as u32 - 32) as char
    } else {
        c
    }
}

/// `str::to_uppercase`: ASCII text changes letter by letter; how other letters
/// change is left to the standard library's Unicode tables and only named here.
#[verifier::external_body]
pub(crate) fn to_uppercase(s: &str) -> (r: String)
    ensures
        r@ == uppercase(s@),
        is_ascii_chars(s@) ==> r@ == Seq::new(s@.len(), |i: int| ascii_upper(s@[i])),
{
    s.to_uppercase()
}

/// What `str::to_lowercase` makes of a text.
pub uninterp spec fn lowercase(s: Seq<char>) -> Seq<char>;

/// The lower-case form of an ASCII character.
pub open spec fn ascii_lower(c: char) -> char {
    if 'A' <= c <= 'Z' {
        (c as u32 + 32) as char
    } else {
        c
    }
}

/// `str::to_lowercase`. On ASCII text it maps the letters A to Z; outside
/// ASCII the mapping is that of the Unicode tables and only named here.
#[verifier::external_body]
pub(crate) fn to_lowercase(s: &str) -> (r: String)
    ensures
        r@ == lowercase(s@),
        is_ascii_chars(s@) ==> r@ == s@.map_values(|c: char| ascii_lower(c)),
{
    s.to_lowercase()
}

/// Whether `char::is_alphanumeric` holds of a character beyond ASCII.
pub uninterp spec fn wide_alphanumeric(c: char) -> bool;

/// Letters and digits, in the sense of `char::is_alphanumeric`.
pub open spec fn is_alphanumeric(c: char) -> bool {
    if c <= '\u{7f}' {
        'a' <= c <= 'z' || 'A' <= c <= 'Z' || '0' <= c <= '9'
    } else {
        wide_alphanumeric(c)
    }
}

/// `char::is_alphanumeric` on a character beyond ASCII, where it is decided by
/// the Unicode tables and only named here.
#[verifier::external_body]
fn is_wide_alphanumeric(c: char) -> (r: bool)
    requires
        c > '\u{7f}',
    ensures
        r == wide_alphanumeric(c),
{
    c.is_alphanumeric()
}

// ---------------------------------------------------------------------------
// Characters
// ---------------------------------------------------------------------------

/// The characters with the Unicode property White_Space.
pub open spec fn is_space(c: char) -> bool {
    ||| '\u{9}' <= c <= '\u{d}'
    ||| c == ' '
    ||| c == '\u{85}'
    ||| c == '\u{a0}'
    ||| c == '\u{1680}'
    ||| '\u{2000}' <= c <= '\u{200a}'
    ||| c == '\u{2028}'
    ||| c == '\u{2029}'
    ||| c == '\u{202f}'
    ||| c == '\u{205f}'
    ||| c == '\u{3000}'
}

/// The ASCII digits.
pub open spec fn is_ascii_digit(c: char) -> bool {
    '0' <= c <= '9'
}

/// Decides [`is_space`].
pub fn space(c: char) -> (r: bool)
    ensures
        r == is_space(c),
{
    ('\u{9}' <= c && c <= '\u{d}') || c == ' ' || c == '\u{85}' || c == '\u{a0}'
        || c == '\u{1680}' || ('\u{2000}' <= c && c <= '\u{200a}') || c == '\u{2028}'
        || c == '\u{2029}' || c == '\u{202f}' || c == '\u{205f}' || c == '\u{3000}'
}

/// Decides [`is_alphanumeric`].
pub fn alphanumeric(c: char) -> (r: bool)
    ensures
        r == is_alphanumeric(c),
{
    if c <= '\u{7f}' {
        ('a' <= c && c <= 'z') || ('A' <= c && c <= 'Z') || ('0' <= c && c <= '9')
    } else {
        is_wide_alphanumeric(c)
    }
}

// ---------------------------------------------------------------------------
// Characters in, text out
// ---------------------------------------------------------------------------

/// The texts of a sequence of strings.
pub open spec fn texts(v: Seq<String>) -> Seq<Seq<char>> {
    Seq::new(v.len(), |i: int| v[i]@)
}

/// The text of an optional string.
pub open spec fn opt_text(s: Option<String>) -> Option<Seq<char>> {
    match s {
        Some(t) => Some(t@),
        None => None,
    }
}

/// The characters of a text.
pub fn chars_of(s: &str) -> (r: Vec<char>)
    ensures
        r@ == s@,
{
    let mut out: Vec<char> = Vec::new();
    for c in it: s.chars()
        invariant
            out@ == it.seq().take(it.index()),
            it.seq() == s@,
    {
        out.push(c);
        assert(it.seq().take(it.index() + 1) == it.seq().take(it.index()).push(c));
    }
    assert(s@.take(s@.len() as int) == s@);
    out
}

/// The text of the characters from `lo` up to `hi`.
pub fn text_of(v: &Vec<char>, lo: usize, hi: usize) -> (r: String)
    requires
        lo <= hi <= v@.len(),
    ensures
        r@ == v@.subrange(lo as int, hi as int),
{
    let mut out = String::new();
    let mut i: usize = lo;
    while i < hi
        invariant
            lo <= i <= hi <= v@.len(),
            out@ == v@.subrange(lo as int, i as int),
        decreases hi - i,
    {
        out.push(v[i]);
        assert(v@.subrange(lo as int, i + 1) == v@.subrange(lo as int, i as int).push(v@[i as int]));
        i += 1;
    }
    out
}

/// A copy of a sequence of strings.
pub fn clone_all(v: &Vec<String>) -> (r: Vec<String>)
    ensures
        r@ == v@,
{
    let mut out: Vec<String> = Vec::new();
    let mut i: usize = 0;
    while i < v.len()
        invariant
            i <= v@.len(),
            out@ == v@.take(i as int),
        decreases v@.len() - i,
    {
        out.push(v[i].clone());
        i += 1;
        assert(out@ =~= v@.take(i as int));
    }
    assert(v@.take(i as int) == v@);
    out
}

/// Whether a text is empty.
pub fn is_blank(s: &str) -> (r: bool)
    ensures
        r == (s@.len() == 0),
{
    s.is_empty()
}

/// Whether two texts are equal.
pub fn same(a: &str, b: &str) -> (r: bool)
    ensures
        r == (a@ == b@),
{
    a.eq(b)
}

// ---------------------------------------------------------------------------
// Splitting
// ---------------------------------------------------------------------------

/// Which characters end a piece of text.
#[derive(Clone, Copy)]
pub enum Separator {
    /// White space.
    Space,
    /// Whatever is neither letter nor digit.
    NonWord,
    /// One given character.
    Char(char),
}

impl Separator {
    /// Whether `c` separates.
    pub open spec fn holds(self, c: char) -> bool {
        match self {
            Separator::Space => is_space(c),
            Separator::NonWord => !is_alphanumeric(c),
            Separator::Char(d) => c == d,
        }
    }

    /// Decides [`Separator::holds`].
    pub fn separates(&self, c: char) -> (r: bool)
        ensures
            r == self.holds(c),
    {
        match self {
            Separator::Space => space(c),
            Separator::NonWord => !alphanumeric(c),
            Separator::Char(d) => c == *d,
        }
    }
}

/// The pieces between separators; always one more than there are separators.
pub open spec fn pieces(s: Seq<char>, sep: Separator) -> Seq<Seq<char>>
    decreases s.len(),
{
    if s.len() == 0 {
        seq![Seq::<char>::empty()]
    } else {
        let before = pieces(s.drop_last(), sep);
        if sep.holds(s.last()) {
            before.push(Seq::<char>::empty())
        } else {
            before.drop_last().push(before.last().push(s.last()))
        }
    }
}

/// The pieces that are not empty.
pub open spec fn nonempty(p: Seq<Seq<char>>) -> Seq<Seq<char>>
    decreases p.len(),
{
    if p.len() == 0 {
        Seq::empty()
    } else if p.last().len() == 0 {
        nonempty(p.drop_last())
    } else {
        nonempty(p.drop_last()).push(p.last())
    }
}

/// The words of a text: its maximal runs without white space.
pub open spec fn words(s: Seq<char>) -> Seq<Seq<char>> {
    nonempty(pieces(s, Separator::Space))
}

/// The first word, or the empty text if there is none.
pub open spec fn first_word(s: Seq<char>) -> Seq<char> {
    if words(s).len() > 0 {
        words(s)[0]
    } else {
        Seq::empty()
    }
}

/// There is always at least one piece.
pub proof fn lemma_pieces_nonempty(s: Seq<char>, sep: Separator)
    ensures
        pieces(s, sep).len() > 0,
    decreases s.len(),
{
    if s.len() > 0 {
        lemma_pieces_nonempty(s.drop_last(), sep);
    }
}

/// Splits `s` at every separator.
pub fn split(s: &str, sep: Separator) -> (r: Vec<String>)
    ensures
        texts(r@) == pieces(s@, sep),
{
    let chars = chars_of(s);
    let mut out: Vec<String> = Vec::new();
    let mut cur = String::new();
    let mut i: usize = 0;
    assert(s@.take(0) == Seq::<char>::empty());
    assert(pieces(s@.take(0), sep) == texts(out@).push(cur@));
    while i < chars.len()
        invariant
            i <= chars@.len(),
            chars@ == s@,
            pieces(s@.take(i as int), sep) == texts(out@).push(cur@),
        decreases chars@.len() - i,
    {
        let c = chars[i];
        let ghost before = texts(out@);
        let ghost was = cur@;
        assert(s@.take(i + 1).drop_last() == s@.take(i as int));
        assert(before.push(was).drop_last() == before);
        if sep.separates(c) {
            out.push(cur);
            cur = String::new();
            assert(texts(out@) == before.push(was));
        } else {
            cur.push(c);
        }
        i += 1;
    }
    assert(s@.take(s@.len() as int) == s@);
    let ghost before = texts(out@);
    let ghost was = cur@;
    out.push(cur);
    assert(texts(out@) == before.push(was));
    out
}

/// Keeps the pieces that are not empty.
fn keep_nonempty(p: Vec<String>) -> (r: Vec<String>)
    ensures
        texts(r@) == nonempty(texts(p@)),
{
    let mut out: Vec<String> = Vec::new();
    let mut i: usize = 0;
    assert(texts(p@).take(0) == Seq::<Seq<char>>::empty());
    while i < p.len()
        invariant
            i <= p@.len(),
            texts(out@) == nonempty(texts(p@).take(i as int)),
        decreases p@.len() - i,
    {
        let ghost done = texts(out@);
        assert(texts(p@).take(i + 1).drop_last() == texts(p@).take(i as int));
        if !p[i].as_str().is_empty() {
            out.push(p[i].clone());
            assert(texts(out@) == done.push(p@[i as int]@));
        }
        i += 1;
    }
    assert(texts(p@).take(p@.len() as int) == texts(p@));
    out
}

/// The words of a text, in order.
pub fn split_whitespace(s: &str) -> (r: Vec<String>)
    ensures
        texts(r@) == words(s@),
{
    keep_nonempty(split(s, Separator::Space))
}

/// The first word of a text.
pub fn head_word(s: &str) -> (r: String)
    ensures
        r@ == first_word(s@),
{
    let w = split_whitespace(s);
    assert(texts(w@).len() == w@.len());
    if w.len() > 0 {
        w[0].clone()
    } else {
        String::new()
    }
}

/// A line without the carriage return before its line feed.
pub open spec fn strip_cr(s: Seq<char>) -> Seq<char> {
    if s.len() > 0 && s.last() == '\r' {
        s.drop_last()
    } else {
        s
    }
}

/// The lines of a text: each ends at a line feed, which is dropped together
/// with a carriage return before it; an empty remainder is no line.
pub open spec fn lines(s: Seq<char>) -> Seq<Seq<char>> {
    let p = pieces(s, Separator::Char('\n'));
    let ended = Seq::new((p.len() - 1) as nat, |i: int| strip_cr(p[i]));
    if p.last().len() == 0 {
        ended
    } else {
        ended.push(p.last())
    }
}

/// The first line, or the empty text if there is none.
pub open spec fn first_line(s: Seq<char>) -> Seq<char> {
    if lines(s).len() > 0 {
        lines(s)[0]
    } else {
        Seq::empty()
    }
}

/// The lines of a text, in order.
pub fn split_lines(s: &str) -> (r: Vec<String>)
    ensures
        texts(r@) == lines(s@),
{
    let p = split(s, Separator::Char('\n'));
    let ghost ps = pieces(s@, Separator::Char('\n'));
    proof {
        lemma_pieces_nonempty(s@, Separator::Char('\n'));
        assert(texts(p@).len() == p@.len());
    }
    let last: usize = p.len() - 1;
    let mut out: Vec<String> = Vec::new();
    let mut i: usize = 0;
    while i < last
        invariant
            last == p@.len() - 1,
            i <= last,
            texts(p@) == ps,
            out@.len() == i,
            forall|k: int| 0 <= k < i ==> out@[k]@ == strip_cr(#[trigger] ps[k]),
        decreases last - i,
    {
        let c = chars_of(p[i].as_str());
        assert(ps[i as int] == c@);
        if c.len() > 0 && c[c.len() - 1] == '\r' {
            let t = text_of(&c, 0, c.len() - 1);
            assert(t@ == c@.drop_last());
            out.push(t);
        } else {
            out.push(p[i].clone());
        }
        i += 1;
    }
    assert(ps.last() == p@[last as int]@);
    let ghost ended = texts(out@);
    assert(ended == Seq::new((ps.len() - 1) as nat, |i: int| strip_cr(ps[i])));
    if !p[last].as_str().is_empty() {
        out.push(p[last].clone());
        assert(texts(out@) == ended.push(ps.last()));
    }
    out
}

/// The first line of a text.
pub fn head_line(s: &str) -> (r: String)
    ensures
        r@ == first_line(s@),
{
    let l = split_lines(s);
    assert(texts(l@).len() == l@.len());
    if l.len() > 0 {
        l[0].clone()
    } else {
        String::new()
    }
}

// ---------------------------------------------------------------------------
// Trimming
// ---------------------------------------------------------------------------

/// The text without leading white space.
pub open spec fn trim_left(s: Seq<char>) -> Seq<char>
    decreases s.len(),
{
    if s.len() > 0 && is_space(s[0]) {
        trim_left(s.drop_first())
    } else {
        s
    }
}

/// The text without trailing white space.
pub open spec fn trim_right(s: Seq<char>) -> Seq<char>
    decreases s.len(),
{
    if s.len() > 0 && is_space(s.last()) {
        trim_right(s.drop_last())
    } else {
        s
    }
}

/// The text without white space at either end.
pub open spec fn trimmed(s: Seq<char>) -> Seq<char> {
    trim_right(trim_left(s))
}

/// Drops leading white space.
pub fn trim_start(s: &str) -> (r: String)
    ensures
        r@ == trim_left(s@),
{
    let c = chars_of(s);
    let n: usize = c.len();
    let mut lo: usize = 0;
    assert(c@.skip(0) == c@);
    while lo < n && space(c[lo])
        invariant
            lo <= n == c@.len(),
            trim_left(c@) == trim_left(c@.skip(lo as int)),
        decreases n - lo,
    {
        assert(c@.skip(lo as int).drop_first() == c@.skip(lo + 1));
        lo += 1;
    }
    assert(c@.subrange(lo as int, n as int) == c@.skip(lo as int));
    text_of(&c, lo, n)
}

/// Drops white space at both ends.
pub fn trim(s: &str) -> (r: String)
    ensures
        r@ == trimmed(s@),
{
    let left = trim_start(s);
    let c = chars_of(left.as_str());
    let mut hi: usize = c.len();
    assert(c@.take(c@.len() as int) == c@);
    while hi > 0 && space(c[hi - 1])
        invariant
            hi <= c@.len(),
            trim_right(c@) == trim_right(c@.take(hi as int)),
        decreases hi,
    {
        assert(c@.take(hi as int).drop_last() == c@.take(hi - 1));
        hi -= 1;
    }
    assert(c@.subrange(0, hi as int) == c@.take(hi as int));
    text_of(&c, 0, hi)
}

// ---------------------------------------------------------------------------
// Searching
// ---------------------------------------------------------------------------

/// Whether `p` stands in `s` at position `i`.
pub open spec fn stands_at(s: Seq<char>, p: Seq<char>, i: int) -> bool {
    0 <= i && i + p.len() <= s.len() && s.subrange(i, i + p.len()) == p
}

/// Whether `s` begins with `p`.
pub open spec fn begins_with(s: Seq<char>, p: Seq<char>) -> bool {
    stands_at(s, p, 0)
}

/// Whether `p` stands anywhere in `s`.
pub open spec fn has_part(s: Seq<char>, p: Seq<char>) -> bool {
    exists|i: int| #[trigger] stands_at(s, p, i)
}

/// Decides [`stands_at`] on characters.
fn part_at(s: &Vec<char>, p: &Vec<char>, i: usize) -> (r: bool)
    requires
        i <= s@.len(),
    ensures
        r == stands_at(s@, p@, i as int),
{
    let n: usize = s.len();
    if n - i < p.len() {
        return false;
    }
    let mut k: usize = 0;
    while k < p.len()
        invariant
            k <= p@.len(),
            i + p@.len() <= n == s@.len(),
            forall|j: int| 0 <= j < k ==> s@[i + j] == #[trigger] p@[j],
        decreases p@.len() - k,
    {
        if s[i + k] != p[k] {
            assert(s@.subrange(i as int, i + p@.len())[k as int] != p@[k as int]);
            return false;
        }
        k += 1;
    }
    assert(s@.subrange(i as int, i + p@.len()) =~= p@);
    true
}

/// Whether `s` begins with `p`.
pub fn starts_with(s: &str, p: &str) -> (r: bool)
    ensures
        r == begins_with(s@, p@),
{
    part_at(&chars_of(s), &chars_of(p), 0)
}

/// Whether `s` ends with `p`.
pub open spec fn finishes_with(s: Seq<char>, p: Seq<char>) -> bool {
    stands_at(s, p, s.len() - p.len())
}

/// Whether `s` ends with `p`.
pub fn ends_with(s: &str, p: &str) -> (r: bool)
    ensures
        r == finishes_with(s@, p@),
{
    let a = chars_of(s);
    let b = chars_of(p);
    if a.len() < b.len() {
        return false;
    }
    part_at(&a, &b, a.len() - b.len())
}

/// Whether `p` stands anywhere in `s`.
pub fn contains(s: &str, p: &str) -> (r: bool)
    ensures
        r == has_part(s@, p@),
{
    let a = chars_of(s);
    let b = chars_of(p);
    let n: usize = a.len();
    let mut i: usize = 0;
    loop
        invariant
            i <= n == a@.len(),
            a@ == s@,
            b@ == p@,
            forall|j: int| 0 <= j < i ==> !#[trigger] stands_at(s@, p@, j),
        decreases n - i,
    {
        if part_at(&a, &b, i) {
            return true;
        }
        if i == n {
            return false;
        }
        i += 1;
    }
}

/// The position of the first `c`, if any.
pub open spec fn first_index(s: Seq<char>, c: char) -> Option<int>
    decreases s.len(),
{
    if s.len() == 0 {
        None
    } else {
        match first_index(s.drop_last(), c) {
            Some(i) => Some(i),
            None => if s.last() == c {
                Some(s.len() - 1)
            } else {
                None
            },
        }
    }
}

/// The position of the last `c`, if any.
pub open spec fn last_index(s: Seq<char>, c: char) -> Option<int>
    decreases s.len(),
{
    if s.len() == 0 {
        None
    } else if s.last() == c {
        Some(s.len() - 1)
    } else {
        last_index(s.drop_last(), c)
    }
}

/// [`first_index`] is the least position of `c`.
pub proof fn lemma_first_index(s: Seq<char>, c: char)
    ensures
        match first_index(s, c) {
            Some(i) => 0 <= i < s.len() && s[i] == c && forall|j: int| 0 <= j < i ==> s[j] != c,
            None => forall|j: int| 0 <= j < s.len() ==> s[j] != c,
        },
    decreases s.len(),
{
    if s.len() > 0 {
        lemma_first_index(s.drop_last(), c);
        assert forall|j: int| 0 <= j < s.len() - 1 implies s[j] == s.drop_last()[j] by {}
    }
}

/// [`last_index`] is the greatest position of `c`.
pub proof fn lemma_last_index(s: Seq<char>, c: char)
    ensures
        match last_index(s, c) {
            Some(i) => 0 <= i < s.len() && s[i] == c && forall|j: int|
                i < j < s.len() ==> s[j] != c,
            None => forall|j: int| 0 <= j < s.len() ==> s[j] != c,
        },
    decreases s.len(),
{
    if s.len() > 0 {
        lemma_last_index(s.drop_last(), c);
        assert forall|j: int| 0 <= j < s.len() - 1 implies s[j] == s.drop_last()[j] by {}
    }
}

/// Finds the first `c`.
pub fn find(s: &Vec<char>, c: char) -> (r: Option<usize>)
    ensures
        match r {
            Some(i) => first_index(s@, c) == Some(i as int) && i < s@.len(),
            None => first_index(s@, c) is None,
        },
{
    proof {
        lemma_first_index(s@, c);
    }
    let mut i: usize = 0;
    while i < s.len()
        invariant
            i <= s@.len(),
            forall|j: int| 0 <= j < i ==> s@[j] != c,
            match first_index(s@, c) {
                Some(k) => 0 <= k < s@.len() && s@[k] == c && forall|j: int|
                    0 <= j < k ==> s@[j] != c,
                None => forall|j: int| 0 <= j < s@.len() ==> s@[j] != c,
            },
        decreases s@.len() - i,
    {
        if s[i] == c {
            return Some(i);
        }
        i += 1;
    }
    None
}

/// Finds the last `c`.
pub fn find_last(s: &Vec<char>, c: char) -> (r: Option<usize>)
    ensures
        match r {
            Some(i) => last_index(s@, c) == Some(i as int) && i < s@.len(),
            None => last_index(s@, c) is None,
        },
{
    proof {
        lemma_last_index(s@, c);
    }
    let mut i: usize = s.len();
    while i > 0
        invariant
            i <= s@.len(),
            forall|j: int| i <= j < s@.len() ==> s@[j] != c,
            match last_index(s@, c) {
                Some(k) => 0 <= k < s@.len() && s@[k] == c && forall|j: int|
                    k < j < s@.len() ==> s@[j] != c,
                None => forall|j: int| 0 <= j < s@.len() ==> s@[j] != c,
            },
        decreases i,
    {
        i -= 1;
        if s[i] == c {
            return Some(i);
        }
    }
    None
}

// ---------------------------------------------------------------------------
// Joining and replacing
// ---------------------------------------------------------------------------

/// The texts with `sep` between neighbours.
pub open spec fn joined(parts: Seq<Seq<char>>, sep: Seq<char>) -> Seq<char>
    decreases parts.len(),
{
    if parts.len() == 0 {
        Seq::empty()
    } else if parts.len() == 1 {
        parts[0]
    } else {
        joined(parts.drop_last(), sep) + sep + parts.last()
    }
}

/// Joins the strings from `from` on with `sep` between neighbours.
pub fn join_from(parts: &Vec<String>, from: usize, sep: &str) -> (r: String)
    requires
        from <= parts@.len(),
    ensures
        r@ == joined(texts(parts@).skip(from as int), sep@),
{
    let ghost all = texts(parts@).skip(from as int);
    let mut out = String::new();
    let mut i: usize = from;
    assert(all.take(0) == Seq::<Seq<char>>::empty());
    while i < parts.len()
        invariant
            from <= i <= parts@.len(),
            all == texts(parts@).skip(from as int),
            out@ == joined(all.take(i - from), sep@),
        decreases parts@.len() - i,
    {
        assert(all.take(i - from + 1).drop_last() == all.take(i - from));
        assert(all[i - from] == parts@[i as int]@);
        if i > from {
            out.append(sep);
        }
        out.append(parts[i].as_str());
        i += 1;
    }
    assert(all.take(parts@.len() - from) == all);
    out
}

/// Joins strings with `sep` between neighbours.
pub fn join(parts: &Vec<String>, sep: &str) -> (r: String)
    ensures
        r@ == joined(texts(parts@), sep@),
{
    assert(texts(parts@).skip(0) == texts(parts@));
    join_from(parts, 0, sep)
}

/// Every occurrence of `p` replaced by `with`, from left to right and without
/// looking again at what was put in.
pub open spec fn replaced(s: Seq<char>, p: Seq<char>, with: Seq<char>) -> Seq<char>
    decreases s.len(),
{
    if s.len() == 0 || p.len() == 0 {
        s
    } else if begins_with(s, p) {
        with + replaced(s.skip(p.len() as int), p, with)
    } else {
        seq![s[0]] + replaced(s.drop_first(), p, with)
    }
}

/// Replaces every occurrence of the non-empty text `p`.
pub fn replace_all(s: &str, p: &str, with: &str) -> (r: String)
    requires
        p@.len() > 0,
    ensures
        r@ == replaced(s@, p@, with@),
{
    let a = chars_of(s);
    let b = chars_of(p);
    let mut out = String::new();
    let mut i: usize = 0;
    assert(s@.skip(0) == s@);
    while i < a.len()
        invariant
            i <= a@.len(),
            a@ == s@,
            b@ == p@,
            p@.len() > 0,
            replaced(s@, p@, with@) == out@ + replaced(s@.skip(i as int), p@, with@),
        decreases a@.len() - i,
    {
        let ghost rest = s@.skip(i as int);
        let ghost done = out@;
        if part_at(&a, &b, i) {
            assert(rest.subrange(0, p@.len() as int) == s@.subrange(i as int, i + p@.len()));
            assert(rest.skip(p@.len() as int) == s@.skip(i + p@.len()));
            out.append(with);
            i += b.len();
            assert(done + (with@ + replaced(s@.skip(i as int), p@, with@)) == out@ + replaced(
                s@.skip(i as int),
                p@,
                with@,
            ));
        } else {
            proof {
                if begins_with(rest, p@) {
                    assert(rest.subrange(0, p@.len() as int) == s@.subrange(i as int, i + p@.len()));
                }
            }
            assert(rest.drop_first() == s@.skip(i + 1));
            out.push(a[i]);
            i += 1;
            assert(done + (seq![s@[i - 1]] + replaced(s@.skip(i as int), p@, with@)) == out@
                + replaced(s@.skip(i as int), p@, with@));
        }
    }
    assert(s@.skip(i as int) == Seq::<char>::empty());
    out
}

// ---------------------------------------------------------------------------
// Words and pieces
// ---------------------------------------------------------------------------

/// Whether no character of `s` separates.
pub open spec fn unbroken(s: Seq<char>, sep: Separator) -> bool {
    forall|i: int| 0 <= i < s.len() ==> !sep.holds(#[trigger] s[i])
}

/// Whether `w` is a word: not empty, and without white space.
pub open spec fn is_word(w: Seq<char>) -> bool {
    w.len() > 0 && unbroken(w, Separator::Space)
}

/// No piece holds a separator.
pub proof fn lemma_pieces_unbroken(s: Seq<char>, sep: Separator)
    ensures
        forall|i: int|
            0 <= i < pieces(s, sep).len() ==> unbroken(#[trigger] pieces(s, sep)[i], sep),
    decreases s.len(),
{
    if s.len() > 0 {
        lemma_pieces_unbroken(s.drop_last(), sep);
        lemma_pieces_nonempty(s.drop_last(), sep);
        let before = pieces(s.drop_last(), sep);
        assert(unbroken(before[before.len() - 1], sep));
        assert forall|i: int| 0 <= i < pieces(s, sep).len() implies unbroken(
            #[trigger] pieces(s, sep)[i],
            sep,
        ) by {
            if i < before.len() - 1 {
                assert(pieces(s, sep)[i] == before[i]);
            }
        }
    }
}

/// What is left of pieces when the empty ones are dropped.
proof fn lemma_nonempty(p: Seq<Seq<char>>)
    ensures
        forall|i: int|
            0 <= i < nonempty(p).len() ==> (#[trigger] nonempty(p)[i]).len() > 0 && p.contains(
                nonempty(p)[i],
            ),
        (forall|i: int| 0 <= i < p.len() ==> (#[trigger] p[i]).len() > 0) ==> nonempty(p) == p,
    decreases p.len(),
{
    if p.len() > 0 {
        let front = p.drop_last();
        lemma_nonempty(front);
        assert(p[p.len() - 1] == p.last());
        assert forall|i: int| 0 <= i < nonempty(p).len() implies (#[trigger] nonempty(p)[i]).len() > 0
            && p.contains(nonempty(p)[i]) by {
            if i < nonempty(front).len() {
                assert(front.contains(nonempty(front)[i]));
                let k = choose|k: int| 0 <= k < front.len() && front[k] == nonempty(front)[i];
                assert(p[k] == nonempty(p)[i]);
            }
        }
        if forall|i: int| 0 <= i < p.len() ==> (#[trigger] p[i]).len() > 0 {
            assert forall|i: int| 0 <= i < front.len() implies (#[trigger] front[i]).len() > 0 by {
                assert(p[i].len() > 0);
            }
            assert(nonempty(p) =~= p);
        }
    }
}

/// The words of a text are words.
pub proof fn lemma_words(s: Seq<char>)
    ensures
        forall|i: int| 0 <= i < words(s).len() ==> is_word(#[trigger] words(s)[i]),
{
    let p = pieces(s, Separator::Space);
    lemma_nonempty(p);
    lemma_pieces_unbroken(s, Separator::Space);
    assert forall|i: int| 0 <= i < words(s).len() implies is_word(#[trigger] words(s)[i]) by {
        assert(p.contains(nonempty(p)[i]));
        let k = choose|k: int| 0 <= k < p.len() && p[k] == nonempty(p)[i];
        assert(unbroken(p[k], Separator::Space));
    }
}

/// Text without separators joins the last piece.
pub proof fn lemma_pieces_append(a: Seq<char>, b: Seq<char>, sep: Separator)
    requires
        unbroken(b, sep),
    ensures
        pieces(a + b, sep) == pieces(a, sep).drop_last().push(pieces(a, sep).last() + b),
    decreases b.len(),
{
    lemma_pieces_nonempty(a, sep);
    if b.len() == 0 {
        assert(a + b =~= a);
        assert(pieces(a, sep).last() + b =~= pieces(a, sep).last());
        assert(pieces(a, sep).drop_last().push(pieces(a, sep).last()) =~= pieces(a, sep));
    } else {
        let front = b.drop_last();
        assert forall|i: int| 0 <= i < front.len() implies !sep.holds(#[trigger] front[i]) by {
            assert(front[i] == b[i]);
        }
        lemma_pieces_append(a, front, sep);
        assert((a + b).drop_last() =~= a + front);
        assert((a + b).last() == b[b.len() - 1]);
        let q = pieces(a + front, sep);
        let last = pieces(a, sep).last();
        assert(q.last() == last + front);
        assert((last + front).push(b.last()) =~= last + b);
        assert(q.drop_last() =~= pieces(a, sep).drop_last());
    }
}

/// Words that are joined by single spaces fall apart into the same words.
pub proof fn joined_words_fall_apart_again(w: Seq<Seq<char>>)
    requires
        forall|i: int| 0 <= i < w.len() ==> is_word(#[trigger] w[i]),
    ensures
        words(joined(w, " "@)) == w,
{
    reveal_strlit(" ");
    let s = joined(w, " "@);
    if w.len() == 0 {
        let p = pieces(s, Separator::Space);
        assert(p =~= seq![Seq::<char>::empty()]);
        assert(p.drop_last().len() == 0);
        assert(nonempty(p.drop_last()).len() == 0);
        assert(nonempty(p) =~= w);
    } else {
        lemma_joined_pieces(w);
        lemma_nonempty(w);
        assert forall|i: int| 0 <= i < w.len() implies (#[trigger] w[i]).len() > 0 by {
            assert(is_word(w[i]));
        }
    }
}

/// The pieces of joined words are the words.
proof fn lemma_joined_pieces(w: Seq<Seq<char>>)
    requires
        w.len() > 0,
        forall|i: int| 0 <= i < w.len() ==> is_word(#[trigger] w[i]),
    ensures
        pieces(joined(w, " "@), Separator::Space) == w,
    decreases w.len(),
{
    reveal_strlit(" ");
    let sep = Separator::Space;
    let last = w.last();
    assert(is_word(w[w.len() - 1]));
    if w.len() == 1 {
        let e = Seq::<char>::empty();
        lemma_pieces_append(e, last, sep);
        assert(e + last =~= last);
        assert(pieces(e, sep) =~= seq![e]);
        assert(pieces(last, sep) =~= w);
    } else {
        let front = w.drop_last();
        assert forall|i: int| 0 <= i < front.len() implies is_word(#[trigger] front[i]) by {
            assert(is_word(w[i]));
        }
        lemma_joined_pieces(front);
        let head = joined(front, " "@);
        let spaced = head + " "@;
        assert(spaced =~= head.push(' '));
        assert(spaced.drop_last() =~= head);
        assert(pieces(spaced, sep) == front.push(Seq::<char>::empty()));
        lemma_pieces_append(spaced, last, sep);
        assert(Seq::<char>::empty() + last =~= last);
        assert(pieces(spaced + last, sep) =~= w);
    }
}

/// A text without line ends is its own first line.
pub proof fn lemma_single_line(s: Seq<char>)
    requires
        forall|i: int| 0 <= i < s.len() ==> #[trigger] s[i] != '\n',
    ensures
        first_line(s) == s,
{
    let sep = Separator::Char('\n');
    let e = Seq::<char>::empty();
    lemma_pieces_append(e, s, sep);
    assert(e + s =~= s);
    assert(pieces(e, sep) =~= seq![e]);
    assert(pieces(s, sep) =~= seq![s]);
    if s.len() == 0 {
        assert(first_line(s) =~= s);
    }
}

// ---------------------------------------------------------------------------
// What splitting gives
// ---------------------------------------------------------------------------

/// Whether the characters from `lo` up to `hi` are a run between separators, with
/// a separator or an end of the text on either side.
pub open spec fn is_run(s: Seq<char>, sep: Separator, lo: int, hi: int) -> bool {
    &&& 0 <= lo <= hi <= s.len()
    &&& forall|k: int| lo <= k < hi ==> !sep.holds(#[trigger] s[k])
    &&& lo == 0 || sep.holds(s[lo - 1])
    &&& hi == s.len() || sep.holds(s[hi])
}

/// The pieces of a text are its runs between separators.
pub proof fn pieces_are_the_runs(s: Seq<char>, sep: Separator, w: Seq<char>)
    ensures
        pieces(s, sep).contains(w) <==> exists|lo: int, hi: int| #[trigger]
            is_run(s, sep, lo, hi) && w == s.subrange(lo, hi),
{
    let p = pieces(s, sep);
    if p.contains(w) {
        let i = choose|i: int| 0 <= i < p.len() && p[i] == w;
        let (lo, hi) = lemma_piece_run(s, sep, i);
        assert(is_run(s, sep, lo, hi));
    }
    if exists|lo: int, hi: int| #[trigger] is_run(s, sep, lo, hi) && w == s.subrange(lo, hi) {
        let (lo, hi) = choose|lo: int, hi: int| #[trigger]
            is_run(s, sep, lo, hi) && w == s.subrange(lo, hi);
        let i = lemma_run_piece(s, sep, lo, hi);
        assert(p[i] == w);
    }
}

/// Where a piece stands; the last one stands at the end.
proof fn lemma_piece_run(s: Seq<char>, sep: Separator, i: int) -> (r: (int, int))
    requires
        0 <= i < pieces(s, sep).len(),
    ensures
        is_run(s, sep, r.0, r.1),
        pieces(s, sep)[i] == s.subrange(r.0, r.1),
        i == pieces(s, sep).len() - 1 ==> r.1 == s.len(),
        i < pieces(s, sep).len() - 1 ==> r.1 < s.len(),
    decreases s.len(),
{
    if s.len() == 0 {
        assert(pieces(s, sep)[i] =~= s.subrange(0, 0));
        (0, 0)
    } else {
        let front = s.drop_last();
        let before = pieces(front, sep);
        let n = s.len() as int;
        lemma_pieces_nonempty(front, sep);
        if sep.holds(s.last()) {
            if i < before.len() {
                let (lo, hi) = lemma_piece_run(front, sep, i);
                assert(front.subrange(lo, hi) =~= s.subrange(lo, hi));
                assert forall|k: int| lo <= k < hi implies !sep.holds(#[trigger] s[k]) by {
                    assert(front[k] == s[k]);
                }
                if lo > 0 {
                    assert(front[lo - 1] == s[lo - 1]);
                }
                if hi < front.len() {
                    assert(front[hi] == s[hi]);
                }
                (lo, hi)
            } else {
                assert(pieces(s, sep)[i] =~= s.subrange(n, n));
                (n, n)
            }
        } else {
            let (lo, hi) = lemma_piece_run(front, sep, i);
            assert forall|k: int| lo <= k < hi implies !sep.holds(#[trigger] s[k]) by {
                assert(front[k] == s[k]);
            }
            if lo > 0 {
                assert(front[lo - 1] == s[lo - 1]);
            }
            if i < before.len() - 1 {
                assert(front.subrange(lo, hi) =~= s.subrange(lo, hi));
                assert(front[hi] == s[hi]);
                (lo, hi)
            } else {
                assert(front.subrange(lo, hi).push(s.last()) =~= s.subrange(lo, n));
                (lo, n)
            }
        }
    }
}

/// Every run is a piece; one at the end is the last.
proof fn lemma_run_piece(s: Seq<char>, sep: Separator, lo: int, hi: int) -> (i: int)
    requires
        is_run(s, sep, lo, hi),
    ensures
        0 <= i < pieces(s, sep).len(),
        pieces(s, sep)[i] == s.subrange(lo, hi),
        hi == s.len() ==> i == pieces(s, sep).len() - 1,
        hi < s.len() ==> i < pieces(s, sep).len() - 1,
    decreases s.len(),
{
    if s.len() == 0 {
        assert(pieces(s, sep)[0] =~= s.subrange(lo, hi));
        0
    } else {
        let front = s.drop_last();
        let before = pieces(front, sep);
        let n = s.len() as int;
        lemma_pieces_nonempty(front, sep);
        if lo == n {
            assert(sep.holds(s.last()));
            assert(pieces(s, sep)[before.len() as int] =~= s.subrange(lo, hi));
            before.len() as int
        } else {
            let end = if hi == n {
                n - 1
            } else {
                hi
            };
            assert forall|k: int| lo <= k < end implies !sep.holds(#[trigger] front[k]) by {
                assert(front[k] == s[k]);
            }
            if lo > 0 {
                assert(front[lo - 1] == s[lo - 1]);
            }
            if end < front.len() {
                assert(front[end] == s[end]);
            }
            let i = lemma_run_piece(front, sep, lo, end);
            if hi == n {
                assert(s[n - 1] == s.last());
                assert(!sep.holds(s.last()));
                assert(front.subrange(lo, end).push(s.last()) =~= s.subrange(lo, hi));
            } else {
                assert(front.subrange(lo, end) =~= s.subrange(lo, hi));
                if !sep.holds(s.last()) {
                    assert(hi < n - 1) by {
                        if hi == n - 1 {
                            assert(s[hi] == s.last());
                        }
                    }
                }
            }
            i
        }
    }
}

/// A part stands in a text where its characters do.
pub proof fn parts_stand_character_by_character(s: Seq<char>, p: Seq<char>, i: int)
    ensures
        stands_at(s, p, i) <==> 0 <= i && i + p.len() <= s.len() && forall|k: int|
            0 <= k < p.len() ==> s[i + k] == #[trigger] p[k],
{
    if 0 <= i && i + p.len() <= s.len() {
        let q = s.subrange(i, i + p.len());
        if q == p {
            assert forall|k: int| 0 <= k < p.len() implies s[i + k] == #[trigger] p[k] by {
                assert(q[k] == s[i + k]);
            }
        }
        if forall|k: int| 0 <= k < p.len() ==> s[i + k] == #[trigger] p[k] {
            assert(q =~= p);
        }
    }
}

/// The words of spaces.
proof fn lemma_only_spaces(a: Seq<char>)
    requires
        forall|i: int| 0 <= i < a.len() ==> is_space(#[trigger] a[i]),
    ensures
        nonempty(pieces(a, Separator::Space)) == Seq::<Seq<char>>::empty(),
        pieces(a, Separator::Space).last() == Seq::<char>::empty(),
    decreases a.len(),
{
    let sep = Separator::Space;
    let p = pieces(a, sep);
    let e = Seq::<char>::empty();
    if a.len() == 0 {
        assert(p =~= seq![e]);
        assert(p.drop_last() =~= Seq::empty());
        assert(nonempty(p.drop_last()) =~= Seq::empty());
    } else {
        let front = a.drop_last();
        assert forall|i: int| 0 <= i < front.len() implies is_space(#[trigger] front[i]) by {
            assert(front[i] == a[i]);
        }
        lemma_only_spaces(front);
        assert(is_space(a[a.len() - 1]));
        assert(p == pieces(front, sep).push(e));
        assert(p.drop_last() =~= pieces(front, sep));
    }
}

/// What follows a space adds words and leaves those before as they are.
proof fn lemma_more_words(a: Seq<char>, b: Seq<char>)
    requires
        a.len() > 0,
        is_space(a.last()),
    ensures
        pieces(a + b, Separator::Space) == pieces(a, Separator::Space).drop_last() + pieces(
            b,
            Separator::Space,
        ),
{
    lemma_more_pieces(a, b, Separator::Space);
    assert(pieces(a, Separator::Space).drop_last() =~= pieces(a.drop_last(), Separator::Space));
}

/// The words of two lists of pieces.
proof fn lemma_nonempty_both(p: Seq<Seq<char>>, q: Seq<Seq<char>>)
    ensures
        nonempty(p + q) == nonempty(p) + nonempty(q),
    decreases q.len(),
{
    if q.len() == 0 {
        assert(p + q =~= p);
        assert(nonempty(p) + nonempty(q) =~= nonempty(p));
    } else {
        lemma_nonempty_both(p, q.drop_last());
        assert((p + q).drop_last() =~= p + q.drop_last());
        assert((p + q).last() == q.last());
        if q.last().len() > 0 {
            assert((nonempty(p) + nonempty(q.drop_last())).push(q.last()) =~= nonempty(p)
                + nonempty(q.drop_last()).push(q.last()));
        }
    }
}

/// A text falls into words at its white space: text after white space adds its
/// words to those before it, and white space around a word leaves the word.
pub proof fn words_stand_between_spaces(a: Seq<char>, b: Seq<char>, w: Seq<char>)
    requires
        forall|i: int| 0 <= i < w.len() ==> !is_space(#[trigger] w[i]),
    ensures
        a.len() > 0 && is_space(a.last()) ==> words(a + b) == words(a) + words(b),
        (forall|i: int| 0 <= i < a.len() ==> is_space(#[trigger] a[i])) ==> words(a).len() == 0,
        w.len() > 0 ==> words(w) == seq![w],
        w.len() > 0 && b.len() > 0 && is_space(b[0]) ==> words(w + b) == seq![w] + words(b),
{
    let sep = Separator::Space;
    let e = Seq::<char>::empty();
    if a.len() > 0 && is_space(a.last()) {
        lemma_more_words(a, b);
        let front = a.drop_last();
        let p = pieces(front, sep);
        lemma_pieces_nonempty(front, sep);
        assert(pieces(a, sep) == p.push(e));
        assert(pieces(a, sep).drop_last() =~= p);
        lemma_nonempty_both(p, pieces(b, sep));
        assert(nonempty(p.push(e)) == nonempty(p)) by {
            assert(p.push(e).drop_last() =~= p);
        }
    }
    if forall|i: int| 0 <= i < a.len() ==> is_space(#[trigger] a[i]) {
        lemma_only_spaces(a);
    }
    if w.len() > 0 {
        lemma_pieces_append(e, w, sep);
        assert(e + w =~= w);
        assert(pieces(e, sep) =~= seq![e]);
        assert(pieces(w, sep) =~= seq![w]);
        assert(seq![w].drop_last() =~= Seq::empty());
        assert(nonempty(seq![w].drop_last()) =~= Seq::empty());
        assert(words(w) =~= seq![w]);
        if b.len() > 0 && is_space(b[0]) {
            let c = w.push(b[0]);
            let rest = b.skip(1);
            assert(w + b =~= c + rest);
            lemma_more_words(c, rest);
            assert(c.drop_last() =~= w);
            assert(pieces(c, sep) == pieces(w, sep).push(e));
            assert(pieces(c, sep).drop_last() =~= seq![w]);
            lemma_nonempty_both(seq![w], pieces(rest, sep));
            let space = seq![b[0]];
            assert(b =~= space + rest);
            lemma_more_words(space, rest);
            lemma_only_spaces(space);
            assert(pieces(space, sep) =~= seq![e, e]) by {
                assert(space.drop_last() =~= e);
            }
            assert(pieces(space, sep).drop_last() =~= seq![e]);
            lemma_nonempty_both(seq![e], pieces(rest, sep));
            assert(nonempty(seq![e]) =~= Seq::empty()) by {
                assert(seq![e].drop_last() =~= Seq::empty());
            }
            assert(nonempty(seq![w]) =~= seq![w]);
            assert(words(b) =~= words(rest));
        }
    }
}

/// The first word of a text is what stands before its next white space.
pub proof fn the_first_word_comes_first(a: Seq<char>, w: Seq<char>, b: Seq<char>)
    requires
        forall|i: int| 0 <= i < a.len() ==> is_space(#[trigger] a[i]),
        w.len() > 0,
        forall|i: int| 0 <= i < w.len() ==> !is_space(#[trigger] w[i]),
        b.len() == 0 || is_space(b[0]),
    ensures
        first_word(a + w + b) == w,
        first_word(a) == Seq::<char>::empty(),
{
    let wb = w + b;
    words_stand_between_spaces(a, wb, w);
    words_stand_between_spaces(a, b, w);
    if b.len() == 0 {
        assert(wb =~= w);
    }
    assert(words(wb)[0] == w);
    assert(a + w + b =~= a + wb);
    if a.len() == 0 {
        assert(a + wb =~= wb);
    } else {
        assert(is_space(a[a.len() - 1]));
        assert(words(a + wb) =~= words(wb));
    }
}

/// What follows a separator is separated on its own.
pub proof fn lemma_more_pieces(a: Seq<char>, b: Seq<char>, sep: Separator)
    requires
        a.len() > 0,
        sep.holds(a.last()),
    ensures
        pieces(a + b, sep) == pieces(a.drop_last(), sep) + pieces(b, sep),
    decreases b.len(),
{
    let e = Seq::<char>::empty();
    let head = pieces(a.drop_last(), sep);
    lemma_pieces_nonempty(a.drop_last(), sep);
    if b.len() == 0 {
        assert(a + b =~= a);
        assert(head.push(e) =~= head + seq![e]);
    } else {
        let c = b.drop_last();
        lemma_more_pieces(a, c, sep);
        lemma_pieces_nonempty(c, sep);
        assert((a + b).drop_last() =~= a + c);
        let q = pieces(c, sep);
        let w = head + q;
        assert(w.last() == q.last());
        if sep.holds(b.last()) {
            assert(w.push(e) =~= head + q.push(e));
        } else {
            assert(w.drop_last().push(w.last().push(b.last())) =~= head + q.drop_last().push(
                q.last().push(b.last()),
            ));
        }
    }
}

/// A line ends at the next line break, without the carriage return before it; a last
/// line without a break is taken as it is, and nothing behind the last break is no
/// line.
pub proof fn lines_end_at_their_breaks(a: Seq<char>, b: Seq<char>)
    requires
        forall|i: int| 0 <= i < a.len() ==> #[trigger] a[i] != '\n',
    ensures
        lines(a.push('\n') + b) == seq![
            if a.len() > 0 && a.last() == '\r' {
                a.drop_last()
            } else {
                a
            },
        ] + lines(b),
        a.len() > 0 ==> lines(a) == seq![a],
        lines(Seq::empty()) == Seq::<Seq<char>>::empty(),
        first_line(a.push('\n') + b) == if a.len() > 0 && a.last() == '\r' {
            a.drop_last()
        } else {
            a
        },
        first_line(a) == a,
{
    let sep = Separator::Char('\n');
    let e = Seq::<char>::empty();
    lemma_pieces_append(e, a, sep);
    assert(e + a =~= a);
    assert(pieces(e, sep) =~= seq![e]);
    assert(pieces(a, sep) =~= seq![a]);
    let c = a.push('\n');
    assert(c.drop_last() =~= a);
    lemma_more_pieces(c, b, sep);
    lemma_pieces_nonempty(b, sep);
    let p = pieces(c + b, sep);
    let q = pieces(b, sep);
    assert(p =~= seq![a] + q);
    assert(p.last() == q.last());
    let first = strip_cr(a);
    let ended = Seq::new((p.len() - 1) as nat, |i: int| strip_cr(p[i]));
    let rest = Seq::new((q.len() - 1) as nat, |i: int| strip_cr(q[i]));
    assert(ended =~= seq![first] + rest);
    assert(lines(c + b) =~= seq![first] + lines(b));
    if a.len() > 0 {
        assert(lines(a) =~= seq![a]);
    }
    assert(lines(e) =~= Seq::empty());
}

/// White space at the ends of a text is trimmed, and nothing else.
pub proof fn trimming_takes_the_space_around(a: Seq<char>, s: Seq<char>, b: Seq<char>)
    requires
        forall|i: int| 0 <= i < a.len() ==> is_space(#[trigger] a[i]),
        forall|i: int| 0 <= i < b.len() ==> is_space(#[trigger] b[i]),
        s.len() > 0 ==> !is_space(s[0]) && !is_space(s.last()),
    ensures
        trimmed(a + s + b) == s,
        s.len() > 0 ==> trim_left(a + s + b) == s + b,
{
    lemma_trim_left(a, s + b);
    assert(a + s + b =~= a + (s + b));
    if s.len() == 0 {
        assert(s + b =~= b);
        lemma_trim_left(b, s);
        assert(b + s =~= b);
        assert(trim_left(s) == s);
        assert(trim_right(s) == s);
    } else {
        assert((s + b)[0] == s[0]);
        assert(trim_left(s + b) == s + b);
        lemma_trim_right(s, b);
        assert(trim_right(s) == s);
    }
}

/// White space at the beginning is trimmed first.
proof fn lemma_trim_left(a: Seq<char>, s: Seq<char>)
    requires
        forall|i: int| 0 <= i < a.len() ==> is_space(#[trigger] a[i]),
    ensures
        trim_left(a + s) == trim_left(s),
    decreases a.len(),
{
    if a.len() == 0 {
        assert(a + s =~= s);
    } else {
        assert(is_space(a[0]));
        assert((a + s)[0] == a[0]);
        assert((a + s).drop_first() =~= a.drop_first() + s);
        assert forall|i: int| 0 <= i < a.drop_first().len() implies is_space(
            #[trigger] a.drop_first()[i],
        ) by {
            assert(a.drop_first()[i] == a[i + 1]);
        }
        lemma_trim_left(a.drop_first(), s);
    }
}

/// White space at the end is trimmed.
proof fn lemma_trim_right(s: Seq<char>, b: Seq<char>)
    requires
        forall|i: int| 0 <= i < b.len() ==> is_space(#[trigger] b[i]),
    ensures
        trim_right(s + b) == trim_right(s),
    decreases b.len(),
{
    if b.len() == 0 {
        assert(s + b =~= s);
    } else {
        assert(is_space(b[b.len() - 1]));
        assert((s + b).last() == b[b.len() - 1]);
        assert((s + b).drop_last() =~= s + b.drop_last());
        assert forall|i: int| 0 <= i < b.drop_last().len() implies is_space(
            #[trigger] b.drop_last()[i],
        ) by {
            assert(b.drop_last()[i] == b[i]);
        }
        lemma_trim_right(s, b.drop_last());
    }
}

/// A replacement goes from left to right: text in which the part does not begin stays,
/// the part is replaced, and the rest is done likewise.
pub proof fn replacing_goes_from_left_to_right(
    s: Seq<char>,
    p: Seq<char>,
    with: Seq<char>,
)
    requires
        p.len() > 0,
    ensures
        replaced(p + s, p, with) == with + replaced(s, p, with),
        !has_part(s, p) ==> replaced(s, p, with) == s,
        s.len() > 0 && (exists|k: int|
            0 <= k < p.len() && (k >= s.len() || s[k] != #[trigger] p[k])) ==> replaced(s, p, with)
            == seq![s[0]] + replaced(s.drop_first(), p, with),
    decreases s.len(),
{
    let ps = p + s;
    assert(ps.subrange(0, p.len() as int) =~= p);
    assert(ps.skip(p.len() as int) =~= s);
    if s.len() > 0 {
        let rest = s.drop_first();
        replacing_goes_from_left_to_right(rest, p, with);
        if !has_part(s, p) {
            assert(!stands_at(s, p, 0));
            if has_part(rest, p) {
                let i = choose|i: int| #[trigger] stands_at(rest, p, i);
                assert(s.subrange(i + 1, i + 1 + p.len()) =~= rest.subrange(i, i + p.len()));
                assert(stands_at(s, p, i + 1));
            }
            assert(seq![s[0]] + rest =~= s);
        }
        if exists|k: int| 0 <= k < p.len() && (k >= s.len() || s[k] != #[trigger] p[k]) {
            parts_stand_character_by_character(s, p, 0);
            let k = choose|k: int| 0 <= k < p.len() && (k >= s.len() || s[k] != #[trigger] p[k]);
            if begins_with(s, p) {
                assert(s[0 + k] == p[k]);
            }
        }
    }
}

/// Parts are joined in order, with the separator between each two.
pub proof fn joining_puts_the_separator_between(
    a: Seq<Seq<char>>,
    b: Seq<Seq<char>>,
    x: Seq<char>,
    sep: Seq<char>,
)
    ensures
        joined(Seq::empty(), sep) == Seq::<char>::empty(),
        joined(seq![x], sep) == x,
        a.len() > 0 && b.len() > 0 ==> joined(a + b, sep) == joined(a, sep) + sep + joined(b, sep),
    decreases b.len(),
{
    if a.len() > 0 && b.len() > 0 {
        let c = b.drop_last();
        assert((a + b).drop_last() =~= a + c);
        assert((a + b).last() == b.last());
        if c.len() == 0 {
            assert(a + c =~= a);
            assert(joined(b, sep) == b[0]);
        } else {
            joining_puts_the_separator_between(a, c, x, sep);
            assert(joined(a, sep) + sep + joined(c, sep) + sep + b.last() =~= joined(a, sep) + sep
                + (joined(c, sep) + sep + b.last()));
        }
    }
}



/// A text has every part that stands in it.
pub proof fn lemma_has_part(a: Seq<char>, p: Seq<char>, b: Seq<char>)
    ensures
        has_part(a + p + b, p),
{
    let s = a + p + b;
    let i = a.len() as int;
    assert(s.subrange(i, i + p.len()) =~= p);
    assert(stands_at(s, p, i));
}

/// White space are these twenty-five characters, by their numbers.
pub proof fn white_space_by_number(c: char)
    ensures
        is_space(c) <==> seq![
            9int, 10, 11, 12, 13, 32, 133, 160, 5760, 8192, 8193, 8194, 8195, 8196, 8197, 8198,
            8199, 8200, 8201, 8202, 8232, 8233, 8239, 8287, 12288,
        ].contains(c as int),
{
    let s = seq![
        9int, 10, 11, 12, 13, 32, 133, 160, 5760, 8192, 8193, 8194, 8195, 8196, 8197, 8198,
        8199, 8200, 8201, 8202, 8232, 8233, 8239, 8287, 12288,
    ];
    assert(s[0] == 9 && s[1] == 10 && s[2] == 11 && s[3] == 12 && s[4] == 13 && s[5] == 32 && s[6]
        == 133 && s[7] == 160 && s[8] == 5760);
    assert(s[9] == 8192 && s[10] == 8193 && s[11] == 8194 && s[12] == 8195 && s[13] == 8196 && s[14]
        == 8197 && s[15] == 8198 && s[16] == 8199);
    assert(s[17] == 8200 && s[18] == 8201 && s[19] == 8202 && s[20] == 8232 && s[21] == 8233
        && s[22] == 8239 && s[23] == 8287 && s[24] == 12288);
}

/// The letters and digits among the first characters, by their numbers, and how letters
/// change their case.
pub proof fn letters_and_digits_by_number(c: char)
    ensures
        (c as int) < 128 ==> (is_alphanumeric(c) <==> 48 <= c as int <= 57 || 65 <= c as int <= 90
            || 97 <= c as int <= 122),
        is_ascii_digit(c) <==> 48 <= c as int <= 57,
        65 <= c as int <= 90 ==> ascii_lower(c) as int == c as int + 32 && ascii_upper(c) == c,
        97 <= c as int <= 122 ==> ascii_upper(c) as int == c as int - 32 && ascii_lower(c) == c,
        !(65 <= c as int <= 90) ==> ascii_lower(c) == c,
        !(97 <= c as int <= 122) ==> ascii_upper(c) == c,
{
}

} // verus!
