//! The palette of the full-screen view.
use crate::path::{below, path_below};
use crate::text::{
    chars_of, is_space, opt_text, same, trim, trimmed, trimming_takes_the_space_around,
};
use vstd::prelude::*;

verus! {

/// A colour: one of the terminal's own or a mixture.
#[derive(Clone, Copy, PartialEq, Eq, Debug, Structural)]
pub enum Color {
    Reset,
    Blue,
    Green,
    Yellow,
    Red,
    DarkGray,
    Cyan,
    Magenta,
    Rgb(u8, u8, u8),
}

/// The colours of the parts of the view.
#[derive(Clone, Copy, PartialEq, Eq, Debug, Structural)]
pub struct Theme {
    pub accent: Color,
    pub ok: Color,
    pub warn: Color,
    pub err: Color,
    pub dim: Color,
    pub text: Color,
    pub highlight_bg: Color,
    pub seq: Color,
    pub fixloop: Color,
    pub failure: Color,
    pub intent: Color,
    pub prompt: Color,
}

/// Slate, sage and sand: the muted palette.
pub open spec fn muted_theme() -> Theme {
    Theme {
        accent: Color::Rgb(122, 140, 178),
        ok: Color::Rgb(140, 168, 138),
        warn: Color::Rgb(200, 172, 122),
        err: Color::Rgb(186, 122, 122),
        dim: Color::Rgb(110, 112, 122),
        text: Color::Rgb(200, 202, 210),
        highlight_bg: Color::Rgb(44, 47, 58),
        seq: Color::Rgb(122, 140, 178),
        fixloop: Color::Rgb(200, 172, 122),
        failure: Color::Rgb(186, 122, 122),
        intent: Color::Rgb(122, 168, 160),
        prompt: Color::Rgb(158, 140, 178),
    }
}

/// The colours that the terminal already has.
pub open spec fn terminal_theme() -> Theme {
    Theme {
        accent: Color::Blue,
        ok: Color::Green,
        warn: Color::Yellow,
        err: Color::Red,
        dim: Color::DarkGray,
        text: Color::Reset,
        highlight_bg: Color::DarkGray,
        seq: Color::Blue,
        fixloop: Color::Yellow,
        failure: Color::Red,
        intent: Color::Cyan,
        prompt: Color::Magenta,
    }
}

impl Theme {
    /// The muted palette.
    pub fn muted() -> (r: Self)
        ensures
            r == muted_theme(),
    {
        Theme {
            accent: Color::Rgb(122, 140, 178),
            ok: Color::Rgb(140, 168, 138),
            warn: Color::Rgb(200, 172, 122),
            err: Color::Rgb(186, 122, 122),
            dim: Color::Rgb(110, 112, 122),
            text: Color::Rgb(200, 202, 210),
            highlight_bg: Color::Rgb(44, 47, 58),
            seq: Color::Rgb(122, 140, 178),
            fixloop: Color::Rgb(200, 172, 122),
            failure: Color::Rgb(186, 122, 122),
            intent: Color::Rgb(122, 168, 160),
            prompt: Color::Rgb(158, 140, 178),
        }
    }

    /// The terminal's own palette.
    pub fn terminal() -> (r: Self)
        ensures
            r == terminal_theme(),
    {
        Theme {
            accent: Color::Blue,
            ok: Color::Green,
            warn: Color::Yellow,
            err: Color::Red,
            dim: Color::DarkGray,
            text: Color::Reset,
            highlight_bg: Color::DarkGray,
            seq: Color::Blue,
            fixloop: Color::Yellow,
            failure: Color::Red,
            intent: Color::Cyan,
            prompt: Color::Magenta,
        }
    }

    /// The colour of a kind of pattern.
    pub open spec fn kind_color(self, kind: Seq<char>) -> Color {
        if kind == "sequence"@ {
            self.seq
        } else if kind == "fixloop"@ {
            self.fixloop
        } else if kind == "failure"@ {
            self.failure
        } else if kind == "intent"@ {
            self.intent
        } else if kind == "prompt"@ {
            self.prompt
        } else {
            self.text
        }
    }

    /// The colour of a kind of pattern.
    pub fn kind(&self, kind: &str) -> (r: Color)
        ensures
            r == self.kind_color(kind@),
    {
        if same(kind, "sequence") {
            self.seq
        } else if same(kind, "fixloop") {
            self.fixloop
        } else if same(kind, "failure") {
            self.failure
        } else if same(kind, "intent") {
            self.intent
        } else if same(kind, "prompt") {
            self.prompt
        } else {
            self.text
        }
    }
}

// ---------------------------------------------------------------------------
// Hexadecimal colours
// ---------------------------------------------------------------------------

/// The value of a hexadecimal digit.
pub open spec fn hex_digit(c: char) -> Option<nat> {
    if '0' <= c <= '9' {
        Some((c as nat - 0x30) as nat)
    } else if 'a' <= c <= 'f' {
        Some((c as nat - 0x61 + 10) as nat)
    } else if 'A' <= c <= 'F' {
        Some((c as nat - 0x41 + 10) as nat)
    } else {
        None
    }
}

/// The number that hexadecimal digits denote.
pub open spec fn hex_digits(s: Seq<char>) -> Option<nat>
    decreases s.len(),
{
    if s.len() == 0 {
        Some(0)
    } else {
        match (hex_digits(s.drop_last()), hex_digit(s.last())) {
            (Some(n), Some(d)) => Some(16 * n + d),
            _ => None,
        }
    }
}

/// The number that six characters denote: digits, or a plus sign and digits.
pub open spec fn hex_number(s: Seq<char>) -> Option<nat> {
    if s.len() != 6 {
        None
    } else if s[0] == '+' {
        hex_digits(s.skip(1))
    } else {
        hex_digits(s)
    }
}

/// A text without number signs at its start.
pub open spec fn without_marks(s: Seq<char>) -> Seq<char>
    decreases s.len(),
{
    if s.len() > 0 && s[0] == '#' {
        without_marks(s.skip(1))
    } else {
        s
    }
}

/// The colour with the given number.
pub open spec fn mixture(n: nat) -> Color {
    Color::Rgb((n / 65536 % 256) as u8, (n / 256 % 256) as u8, (n % 256) as u8)
}

/// The colour that a text such as `#7a8cb2` denotes.
pub open spec fn hex_color(s: Seq<char>) -> Option<Color> {
    match hex_number(without_marks(trimmed(s))) {
        Some(n) => Some(mixture(n)),
        None => None,
    }
}

/// Reads a hexadecimal digit.
fn read_hex_digit(c: char) -> (r: Option<u32>)
    ensures
        (match r {
            Some(d) => Some(d as nat),
            None => None,
        }) == hex_digit(c),
        r is Some ==> r->0 < 16,
{
    let n: u32 = c as u32;
    if '0' <= c && c <= '9' {
        Some(n - 0x30)
    } else if 'a' <= c && c <= 'f' {
        Some(n - 0x61 + 10)
    } else if 'A' <= c && c <= 'F' {
        Some(n - 0x41 + 10)
    } else {
        None
    }
}

/// Reads the hexadecimal digits from `from` up to `to`.
fn read_hex_digits(v: &Vec<char>, from: usize, to: usize) -> (r: Option<u32>)
    requires
        from <= to <= v@.len(),
        to - from <= 6,
    ensures
        (match r {
            Some(n) => Some(n as nat),
            None => None,
        }) == hex_digits(v@.subrange(from as int, to as int)),
        r is Some ==> r->0 < 0x100_0000,
{
    let ghost s = v@.subrange(from as int, to as int);
    let mut n: u32 = 0;
    let mut bound: u32 = 1;
    let mut i: usize = from;
    assert(s.take(0).len() == 0);
    while i < to
        invariant
            from <= i <= to <= v@.len(),
            to - from <= 6,
            s == v@.subrange(from as int, to as int),
            hex_digits(s.take(i - from)) == Some(n as nat),
            n < bound,
            i - from == 0 ==> bound == 1,
            i - from == 1 ==> bound == 0x10,
            i - from == 2 ==> bound == 0x100,
            i - from == 3 ==> bound == 0x1000,
            i - from == 4 ==> bound == 0x1_0000,
            i - from == 5 ==> bound == 0x10_0000,
            i - from == 6 ==> bound == 0x100_0000,
        decreases to - i,
    {
        assert(s.take(i - from + 1).drop_last() =~= s.take(i - from));
        assert(s.take(i - from + 1).last() == v@[i as int]);
        match read_hex_digit(v[i]) {
            Some(d) => {
                n = n * 16 + d;
                bound = bound * 16;
            },
            None => {
                proof {
                    lemma_hex_prefix(s, i - from + 1);
                }
                return None;
            },
        }
        i += 1;
    }
    assert(s.take(to - from) =~= s);
    Some(n)
}

/// Digits that cannot be read spoil the whole.
proof fn lemma_hex_prefix(s: Seq<char>, n: int)
    requires
        0 <= n <= s.len(),
        hex_digits(s.take(n)) is None,
    ensures
        hex_digits(s) is None,
    decreases s.len() - n,
{
    if n < s.len() {
        assert(s.take(n + 1).drop_last() =~= s.take(n));
        lemma_hex_prefix(s, n + 1);
    } else {
        assert(s.take(n) =~= s);
    }
}

/// The colour that a text such as `#7a8cb2` denotes.
pub fn parse_hex(s: &str) -> (r: Option<Color>)
    ensures
        r == hex_color(s@),
{
    let t = chars_of(trim(s).as_str());
    let n: usize = t.len();
    let ghost tv = trimmed(s@);
    let mut k: usize = 0;
    assert(tv.skip(0) =~= tv);
    while k < n && t[k] == '#'
        invariant
            k <= n == t@.len(),
            t@ == tv,
            without_marks(tv) == without_marks(tv.skip(k as int)),
        decreases n - k,
    {
        assert(tv.skip(k as int).skip(1) =~= tv.skip(k + 1));
        k += 1;
    }
    let ghost hex = tv.skip(k as int);
    assert(without_marks(hex) == hex);
    if n - k != 6 {
        return None;
    }
    let from: usize = if t[k] == '+' {
        k + 1
    } else {
        k
    };
    assert(t@.subrange(k as int, n as int) =~= hex);
    assert(t@.subrange(k + 1, n as int) =~= hex.skip(1));
    match read_hex_digits(&t, from, n) {
        Some(v) => {
            let red: u32 = v / 65536 % 256;
            let green: u32 = v / 256 % 256;
            let blue: u32 = v % 256;
            Some(Color::Rgb(red as u8, green as u8, blue as u8))
        },
        None => None,
    }
}

// ---------------------------------------------------------------------------
// Overrides
// ---------------------------------------------------------------------------

/// The colours that a configuration gives, as texts.
pub struct ColorOverrides {
    pub accent: Option<String>,
    pub ok: Option<String>,
    pub warn: Option<String>,
    pub err: Option<String>,
    pub dim: Option<String>,
    pub text: Option<String>,
    pub highlight_bg: Option<String>,
    pub seq: Option<String>,
    pub fixloop: Option<String>,
    pub failure: Option<String>,
    pub intent: Option<String>,
    pub prompt: Option<String>,
}

/// A colour, or what a configuration gives instead where that can be read.
pub open spec fn overridden(base: Color, given: Option<Seq<char>>) -> Color {
    match given {
        Some(s) => match hex_color(s) {
            Some(c) => c,
            None => base,
        },
        None => base,
    }
}

/// Computes [`overridden`].
fn pick(base: Color, given: &Option<String>) -> (r: Color)
    ensures
        r == overridden(base, opt_text(*given)),
{
    match given {
        Some(s) => match parse_hex(s.as_str()) {
            Some(c) => c,
            None => base,
        },
        None => base,
    }
}

/// The theme of a configuration: the terminal's own palette where it is asked
/// for, else the muted one; with the colours that are given in its place.
pub open spec fn configured_theme(name: Option<Seq<char>>, o: ColorOverrides) -> Theme {
    let base = if name == Some("terminal"@) {
        terminal_theme()
    } else {
        muted_theme()
    };
    Theme {
        accent: overridden(base.accent, opt_text(o.accent)),
        ok: overridden(base.ok, opt_text(o.ok)),
        warn: overridden(base.warn, opt_text(o.warn)),
        err: overridden(base.err, opt_text(o.err)),
        dim: overridden(base.dim, opt_text(o.dim)),
        text: overridden(base.text, opt_text(o.text)),
        highlight_bg: overridden(base.highlight_bg, opt_text(o.highlight_bg)),
        seq: overridden(base.seq, opt_text(o.seq)),
        fixloop: overridden(base.fixloop, opt_text(o.fixloop)),
        failure: overridden(base.failure, opt_text(o.failure)),
        intent: overridden(base.intent, opt_text(o.intent)),
        prompt: overridden(base.prompt, opt_text(o.prompt)),
    }
}

/// The theme of a configuration.
pub fn load(name: &Option<String>, o: &ColorOverrides) -> (r: Theme)
    ensures
        r == configured_theme(opt_text(*name), *o),
{
    let own = match name {
        Some(n) => same(n.as_str(), "terminal"),
        None => false,
    };
    let base = if own {
        Theme::terminal()
    } else {
        Theme::muted()
    };
    Theme {
        accent: pick(base.accent, &o.accent),
        ok: pick(base.ok, &o.ok),
        warn: pick(base.warn, &o.warn),
        err: pick(base.err, &o.err),
        dim: pick(base.dim, &o.dim),
        text: pick(base.text, &o.text),
        highlight_bg: pick(base.highlight_bg, &o.highlight_bg),
        seq: pick(base.seq, &o.seq),
        fixloop: pick(base.fixloop, &o.fixloop),
        failure: pick(base.failure, &o.failure),
        intent: pick(base.intent, &o.intent),
        prompt: pick(base.prompt, &o.prompt),
    }
}

// ---------------------------------------------------------------------------
// The configuration file
// ---------------------------------------------------------------------------

/// Where the configuration is, below the home directory.
pub const CONFIG_FILE: &'static str = ".config/sisyphus/config.toml";

/// `dirs::home_dir`: the user's home directory, or the empty path. It depends on
/// the environment, so nothing is said of it.
#[verifier::external_body]
pub(crate) fn home_dir() -> String {
    dirs::home_dir().unwrap_or_default().to_string_lossy().into_owned()
}

/// The configuration file, below the home directory.
pub fn config_path() -> (r: String)
    ensures
        exists|home: Seq<char>| r@ == #[trigger] below(home, CONFIG_FILE@),
{
    let home = home_dir();
    path_below(home.as_str(), CONFIG_FILE)
}

/// The value of a hexadecimal digit, wherever it stands among the sixteen.
pub proof fn hex_digits_have_their_values(c: char)
    ensures
        match hex_digit(c) {
            Some(d) => d < 16 && (seq![
                '0', '1', '2', '3', '4', '5', '6', '7', '8', '9', 'a', 'b', 'c', 'd', 'e', 'f',
            ][d as int] == c || seq![
                '0', '1', '2', '3', '4', '5', '6', '7', '8', '9', 'A', 'B', 'C', 'D', 'E', 'F',
            ][d as int] == c),
            None => !('0' <= c <= '9' || 'a' <= c <= 'f' || 'A' <= c <= 'F'),
        },
{
}

/// Six hexadecimal digits are a colour: two for red, two for green and two for blue,
/// whatever space or marks stand before them.
pub proof fn six_digits_are_a_colour(s: Seq<char>, p: Seq<char>, marks: Seq<char>, q: Seq<char>)
    requires
        forall|i: int| 0 <= i < p.len() ==> is_space(#[trigger] p[i]),
        forall|i: int| 0 <= i < q.len() ==> is_space(#[trigger] q[i]),
        forall|i: int| 0 <= i < marks.len() ==> #[trigger] marks[i] == '#',
        s.len() == 6,
        forall|i: int| 0 <= i < 6 ==> hex_digit(#[trigger] s[i]) is Some,
    ensures
        ({
            let d = Seq::new(6, |i: int| hex_digit(s[i])->0);
            hex_color(p + (marks + s) + q) == Some(
                Color::Rgb(
                    (16 * d[0] + d[1]) as u8,
                    (16 * d[2] + d[3]) as u8,
                    (16 * d[4] + d[5]) as u8,
                ),
            )
        }),
{
    let d = Seq::new(6, |i: int| hex_digit(s[i])->0);
    assert(hex_digit(s[0]) is Some && hex_digit(s[1]) is Some && hex_digit(s[2]) is Some
        && hex_digit(s[3]) is Some && hex_digit(s[4]) is Some && hex_digit(s[5]) is Some);
    let t = marks + s;
    assert(t.last() == s[5]);
    if marks.len() > 0 {
        assert(t[0] == marks[0]);
    } else {
        assert(t[0] == s[0]);
    }
    trimming_takes_the_space_around(p, t, q);
    lemma_marks(marks, s);
    let s1 = s.take(1);
    let s2 = s.take(2);
    let s3 = s.take(3);
    let s4 = s.take(4);
    let s5 = s.take(5);
    assert(s.drop_last() =~= s5 && s5.drop_last() =~= s4 && s4.drop_last() =~= s3
        && s3.drop_last() =~= s2 && s2.drop_last() =~= s1 && s1.drop_last() =~= Seq::empty());
    assert(hex_digits(s1.drop_last()) == Some(0nat));
    assert(hex_digits(s1) == Some(d[0]));
    let a = 16 * d[0] + d[1];
    assert(hex_digits(s2) == Some(a));
    assert(hex_digits(s3) == Some(16 * a + d[2]));
    let b = 16 * d[2] + d[3];
    assert(hex_digits(s4) == Some(256 * a + b));
    assert(hex_digits(s5) == Some(16 * (256 * a + b) + d[4]));
    let c = 16 * d[4] + d[5];
    let n = 65536 * a + 256 * b + c;
    assert(hex_digits(s) == Some(n));
    assert(a < 256 && b < 256 && c < 256);
    assert(n / 65536 == a && n / 256 == 256 * a + b && n % 256 == c);
    assert(n / 65536 % 256 == a && n / 256 % 256 == b);
}

/// Marks before a colour are passed over.
proof fn lemma_marks(marks: Seq<char>, s: Seq<char>)
    requires
        forall|i: int| 0 <= i < marks.len() ==> #[trigger] marks[i] == '#',
        s.len() > 0,
        s[0] != '#',
    ensures
        without_marks(marks + s) == s,
    decreases marks.len(),
{
    let t = marks + s;
    if marks.len() == 0 {
        assert(t =~= s);
    } else {
        let less = marks.skip(1);
        assert(t[0] == marks[0]);
        assert(t.skip(1) =~= less + s);
        assert forall|i: int| 0 <= i < less.len() implies #[trigger] less[i] == '#' by {
            assert(less[i] == marks[i + 1]);
        }
        lemma_marks(less, s);
    }
}

/// A text of another length, or with anything but hexadecimal digits behind its first
/// character, is no colour, and a setting that is none leaves the colour as it was.
pub proof fn anything_else_is_no_colour(s: Seq<char>, i: int, base: Color)
    requires
        s.len() > 0 ==> s[0] != '#' && !is_space(s[0]) && !is_space(s.last()),
        s.len() != 6 || (0 < i < 6 && hex_digit(s[i]) is None),
    ensures
        hex_color(s) is None,
        overridden(base, Some(s)) == base,
        overridden(base, None) == base,
{
    let e = Seq::<char>::empty();
    trimming_takes_the_space_around(e, s, e);
    assert(e + s + e =~= s);
    if s.len() > 0 {
        assert(without_marks(s) == s);
    }
    if s.len() == 6 {
        lemma_no_hex(s, i);
        let t = s.skip(1);
        assert(t[i - 1] == s[i]);
        lemma_no_hex(t, i - 1);
    }
}

/// A character that is no digit spoils a number.
proof fn lemma_no_hex(s: Seq<char>, i: int)
    requires
        0 <= i < s.len(),
        hex_digit(s[i]) is None,
    ensures
        hex_digits(s) is None,
    decreases s.len(),
{
    if i < s.len() - 1 {
        assert(s.drop_last()[i] == s[i]);
        lemma_no_hex(s.drop_last(), i);
    }
}

} // verus!
