//! What accepted automations save.
use crate::mine::candidates::{key_list, read_list};
use crate::number::{decimal, to_decimal};
use crate::path::{file_stem, stem_of};
use crate::text::{chars_of, texts};
use vstd::prelude::*;

verus! {

/// The width of the column of names.
pub const NAME_WIDTH: usize = 24;

/// An accepted artifact with how often it was used.
pub struct Artifact {
    pub path: String,
    pub key: String,
    pub uses: u64,
}

/// What an artifact saves.
pub struct Gain {
    pub name: String,
    pub uses: u64,
    pub steps: usize,
    pub saved: u128,
}

/// What a [`Gain`] holds.
pub struct GainView {
    pub name: Seq<char>,
    pub uses: nat,
    pub steps: nat,
    pub saved: nat,
}

impl View for Gain {
    type V = GainView;

    open spec fn view(&self) -> GainView {
        GainView {
            name: self.name@,
            uses: self.uses as nat,
            steps: self.steps as nat,
            saved: self.saved as nat,
        }
    }
}

/// What a list of gains holds.
pub open spec fn gains_view(v: Seq<Gain>) -> Seq<GainView> {
    Seq::new(v.len(), |i: int| v[i]@)
}

/// How many steps the pattern of an artifact has, given what its key reads as;
/// one if it cannot be read.
pub open spec fn step_total(read: Option<Seq<Seq<char>>>) -> nat {
    match read {
        Some(t) => t.len(),
        None => 1,
    }
}

/// What an artifact with this many steps saves: all steps but one at each use.
pub open spec fn gain_of(path: Seq<char>, steps: nat, uses: nat) -> GainView {
    GainView {
        name: file_stem(path),
        uses,
        steps,
        saved: if steps > 0 {
            uses * ((steps - 1) as nat)
        } else {
            0
        },
    }
}

/// What an artifact with this many steps saves.
pub fn measure(path: &str, steps: usize, uses: u64) -> (r: Gain)
    ensures
        r@ == gain_of(path@, steps as nat, uses as nat),
{
    let saved: u128 = if steps > 0 {
        let a: u128 = uses as u128;
        let b: u128 = steps as u128 - 1;
        assert(a * b <= 0xffff_ffff_ffff_ffff * 0xffff_ffff_ffff_ffff) by (nonlinear_arith)
            requires
                0 <= a <= 0xffff_ffff_ffff_ffff,
                0 <= b <= 0xffff_ffff_ffff_ffff,
        ;
        a * b
    } else {
        0
    };
    Gain { name: stem_of(path), uses, steps, saved }
}

/// What an artifact saves.
pub open spec fn artifact_gain(a: Artifact) -> GainView {
    gain_of(a.path@, step_total(read_list(a.key@)), a.uses as nat)
}

/// What artifacts save.
pub fn gains(v: &Vec<Artifact>) -> (r: Vec<Gain>)
    ensures
        r@.len() == v@.len(),
        forall|i: int| 0 <= i < r@.len() ==> (#[trigger] r@[i])@ == artifact_gain(v@[i]),
{
    let mut out: Vec<Gain> = Vec::new();
    let mut i: usize = 0;
    while i < v.len()
        invariant
            i <= v@.len(),
            out@.len() == i,
            forall|k: int| 0 <= k < i ==> (#[trigger] out@[k])@ == artifact_gain(v@[k]),
        decreases v@.len() - i,
    {
        let a = &v[i];
        let steps: usize = match key_list(a.key.as_str()) {
            Some(t) => {
                assert(texts(t@).len() == t@.len());
                t.len()
            },
            None => 1,
        };
        out.push(measure(a.path.as_str(), steps, a.uses));
        i += 1;
    }
    out
}

/// The sum of what the first `n` artifacts save; it stops growing at the greatest
/// number that can be held.
pub open spec fn total_of(g: Seq<GainView>, n: nat) -> nat
    decreases n,
{
    if n == 0 {
        0
    } else {
        let sum = total_of(g, (n - 1) as nat) + g[n - 1].saved;
        if sum > u128::MAX {
            u128::MAX as nat
        } else {
            sum
        }
    }
}

/// The sum of what artifacts save.
pub fn total(g: &Vec<Gain>) -> (r: u128)
    ensures
        r == total_of(gains_view(g@), g@.len()),
{
    let ghost gv = gains_view(g@);
    let mut sum: u128 = 0;
    let mut i: usize = 0;
    while i < g.len()
        invariant
            i <= g@.len(),
            gv == gains_view(g@),
            sum == total_of(gv, i as nat),
        decreases g@.len() - i,
    {
        assert(gv[i as int] == g@[i as int]@);
        sum = match sum.checked_add(g[i].saved) {
            Some(s) => s,
            None => u128::MAX,
        };
        i += 1;
    }
    sum
}

/// A text followed by spaces up to a width.
pub open spec fn padded_right(s: Seq<char>, width: nat) -> Seq<char> {
    if s.len() >= width {
        s
    } else {
        s + Seq::new((width - s.len()) as nat, |i: int| ' ')
    }
}

/// Spaces up to a width, followed by a text.
pub open spec fn padded_left(s: Seq<char>, width: nat) -> Seq<char> {
    if s.len() >= width {
        s
    } else {
        Seq::new((width - s.len()) as nat, |i: int| ' ') + s
    }
}

/// A number of spaces.
fn spaces(n: usize) -> (r: String)
    ensures
        r@ == Seq::new(n as nat, |i: int| ' '),
{
    let mut out = String::new();
    let mut i: usize = 0;
    while i < n
        invariant
            i <= n,
            out@.len() == i,
            forall|k: int| 0 <= k < i ==> #[trigger] out@[k] == ' ',
        decreases n - i,
    {
        out.push(' ');
        i += 1;
    }
    assert(out@ =~= Seq::new(n as nat, |i: int| ' '));
    out
}

/// Pads a text on the right.
pub fn pad_right(s: &str, width: usize) -> (r: String)
    ensures
        r@ == padded_right(s@, width as nat),
{
    let n: usize = chars_of(s).len();
    let mut out = s.to_owned();
    if n < width {
        out.append(spaces(width - n).as_str());
    }
    out
}

/// Pads a text on the left.
pub fn pad_left(s: &str, width: usize) -> (r: String)
    ensures
        r@ == padded_left(s@, width as nat),
{
    let n: usize = chars_of(s).len();
    if n < width {
        let mut out = spaces(width - n);
        out.append(s);
        out
    } else {
        s.to_owned()
    }
}

/// The line of an artifact.
pub open spec fn gain_line(g: GainView) -> Seq<char> {
    padded_right(g.name, NAME_WIDTH as nat) + " used "@ + decimal(g.uses) + "× · replaces "@
        + decimal(g.steps) + " steps · "@ + decimal(g.saved) + " manual steps avoided\n"@
}

/// The lines of the first `n` artifacts.
pub open spec fn gain_lines(g: Seq<GainView>, n: nat) -> Seq<char>
    decreases n,
{
    if n == 0 {
        Seq::empty()
    } else {
        gain_lines(g, (n - 1) as nat) + gain_line(g[n - 1])
    }
}

/// What is printed of the gains.
pub open spec fn gain_report(g: Seq<GainView>) -> Seq<char> {
    if g.len() == 0 {
        "no accepted automations yet — run `sisyphus report`\n"@
    } else {
        gain_lines(g, g.len()) + "\ntotal manual steps avoided: "@ + decimal(total_of(g, g.len()))
            + "\n"@
    }
}

/// Adds the line of an artifact.
fn add_gain(out: &mut String, g: &Gain)
    ensures
        final(out)@ == old(out)@ + gain_line(g@),
{
    let ghost start = out@;
    out.append(pad_right(g.name.as_str(), NAME_WIDTH).as_str());
    out.append(" used ");
    out.append(to_decimal(g.uses as u128).as_str());
    out.append("× · replaces ");
    out.append(to_decimal(g.steps as u128).as_str());
    out.append(" steps · ");
    out.append(to_decimal(g.saved).as_str());
    out.append(" manual steps avoided\n");
    assert(out@ =~= start + gain_line(g@));
}

/// What is printed of the gains.
pub fn gain_text(g: &Vec<Gain>) -> (r: String)
    ensures
        r@ == gain_report(gains_view(g@)),
{
    if g.len() == 0 {
        return "no accepted automations yet — run `sisyphus report`\n".to_owned();
    }
    let ghost gv = gains_view(g@);
    let mut out = String::new();
    let mut i: usize = 0;
    assert(out@ =~= gain_lines(gv, 0));
    while i < g.len()
        invariant
            i <= g@.len(),
            gv == gains_view(g@),
            out@ == gain_lines(gv, i as nat),
        decreases g@.len() - i,
    {
        assert(gv[i as int] == g@[i as int]@);
        add_gain(&mut out, &g[i]);
        i += 1;
    }
    out.append("\ntotal manual steps avoided: ");
    out.append(to_decimal(total(g)).as_str());
    out.append("\n");
    out
}

/// Each use of an automation saves all of its steps but the one that starts it.
pub proof fn each_use_saves_all_steps_but_one(path: Seq<char>, steps: nat, uses: nat)
    ensures
        gain_of(path, steps + 1, uses).saved == uses * steps,
        gain_of(path, steps + 1, uses).saved + uses == uses * (steps + 1),
        gain_of(path, 0, uses).saved == 0,
        gain_of(path, steps, uses).uses == uses,
        gain_of(path, steps, uses).steps == steps,
        gain_of(path, steps, uses).name == file_stem(path),
{
    assert(uses * (steps + 1) == uses * steps + uses) by (nonlinear_arith);
}

/// What all automations saved is what each of them saved, added up as far as a count can
/// go.
pub proof fn the_total_adds_up(g: Seq<GainView>, x: GainView)
    ensures
        total_of(Seq::empty(), 0) == 0,
        total_of(g, g.len()) + x.saved <= u128::MAX ==> total_of(g.push(x), g.len() + 1)
            == total_of(g, g.len()) + x.saved,
        total_of(g, g.len()) + x.saved > u128::MAX ==> total_of(g.push(x), g.len() + 1)
            == u128::MAX,
{
    lemma_total_before(g, g.push(x), g.len());
}

/// A total does not depend on what comes behind it.
proof fn lemma_total_before(g: Seq<GainView>, h: Seq<GainView>, n: nat)
    requires
        n <= g.len(),
        n <= h.len(),
        forall|i: int| 0 <= i < n ==> #[trigger] g[i] == h[i],
    ensures
        total_of(g, n) == total_of(h, n),
    decreases n,
{
    if n > 0 {
        lemma_total_before(g, h, (n - 1) as nat);
        assert(g[n - 1] == h[n - 1]);
    }
}

/// Padding fills a text up to a width with spaces on one side; a text of that width or
/// more stays as it is.
pub proof fn padding_fills_up_to_the_width(s: Seq<char>, width: nat, i: int)
    ensures
        padded_right(s, width).len() == if s.len() > width {
            s.len()
        } else {
            width
        },
        padded_left(s, width).len() == padded_right(s, width).len(),
        0 <= i < s.len() ==> padded_right(s, width)[i] == s[i],
        s.len() <= i < padded_right(s, width).len() ==> padded_right(s, width)[i] == ' ',
        0 <= i < s.len() ==> padded_left(s, width)[padded_left(s, width).len() - s.len() + i]
            == s[i],
        0 <= i < padded_left(s, width).len() - s.len() ==> padded_left(s, width)[i] == ' ',
{
}

/// An automation replaces as many steps as its pattern has; one whose pattern cannot be
/// read counts as a single step and saves nothing.
pub proof fn an_unreadable_pattern_saves_nothing(a: Artifact)
    ensures
        read_list(a.key@) matches Some(t) ==> artifact_gain(a).steps == t.len(),
        read_list(a.key@) is None ==> artifact_gain(a).steps == 1 && artifact_gain(a).saved == 0,
        artifact_gain(a).uses == a.uses,
        artifact_gain(a).steps > 0 ==> artifact_gain(a).saved + a.uses == a.uses * artifact_gain(
            a,
        ).steps,
{
    let steps = step_total(read_list(a.key@));
    if steps > 0 {
        each_use_saves_all_steps_but_one(a.path@, (steps - 1) as nat, a.uses as nat);
        let uses = a.uses as nat;
        assert(uses * 0nat == 0) by (nonlinear_arith);
    }
}

} // verus!
