//! What has been ingested.
use crate::gain::{pad_left, padded_left};
use crate::number::{decimal, to_decimal};
use crate::tool::{Tool, ToolView};
use vstd::prelude::*;

verus! {

/// The width of the column of counts.
pub const COUNT_WIDTH: usize = 5;

/// A template with how often it occurs.
pub struct Tally {
    pub template: String,
    pub count: u64,
}

/// The lines of the first `n` templates.
pub open spec fn tally_lines(v: Seq<Tally>, n: nat) -> Seq<char>
    decreases n,
{
    if n == 0 {
        Seq::empty()
    } else {
        tally_lines(v, (n - 1) as nat) + "  "@ + padded_left(
            decimal(v[n - 1].count as nat),
            COUNT_WIDTH as nat,
        ) + "×  "@ + v[n - 1].template@ + "\n"@
    }
}

/// What is printed of the counts.
pub open spec fn overview(
    zsh: nat,
    claude: nat,
    sessions: nat,
    prompts: nat,
    tool: ToolView,
) -> Seq<char> {
    "commands   zsh: "@ + decimal(zsh) + "   "@ + tool.command + ": "@ + decimal(claude)
        + " (across "@ + decimal(sessions) + " sessions)   prompts: "@ + decimal(prompts) + "\n\ntop command templates:\n"@
}

/// What has been ingested, as it is printed.
pub fn stats_text(
    zsh: u64,
    claude: u64,
    sessions: u64,
    prompts: u64,
    top: &Vec<Tally>,
    tool: &Tool,
) -> (r: String)
    ensures
        r@ == overview(
            zsh as nat,
            claude as nat,
            sessions as nat,
            prompts as nat,
            tool@,
        ) + tally_lines(top@, top@.len()),
{
    let mut out = "commands   zsh: ".to_owned();
    out.append(to_decimal(zsh as u128).as_str());
    out.append("   ");
    out.append(tool.command.as_str());
    out.append(": ");
    out.append(to_decimal(claude as u128).as_str());
    out.append(" (across ");
    out.append(to_decimal(sessions as u128).as_str());
    out.append(" sessions)   prompts: ");
    out.append(to_decimal(prompts as u128).as_str());
    out.append("\n\ntop command templates:\n");
    let ghost head = out@;
    let mut i: usize = 0;
    assert(head + tally_lines(top@, 0) =~= head);
    while i < top.len()
        invariant
            i <= top@.len(),
            out@ == head + tally_lines(top@, i as nat),
        decreases top@.len() - i,
    {
        out.append("  ");
        let n = to_decimal(top[i].count as u128);
        out.append(pad_left(n.as_str(), COUNT_WIDTH).as_str());
        out.append("×  ");
        out.append(top[i].template.as_str());
        out.append("\n");
        i += 1;
        assert(out@ =~= head + tally_lines(top@, i as nat));
    }
    out
}

} // verus!
