//! Checks of the setup that makes the tool effective day to day.
use crate::draft::reply::concat;
use crate::number::{decimal, to_decimal};
use crate::path::{below, path_below};
use crate::text::{
    contains, has_part, is_run, lemma_has_part, opt_text, pieces, pieces_are_the_runs, same, split,
    texts, to_uppercase, uppercase, Separator,
};
use crate::tool::Tool;
use vstd::prelude::*;

verus! {

/// What the checks look at.
pub struct Facts {
    /// The drafting agent.
    pub tool: Tool,
    /// Whether the drafter can be run.
    pub claude: bool,
    /// The home directory.
    pub home: String,
    /// The shell's start-up file; empty if there is none.
    pub zshrc: String,
    /// The history file, if it can be read.
    pub history: Option<Vec<u8>>,
    /// Whether the hook has written its log.
    pub hook_log: bool,
    /// The search path of programs, if it is set.
    pub path: Option<String>,
    /// Whether there is a file of accepted aliases.
    pub aliases: bool,
    /// Whether the background scan is installed.
    pub agent: bool,
    /// How many commands came from the shell and from each agent.
    pub zsh_count: u64,
    pub claude_count: u64,
    pub codex_count: u64,
    /// How many patterns wait for a decision.
    pub undecided: u64,
}

/// The line of a check.
pub open spec fn check_text(ok: bool, label: Seq<char>, fix: Seq<char>) -> Seq<char> {
    if ok {
        "  ✓ "@ + label + "\n"@
    } else {
        "  ✗ "@ + label + "\n      fix: "@ + fix + "\n"@
    }
}

/// Adds the line of a check.
fn check(out: &mut String, ok: bool, label: &str, fix: &str)
    ensures
        final(out)@ == old(out)@ + check_text(ok, label@, fix@),
{
    let ghost start = out@;
    if ok {
        out.append("  ✓ ");
        out.append(label);
        out.append("\n");
    } else {
        out.append("  ✗ ");
        out.append(label);
        out.append("\n      fix: ");
        out.append(fix);
        out.append("\n");
    }
    assert(out@ =~= start + check_text(ok, label@, fix@));
}

/// Whether bytes begin like an entry of the extended history.
pub open spec fn begins_extended(b: Seq<u8>) -> bool {
    b.len() >= 2 && b[0] == 0x3a && b[1] == 0x20
}

/// Whether the shell writes the extended history, given its start-up file in
/// upper case and the history file.
pub open spec fn writes_extended(upper: Seq<char>, history: Option<Seq<u8>>) -> bool {
    has_part(upper, "EXTENDED_HISTORY"@) || match history {
        Some(b) => begins_extended(b),
        None => false,
    }
}

/// What an optional list of bytes holds.
pub open spec fn opt_bytes(b: Option<Vec<u8>>) -> Option<Seq<u8>> {
    match b {
        Some(v) => Some(v@),
        None => None,
    }
}

/// Decides [`writes_extended`].
pub fn has_extended(upper: &str, history: &Option<Vec<u8>>) -> (r: bool)
    ensures
        r == writes_extended(upper@, opt_bytes(*history)),
{
    contains(upper, "EXTENDED_HISTORY") || match history {
        Some(b) => b.len() >= 2 && b[0] == 0x3a && b[1] == 0x20,
        None => false,
    }
}

/// Whether a directory is on a search path.
pub open spec fn on_path(path: Option<Seq<char>>, dir: Seq<char>) -> bool {
    match path {
        Some(p) => pieces(p, Separator::Char(':')).contains(dir),
        None => false,
    }
}

/// Decides [`on_path`].
fn is_on_path(path: &Option<String>, dir: &str) -> (r: bool)
    ensures
        r == on_path(opt_text(*path), dir@),
{
    match path {
        Some(p) => {
            let parts = split(p.as_str(), Separator::Char(':'));
            let ghost pv = texts(parts@);
            let mut i: usize = 0;
            while i < parts.len()
                invariant
                    i <= parts@.len(),
                    pv == texts(parts@),
                    pv == pieces(p@, Separator::Char(':')),
                    opt_text(*path) == Some(p@),
                    forall|k: int| 0 <= k < i ==> pv[k] != dir@,
                decreases parts@.len() - i,
            {
                assert(pv[i as int] == parts@[i as int]@);
                if same(parts[i].as_str(), dir) {
                    assert(pv.contains(dir@));
                    return true;
                }
                i += 1;
            }
            false
        },
        None => false,
    }
}

/// The label of a source.
pub open spec fn source_label(name: Seq<char>, n: nat) -> Seq<char> {
    name + " history ingested ("@ + decimal(n) + " commands)"@
}

/// The label of a source.
fn label_of(name: &str, n: u64) -> (r: String)
    ensures
        r@ == source_label(name@, n as nat),
{
    let mut out = name.to_owned();
    out.append(" history ingested (");
    out.append(to_decimal(n as u128).as_str());
    out.append(" commands)");
    out
}

/// The checks of the environment.
pub open spec fn environment(f: Facts) -> Seq<char> {
    "environment\n"@ + check_text(
        f.claude,
        f.tool@.command + " CLI on PATH (needed for drafting)"@,
        "install "@ + f.tool@.product,
    ) + check_text(
        writes_extended(uppercase(f.zshrc@), opt_bytes(f.history)),
        "zsh EXTENDED_HISTORY (timestamps make mining smarter)"@,
        "echo 'setopt EXTENDED_HISTORY' >> ~/.zshrc"@,
    ) + check_text(
        has_part(f.zshrc@, "sisyphus hook zsh"@) || f.hook_log,
        "shell hook installed (exit codes + durations for every command)"@,
        "echo 'eval \"$(sisyphus hook zsh)\"' >> ~/.zshrc"@,
    ) + check_text(
        on_path(opt_text(f.path), below(f.home@, ".local/bin"@)),
        "~/.local/bin on PATH (where accepted scripts install)"@,
        "echo 'export PATH=\"$HOME/.local/bin:$PATH\"' >> ~/.zshrc"@,
    ) + (if f.aliases {
        check_text(
            has_part(f.zshrc@, "sisyphus/aliases.zsh"@),
            "accepted aliases sourced in ~/.zshrc"@,
            "echo 'source ~/.config/sisyphus/aliases.zsh' >> ~/.zshrc"@,
        )
    } else {
        Seq::<char>::empty()
    })
}

/// The checks of what goes on in the background and of the data.
pub open spec fn ambient_and_data(f: Facts) -> Seq<char> {
    "\nambient\n"@ + check_text(
        f.agent,
        "hourly background scan installed"@,
        "sisyphus watch --install"@,
    ) + "\ndata\n"@ + check_text(
        f.zsh_count > 0,
        source_label("zsh"@, f.zsh_count as nat),
        "sisyphus ingest"@,
    ) + check_text(
        f.claude_count > 0,
        source_label(f.tool@.command, f.claude_count as nat),
        "sisyphus ingest"@,
    ) + check_text(
        f.codex_count > 0,
        source_label("codex"@, f.codex_count as nat),
        "sisyphus ingest"@,
    ) + "  · "@ + decimal(f.undecided as nat)
        + " undecided pattern(s) waiting in `sisyphus report`\n"@
}

/// Checks the environment.
fn check_environment(f: &Facts) -> (r: String)
    ensures
        r@ == environment(*f),
{
    let mut out = "environment\n".to_owned();
    check(
        &mut out,
        f.claude,
        concat(f.tool.command.as_str(), " CLI on PATH (needed for drafting)").as_str(),
        concat("install ", f.tool.product.as_str()).as_str(),
    );
    let upper = to_uppercase(f.zshrc.as_str());
    check(
        &mut out,
        has_extended(upper.as_str(), &f.history),
        "zsh EXTENDED_HISTORY (timestamps make mining smarter)",
        "echo 'setopt EXTENDED_HISTORY' >> ~/.zshrc",
    );
    check(
        &mut out,
        contains(f.zshrc.as_str(), "sisyphus hook zsh") || f.hook_log,
        "shell hook installed (exit codes + durations for every command)",
        "echo 'eval \"$(sisyphus hook zsh)\"' >> ~/.zshrc",
    );
    let bin = path_below(f.home.as_str(), ".local/bin");
    check(
        &mut out,
        is_on_path(&f.path, bin.as_str()),
        "~/.local/bin on PATH (where accepted scripts install)",
        "echo 'export PATH=\"$HOME/.local/bin:$PATH\"' >> ~/.zshrc",
    );
    if f.aliases {
        check(
            &mut out,
            contains(f.zshrc.as_str(), "sisyphus/aliases.zsh"),
            "accepted aliases sourced in ~/.zshrc",
            "echo 'source ~/.config/sisyphus/aliases.zsh' >> ~/.zshrc",
        );
    }
    assert(out@ =~= environment(*f));
    out
}

/// Checks what goes on in the background and the data.
fn check_data(f: &Facts) -> (r: String)
    ensures
        r@ == ambient_and_data(*f),
{
    let mut out = "\nambient\n".to_owned();
    check(&mut out, f.agent, "hourly background scan installed", "sisyphus watch --install");
    out.append("\ndata\n");
    check(
        &mut out,
        f.zsh_count > 0,
        label_of("zsh", f.zsh_count).as_str(),
        "sisyphus ingest",
    );
    check(
        &mut out,
        f.claude_count > 0,
        label_of(f.tool.command.as_str(), f.claude_count).as_str(),
        "sisyphus ingest",
    );
    check(
        &mut out,
        f.codex_count > 0,
        label_of("codex", f.codex_count).as_str(),
        "sisyphus ingest",
    );
    out.append("  · ");
    out.append(to_decimal(f.undecided as u128).as_str());
    out.append(" undecided pattern(s) waiting in `sisyphus report`\n");
    out
}

/// Checks the setup and says what is missing and how to mend it.
pub fn run(f: &Facts) -> (r: String)
    ensures
        r@ == environment(*f) + ambient_and_data(*f),
{
    let mut out = check_environment(f);
    out.append(check_data(f).as_str());
    out
}

/// A directory is on the path exactly when it stands there between two colons or the
/// ends.
pub proof fn a_directory_stands_between_colons(path: Seq<char>, dir: Seq<char>)
    ensures
        on_path(Some(path), dir) <==> exists|lo: int, hi: int| #[trigger]
            is_run(path, Separator::Char(':'), lo, hi) && dir == path.subrange(lo, hi),
        !on_path(None, dir),
{
    pieces_are_the_runs(path, Separator::Char(':'), dir);
}

/// The history tells times where the start-up file turns that on or the file begins
/// with a colon and a space.
pub proof fn the_history_tells_times(upper: Seq<char>, rest: Seq<u8>, history: Option<Seq<u8>>)
    ensures
        has_part(upper, "EXTENDED_HISTORY"@) ==> writes_extended(upper, history),
        writes_extended(upper, Some(seq![0x3au8, 0x20u8] + rest)),
        !has_part(upper, "EXTENDED_HISTORY"@) && writes_extended(upper, history) ==> history is Some
            && history->0.len() >= 2 && history->0[0] == 0x3a && history->0[1] == 0x20,
{
    let b = seq![0x3au8, 0x20u8] + rest;
    assert(b[0] == 0x3a && b[1] == 0x20);
}

/// A check that holds shows a tick and its label, and one that does not shows a cross
/// and how to mend it.
pub proof fn a_check_shows_how_to_mend_it(label: Seq<char>, fix: Seq<char>)
    ensures
        has_part(check_text(true, label, fix), "✓ "@ + label),
        has_part(check_text(false, label, fix), "✗ "@ + label),
        has_part(check_text(false, label, fix), "fix: "@ + fix),
{
    reveal_strlit("  ✓ ");
    reveal_strlit("✓ ");
    reveal_strlit("  ✗ ");
    reveal_strlit("✗ ");
    reveal_strlit("\n      fix: ");
    reveal_strlit("fix: ");
    let two = seq![' ', ' '];
    let gap = seq!['\n', ' ', ' ', ' ', ' ', ' ', ' '];
    lemma_has_part(two, "✓ "@ + label, "\n"@);
    assert(check_text(true, label, fix) =~= two + ("✓ "@ + label) + "\n"@);
    let rest = "\n      fix: "@ + fix + "\n"@;
    lemma_has_part(two, "✗ "@ + label, rest);
    assert(check_text(false, label, fix) =~= two + ("✗ "@ + label) + rest);
    lemma_has_part("  ✗ "@ + label + gap, "fix: "@ + fix, "\n"@);
    assert(check_text(false, label, fix) =~= "  ✗ "@ + label + gap + ("fix: "@ + fix) + "\n"@);
}

} // verus!
