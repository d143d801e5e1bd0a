//! The texts that a drafter is given, piece by piece.
use vstd::prelude::*;

verus! {

/// What is said of a fix loop (part 1 of 4).
pub const FIXLOOP_1: &'static str = r#"This command was re-run "#;

/// What is said of a fix loop (part 2 of 4).
pub const FIXLOOP_2: &'static str = r#" times across the developer's AI-agent sessions, failing and being fixed in between — a manual execute→fix→retry loop:

"#;

/// What is said of a fix loop (part 3 of 4).
pub const FIXLOOP_3: &'static str = r#"

Draft a "#;

/// What is said of a fix loop (part 4 of 4).
pub const FIXLOOP_4: &'static str = r#" skill (kind "skill") that automates the whole loop: run the command, read the errors, fix the cause, re-run, max 3 retries, then report. SKILL.md format with `name:` and `description:` frontmatter, where description states WHEN to auto-trigger."#;

/// What is said of an intent (part 1 of 5).
pub const INTENT_1: &'static str = r#"The developer has asked their AI coding agent essentially this "#;

/// What is said of an intent (part 2 of 5).
pub const INTENT_2: &'static str = r#" separate times:

""#;

/// What is said of an intent (part 3 of 5).
pub const INTENT_3: &'static str = r#""

and each time, the agent ended up running these same steps:
"#;

/// What is said of an intent (part 4 of 5).
pub const INTENT_4: &'static str = r#"

Draft a "#;

/// What is said of an intent (part 5 of 5).
pub const INTENT_5: &'static str = r#" skill (kind "skill") that performs this recurring intent directly — encode the known steps above so the agent executes them immediately instead of rediscovering them every session. SKILL.md format with `name:` and `description:` frontmatter, where description states WHEN to auto-trigger."#;

/// What is said of a recurring prompt (part 1 of 4).
pub const PROMPT_1: &'static str = r#"The developer has typed essentially this same request to AI coding tools "#;

/// What is said of a recurring prompt (part 2 of 4).
pub const PROMPT_2: &'static str = r#" separate times:

""#;

/// What is said of a recurring prompt (part 3 of 4).
pub const PROMPT_3: &'static str = r#""

Draft a "#;

/// What is said of a recurring prompt (part 4 of 4).
pub const PROMPT_4: &'static str = r#" skill (kind "skill") that captures this recurring intent so it becomes a one-word command. SKILL.md format with `name:` and `description:` frontmatter."#;

/// What is said of a recurring error (part 1 of 2).
pub const FAILURE_1: &'static str = "Draft a ";

/// What is said of a recurring error (part 2 of 2).
pub const FAILURE_2: &'static str = r#" skill (kind "skill") that helps the developer avoid or quickly fix a recurring error (details below). The skill's description must state WHEN to auto-trigger (e.g. before running the kind of command that causes it), and its body should give the concrete prevention/fix — for example, for a ripgrep regex parse error, use `rg -F` for literal search or escape metacharacters. Signature: "#;

/// What is said of a workflow (part 1 of 2).
pub const SEQUENCE_1: &'static str = r#"The developer has manually repeated this command sequence "#;

/// What is said of a workflow (part 2 of 2).
pub const SEQUENCE_2: &'static str = r#" times (mined from their real shell/agent history):

"#;

/// The task (part 1 of 3).
pub const TASK_1: &'static str = r#"You are drafting an automation for a developer.

"#;

/// The task (part 2 of 3).
pub const TASK_2: &'static str = r#"

Concrete examples of each step from their history:
"#;

/// The task (part 3 of 3).
pub const TASK_3: &'static str = r#"

Draft the best automation. Rules:
- kind "alias" for a trivial one-liner; kind "script" for a multi-step shell workflow (zsh, `set -euo pipefail`, positional args or flags for the parts that vary between runs — the <path>/<url>/<ver> placeholders); kind "skill" ONLY if the workflow inherently needs an AI agent to do judgment work.
- Scripts must be safe to re-run: no destructive commands beyond what the user's own sequence does, sensible error messages.
- name: short kebab-case.
- summary: one sentence, what it saves.

Respond with STRICT JSON only, no markdown fences, matching:
{"name": "...", "kind": "script|alias|skill", "summary": "...", "content": "full artifact text"}"#;

/// What is said of a user who works inside agents (part 1 of 3).
pub const NATIVE_1: &'static str = r#"
IMPORTANT context about this user: they rarely type shell commands — almost all their work happens inside AI coding agents ("#;

/// What is said of a user who works inside agents (part 2 of 3).
pub const NATIVE_2: &'static str = r#", Codex). A script in ~/.local/bin would never get run. Strongly prefer kind "skill" (a "#;

/// What is said of a user who works inside agents (part 3 of 3).
pub const NATIVE_3: &'static str = r#" skill they trigger with one word inside the agent), unless the workflow is inherently shell-native.
"#;

/// What is said of the commands behind an error (part 1 of 4).
pub const ERRORS_1: &'static str = r#"The developer keeps hitting this error, "#;

/// What is said of the commands behind an error (part 2 of 4).
pub const ERRORS_2: &'static str = r#" times across different commands:

""#;

/// What is said of the commands behind an error (part 3 of 4).
pub const ERRORS_3: &'static str = r#""

Example commands that triggered it:
"#;

/// What is said of the commands behind an error (part 4 of 4).
pub const ERRORS_4: &'static str = r#"
"#;

/// The request for a revision (part 1 of 7).
pub const REVISE_1: &'static str = r#"A developer accepted this automation, but adoption data says it isn't working:
- artifact invoked "#;

/// The request for a revision (part 2 of 7).
pub const REVISE_2: &'static str = r#" time(s) since install
- meanwhile the manual sequence it replaces was still performed "#;

/// The request for a revision (part 3 of 7).
pub const REVISE_3: &'static str = r#" more time(s)

The manual sequence:
"#;

/// The request for a revision (part 4 of 7).
pub const REVISE_4: &'static str = r#"

Recent concrete examples of the manual steps:
"#;

/// The request for a revision (part 5 of 7).
pub const REVISE_5: &'static str = r#"

Current artifact ("#;

/// The request for a revision (part 6 of 7).
pub const REVISE_6: &'static str = r#"):
---
"#;

/// The request for a revision (part 7 of 7).
pub const REVISE_7: &'static str = r#"
---

Diagnose the most likely mismatch (wrong arguments? too rigid? name hard to remember? missing a step they actually do?) and respond with STRICT JSON only:
{"action": "revise|retire", "reason": "one sentence", "content": "full revised artifact text (empty if retire)"}"#;

/// What stands before the error output of a command.
pub const OUTPUT: &'static str = "\nActual error output seen when it failed:\n";

} // verus!
