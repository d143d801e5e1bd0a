//! The hourly background scan of the system's launcher.
use vstd::prelude::*;

verus! {

/// Where the agent is installed, below the home directory.
pub const AGENT_FILE: &'static str = "Library/LaunchAgents/dev.sisyphus.scan.plist";

/// The agent (part 1 of 3): up to the first mention of the program.
pub const AGENT_1: &'static str = r#"<?xml version="1.0" encoding="UTF-8"?>
<!DOCTYPE plist PUBLIC "-//Apple//DTD PLIST 1.0//EN" "http://www.apple.com/DTDs/PropertyList-1.0.dtd">
<plist version="1.0"><dict>
    <key>Label</key><string>dev.sisyphus.scan</string>
    <key>ProgramArguments</key>
    <array><string>/bin/sh</string><string>-c</string>
    <string>""#;

/// The agent (part 2 of 3): up to the second mention of the program.
pub const AGENT_2: &'static str = r#"" ingest >/dev/null 2>&1 && ""#;

/// The agent (part 3 of 3).
pub const AGENT_3: &'static str = r#"" scan</string></array>
    <key>StartInterval</key><integer>3600</integer>
    <key>RunAtLoad</key><false/>
</dict></plist>
"#;

/// The description of the agent that runs the program hourly.
pub fn agent(program: &str) -> (r: String)
    ensures
        r@ == AGENT_1@ + program@ + AGENT_2@ + program@ + AGENT_3@,
{
    let mut out = AGENT_1.to_owned();
    out.append(program);
    out.append(AGENT_2);
    out.append(program);
    out.append(AGENT_3);
    out
}

/// What is said of the agent.
pub fn status(installed: bool) -> (r: String)
    ensures
        r@ == "installed: "@ + (if installed {
            "yes"@
        } else {
            "no — run `sisyphus watch --install`"@
        }),
{
    let mut out = "installed: ".to_owned();
    if installed {
        out.append("yes");
    } else {
        out.append("no — run `sisyphus watch --install`");
    }
    out
}

} // verus!
