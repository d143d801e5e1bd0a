//! Synthetic history for development and demonstration: repeated workflows, fix
//! loops with failures, near-duplicate prompts and background noise, all of it
//! reproducible.
use crate::number::{decimal, to_decimal};
use crate::text::{contains, first_word, has_part, head_word};
use vstd::prelude::*;

verus! {

/// The number before the first row's.
pub const FIRST_SEQ: i64 = 1_000_000;

/// The state that the generator starts from.
pub const START: u64 = 42;

// ---------------------------------------------------------------------------
// Random numbers
// ---------------------------------------------------------------------------

/// The state after one step of the linear congruential generator.
#[verifier::opaque]
pub open spec fn stepped(s: u64) -> u64 {
    s.wrapping_mul(6364136223846793005).wrapping_add(1442695040888963407)
}

/// The number that a state gives: its upper bits.
#[verifier::opaque]
pub open spec fn drawn(s: u64) -> u64 {
    stepped(s) >> 33
}

/// A generator of numbers that gives the same ones from the same state.
pub struct Rng(pub u64);

impl Rng {
    /// The next number.
    pub fn next(&mut self) -> (r: u64)
        ensures
            final(self).0 == stepped(old(self).0),
            r == drawn(old(self).0),
            r < 0x8000_0000,
    {
        reveal(stepped);
        reveal(drawn);
        self.0 = self.0.wrapping_mul(6364136223846793005).wrapping_add(1442695040888963407);
        let s: u64 = self.0;
        assert(s >> 33 < 0x8000_0000u64) by (bit_vector);
        s >> 33
    }

    /// One of the given items.
    pub fn pick<'a, T>(&mut self, xs: &'a Vec<T>) -> (r: &'a T)
        requires
            xs@.len() > 0,
        ensures
            final(self).0 == stepped(old(self).0),
            *r == xs@[(drawn(old(self).0) as int) % (xs@.len() as int)],
    {
        let n = self.next();
        let i: usize = n as usize;
        &xs[i % xs.len()]
    }

    /// Whether a chance of `pct` in a hundred came up.
    pub fn chance(&mut self, pct: u64) -> (r: bool)
        ensures
            final(self).0 == stepped(old(self).0),
            r == (drawn(old(self).0) % 100 < pct),
    {
        self.next() % 100 < pct
    }
}

// ---------------------------------------------------------------------------
// Rows
// ---------------------------------------------------------------------------

/// Where a row comes from: the shell, an agent, or what a user asked an agent.
#[derive(Clone, Copy, PartialEq, Eq, Debug, Structural)]
pub enum Source {
    Zsh,
    Claude,
    Codex,
    ClaudePrompt,
}

/// A synthetic command or prompt.
pub struct SeedRow {
    pub source: Source,
    pub session: String,
    pub raw: String,
    pub head: String,
    pub ts: i64,
    pub seq: i64,
    pub failed: bool,
}

/// What a [`SeedRow`] holds.
pub struct SeedRowView {
    pub source: Source,
    pub session: Seq<char>,
    pub raw: Seq<char>,
    pub head: Seq<char>,
    pub ts: int,
    pub seq: int,
    pub failed: bool,
}

impl View for SeedRow {
    type V = SeedRowView;

    open spec fn view(&self) -> SeedRowView {
        SeedRowView {
            source: self.source,
            session: self.session@,
            raw: self.raw@,
            head: self.head@,
            ts: self.ts as int,
            seq: self.seq as int,
            failed: self.failed,
        }
    }
}

/// What a list of rows holds.
pub open spec fn seeds_view(v: Seq<SeedRow>) -> Seq<SeedRowView> {
    Seq::new(v.len(), |i: int| v[i]@)
}

/// The generator, the clock and the rows so far; rows are numbered one by one.
pub struct WriterView {
    pub rng: u64,
    pub t: int,
    pub rows: Seq<SeedRowView>,
}

/// Writes rows.
pub struct Writer {
    pub rng: Rng,
    pub t: i64,
    pub rows: Vec<SeedRow>,
}

impl View for Writer {
    type V = WriterView;

    open spec fn view(&self) -> WriterView {
        WriterView { rng: self.rng.0, t: self.t as int, rows: seeds_view(self.rows@) }
    }
}

impl WriterView {
    /// After drawing a number.
    pub open spec fn drawing(self) -> WriterView {
        WriterView { rng: stepped(self.rng), ..self }
    }

    /// After some time.
    pub open spec fn waiting(self, dt: int) -> WriterView {
        WriterView { t: self.t + dt, ..self }
    }

    /// After a row.
    pub open spec fn writing(
        self,
        source: Source,
        session: Seq<char>,
        raw: Seq<char>,
        failed: bool,
    ) -> WriterView {
        WriterView {
            rows: self.rows.push(
                SeedRowView {
                    source,
                    session,
                    raw,
                    head: first_word(raw),
                    ts: self.t,
                    seq: FIRST_SEQ + self.rows.len() + 1,
                    failed,
                },
            ),
            ..self
        }
    }

    /// After a wait of `base` seconds and up to `span` more.
    #[verifier::opaque]
    pub open spec fn pausing(self, base: int, span: int) -> WriterView {
        self.drawing().waiting(base + (drawn(self.rng) as int) % span)
    }

    /// After the first `n` steps, each after a pause.
    pub open spec fn stepping(
        self,
        steps: Seq<Seq<char>>,
        n: nat,
        source: Source,
        session: Seq<char>,
        base: int,
        span: int,
    ) -> WriterView
        decreases n,
    {
        if n == 0 {
            self
        } else {
            self.stepping(steps, (n - 1) as nat, source, session, base, span).pausing(
                base,
                span,
            ).writing(source, session, steps[n - 1], false)
        }
    }

    /// After `n` commands of no consequence.
    pub open spec fn idling(self, noise: Seq<Seq<char>>, n: nat) -> WriterView
        decreases n,
    {
        if n == 0 {
            self
        } else {
            let w = self.idling(noise, (n - 1) as nat).pausing(60, 600);
            w.drawing().writing(
                Source::Zsh,
                Seq::empty(),
                noise[(drawn(w.rng) as int) % (noise.len() as int)],
                false,
            )
        }
    }

    /// After `n` of `runs` builds, all but the last of which fail and are looked
    /// into.
    pub open spec fn building(self, session: Seq<char>, n: nat, runs: nat) -> WriterView
        decreases n,
    {
        if n == 0 {
            self
        } else {
            let w = self.building(session, (n - 1) as nat, runs).pausing(45, 180);
            let b = w.writing(Source::Claude, session, "cargo build"@, n < runs);
            if n < runs {
                b.waiting(60).writing(Source::Claude, session, "cat src/lib.rs"@, false)
            } else {
                b
            }
        }
    }

    /// After the first `n` steps of a migration, each of which may fail.
    pub open spec fn migrating(
        self,
        steps: Seq<Seq<char>>,
        n: nat,
        session: Seq<char>,
    ) -> WriterView
        decreases n,
    {
        if n == 0 {
            self
        } else {
            let w = self.migrating(steps, (n - 1) as nat, session).pausing(60, 200);
            w.drawing().writing(
                Source::Codex,
                session,
                steps[n - 1],
                drawn(w.rng) % 100 < 25,
            )
        }
    }
}

// ---------------------------------------------------------------------------
// What is written
// ---------------------------------------------------------------------------

/// Commands of no consequence.
pub open spec fn noise_list() -> Seq<Seq<char>> {
    seq![
        "ls"@,
        "git status"@,
        "clear"@,
        "cat README.md"@,
        "which node"@,
        "brew update"@,
        "cd ~/Documents/Tech"@,
        "nvim src/main.rs"@,
        "rg TODO"@,
        "docker ps"@,
    ]
}

/// Prompts that come down to two asks.
pub open spec fn prompt_list() -> Seq<Seq<char>> {
    seq![
        "summarize this PR and check the types"@,
        "please summarize the PR then check types"@,
        "summarize this pull request and verify the types"@,
        "can you summarize this PR and check its types"@,
        "write release notes from the last 5 commits"@,
        "generate release notes based on recent commits"@,
        "draft release notes from the latest commits"@,
    ]
}

/// A deployment.
pub open spec fn deploy_list() -> Seq<Seq<char>> {
    seq![
        "git pull"@,
        "npm run build"@,
        "scp -r dist/ deploy@web1:/srv/app"@,
        "curl -s https://app.example.com/health"@,
    ]
}

/// A commit.
pub open spec fn commit_list() -> Seq<Seq<char>> {
    seq!["git add ."@, "git commit -m \"update\""@, "git push"@]
}

/// A migration.
pub open spec fn migrate_list() -> Seq<Seq<char>> {
    seq!["npx prisma migrate dev"@, "npx prisma db seed"@, "npm test"@]
}

/// What a review of a pull request runs.
pub open spec fn review_list() -> Seq<Seq<char>> {
    seq!["gh pr view 128"@, "gh pr diff 128"@, "npx tsc --noEmit"@]
}

/// Texts as constants.
pub open spec fn words_view(v: Seq<&'static str>) -> Seq<Seq<char>> {
    Seq::new(v.len(), |i: int| v[i]@)
}

impl WriterView {
    /// After a deployment, three days out of five.
    pub open spec fn maybe_deploy(self) -> WriterView {
        let w = self.drawing();
        if drawn(self.rng) % 100 < 60 {
            w.stepping(deploy_list(), 4, Source::Zsh, Seq::empty(), 30, 240)
        } else {
            w
        }
    }

    /// After a commit, on most days.
    pub open spec fn maybe_commit(self) -> WriterView {
        let w = self.drawing();
        if drawn(self.rng) % 100 < 75 {
            w.stepping(commit_list(), 3, Source::Zsh, Seq::empty(), 20, 120)
        } else {
            w
        }
    }

    /// After an agent session with failing builds, every other day.
    pub open spec fn maybe_build(self, session: Seq<char>) -> WriterView {
        let w = self.drawing();
        if drawn(self.rng) % 100 < 50 {
            let runs = 3 + drawn(w.rng) as nat % 3;
            w.drawing().building(session, runs, runs).waiting(60).writing(
                Source::Claude,
                session,
                "cargo test"@,
                false,
            )
        } else {
            w
        }
    }

    /// After an agent session with a migration, one day out of three.
    pub open spec fn maybe_migrate(self, session: Seq<char>) -> WriterView {
        let w = self.drawing();
        if drawn(self.rng) % 100 < 35 {
            w.migrating(migrate_list(), 3, session)
        } else {
            w
        }
    }

    /// After a prompt, seven days out of ten; a review is followed by what the
    /// agent runs for it.
    pub open spec fn maybe_prompt(self, session: Seq<char>) -> WriterView {
        let w = self.drawing();
        if drawn(self.rng) % 100 < 70 {
            let p = prompt_list()[(drawn(w.rng) as int) % 7];
            let v = w.waiting(300).drawing().writing(Source::ClaudePrompt, session, p, false);
            if has_part(p, "PR"@) || has_part(p, "pull request"@) {
                v.stepping(review_list(), 3, Source::Claude, session, 40, 90)
            } else {
                v
            }
        } else {
            w
        }
    }

    /// After a day that began at `base`.
    pub open spec fn one_day(self, day: nat, base: int) -> WriterView {
        let session = "seed-day-"@ + decimal(day);
        let morning = WriterView { t: base, ..self };
        morning.drawing().idling(
            noise_list(),
            2 + drawn(morning.rng) as nat % 4,
        ).maybe_deploy().maybe_commit().maybe_build(session).maybe_migrate(session).maybe_prompt(
            session,
        )
    }

    /// After the days from the earliest to `last` days ago.
    pub open spec fn days_from(self, now: int, days: int, last: int) -> WriterView
        decreases days - last,
    {
        if last >= days {
            self
        } else {
            self.days_from(now, days, last + 1).one_day(
                last as nat,
                now - last * 86400 + 9 * 3600,
            )
        }
    }
}

/// The history of the given number of days up to `now`.
pub open spec fn seeded(now: int, days: int) -> Seq<SeedRowView> {
    WriterView { rng: START, t: 0, rows: Seq::empty() }.days_from(now, days, 0).rows
}

// ---------------------------------------------------------------------------
// Writing it
// ---------------------------------------------------------------------------

/// How much room the clock and the numbering need: no number gets near the
/// limits of 64 bits.
pub open spec fn roomy(w: WriterView, rows: int) -> bool {
    &&& -0x4000_0000_0000_0000 <= w.t
    &&& w.t + 1000 * rows <= 0x4000_0000_0000_0000
    &&& w.rows.len() + rows <= 0x4000_0000_0000_0000
}

impl Writer {
    /// Writes a row.
    fn cmd(&mut self, source: Source, session: &str, raw: &str, failed: bool)
        requires
            old(self)@.rows.len() < 0x4000_0000_0000_0000,
        ensures
            final(self)@ == old(self)@.writing(source, session@, raw@, failed),
    {
        let ghost before = self@;
        let n: usize = self.rows.len();
        let seq: i64 = FIRST_SEQ + n as i64 + 1;
        let row = SeedRow {
            source,
            session: session.to_owned(),
            raw: raw.to_owned(),
            head: head_word(raw),
            ts: self.t,
            seq,
            failed,
        };
        let ghost rv = row@;
        self.rows.push(row);
        assert(seeds_view(self.rows@) =~= before.rows.push(rv));
    }

    /// Lets time pass.
    fn wait(&mut self, dt: i64)
        requires
            roomy(old(self)@, 1),
            0 <= dt <= 1000,
        ensures
            final(self)@ == old(self)@.waiting(dt as int),
    {
        self.t += dt;
    }

    /// Lets a random time pass.
    fn pause(&mut self, base: i64, span: u64)
        requires
            roomy(old(self)@, 1),
            0 <= base <= 300,
            0 < span <= 600,
        ensures
            final(self)@ == old(self)@.pausing(base as int, span as int),
            final(self)@.rows == old(self)@.rows,
            old(self)@.t <= final(self)@.t <= old(self)@.t + 900,
    {
        reveal(WriterView::pausing);
        let r: u64 = self.rng.next() % span;
        self.wait(base + r as i64);
    }

    /// Writes steps, each after a pause.
    fn steps(
        &mut self,
        steps: &Vec<&'static str>,
        source: Source,
        session: &str,
        base: i64,
        span: u64,
    )
        requires
            roomy(old(self)@, steps@.len() as int),
            0 <= base <= 300,
            0 < span <= 600,
        ensures
            final(self)@ == old(self)@.stepping(
                words_view(steps@),
                steps@.len(),
                source,
                session@,
                base as int,
                span as int,
            ),
            final(self)@.rows.len() == old(self)@.rows.len() + steps@.len(),
            old(self)@.t <= final(self)@.t <= old(self)@.t + 1000 * steps@.len(),
    {
        let ghost start = self@;
        let ghost sv = words_view(steps@);
        let mut i: usize = 0;
        while i < steps.len()
            invariant
                i <= steps@.len(),
                sv == words_view(steps@),
                roomy(start, steps@.len() as int),
                0 <= base <= 300,
                0 < span <= 600,
                self@ == start.stepping(sv, i as nat, source, session@, base as int, span as int),
                self@.rows.len() == start.rows.len() + i,
                start.t <= self@.t <= start.t + 1000 * i,
            decreases steps@.len() - i,
        {
            self.pause(base, span);
            assert(sv[i as int] == steps@[i as int]@);
            self.cmd(source, session, steps[i], false);
            i += 1;
        }
    }

    /// Writes commands of no consequence.
    fn idle(&mut self, noise: &Vec<&'static str>, n: u64)
        requires
            roomy(old(self)@, n as int),
            n <= 5,
            words_view(noise@) == noise_list(),
        ensures
            final(self)@ == old(self)@.idling(noise_list(), n as nat),
            final(self)@.rows.len() == old(self)@.rows.len() + n,
            old(self)@.t <= final(self)@.t <= old(self)@.t + 1000 * n,
    {
        let ghost start = self@;
        let mut i: u64 = 0;
        assert(noise@.len() == noise_list().len());
        while i < n
            invariant
                i <= n,
                noise@.len() == 10,
                words_view(noise@) == noise_list(),
                roomy(start, n as int),
                self@ == start.idling(noise_list(), i as nat),
                self@.rows.len() == start.rows.len() + i,
                start.t <= self@.t <= start.t + 1000 * i,
            decreases n - i,
        {
            self.pause(60, 600);
            let ghost w = self@;
            let raw = self.rng.pick(noise);
            assert(noise_list()[(drawn(w.rng) as int) % 10] == raw@) by {
                assert(words_view(noise@)[(drawn(w.rng) as int) % 10] == noise@[(drawn(w.rng) as int)
                    % 10]@);
            }
            self.cmd(Source::Zsh, "", raw, false);
            proof {
                reveal_strlit("");
                assert(""@ =~= Seq::<char>::empty());
            }
            i += 1;
        }
    }

    /// Writes builds until one passes.
    fn builds(&mut self, session: &str, runs: u64)
        requires
            roomy(old(self)@, 2 * runs),
            runs <= 5,
        ensures
            final(self)@ == old(self)@.building(session@, runs as nat, runs as nat),
            final(self)@.rows.len() <= old(self)@.rows.len() + 2 * runs,
            old(self)@.t <= final(self)@.t <= old(self)@.t + 1000 * runs,
    {
        let ghost start = self@;
        let mut i: u64 = 0;
        while i < runs
            invariant
                i <= runs <= 5,
                roomy(start, 2 * runs),
                self@ == start.building(session@, i as nat, runs as nat),
                self@.rows.len() <= start.rows.len() + 2 * i,
                start.t <= self@.t <= start.t + 1000 * i,
            decreases runs - i,
        {
            let last = i + 1 == runs;
            self.pause(45, 180);
            self.cmd(Source::Claude, session, "cargo build", !last);
            if !last {
                self.wait(60);
                self.cmd(Source::Claude, session, "cat src/lib.rs", false);
            }
            i += 1;
        }
    }

    /// Writes a migration.
    fn migration(&mut self, steps: &Vec<&'static str>, session: &str)
        requires
            roomy(old(self)@, steps@.len() as int),
        ensures
            final(self)@ == old(self)@.migrating(words_view(steps@), steps@.len(), session@),
            final(self)@.rows.len() == old(self)@.rows.len() + steps@.len(),
            old(self)@.t <= final(self)@.t <= old(self)@.t + 1000 * steps@.len(),
    {
        let ghost start = self@;
        let ghost sv = words_view(steps@);
        let mut i: usize = 0;
        while i < steps.len()
            invariant
                i <= steps@.len(),
                sv == words_view(steps@),
                roomy(start, steps@.len() as int),
                self@ == start.migrating(sv, i as nat, session@),
                self@.rows.len() == start.rows.len() + i,
                start.t <= self@.t <= start.t + 1000 * i,
            decreases steps@.len() - i,
        {
            self.pause(60, 200);
            let failed = self.rng.chance(25);
            assert(sv[i as int] == steps@[i as int]@);
            self.cmd(Source::Codex, session, steps[i], failed);
            i += 1;
        }
    }

    /// Writes a deployment and a commit, if their chances come up.
    fn routines(&mut self)
        requires
            roomy(old(self)@, 7),
        ensures
            final(self)@ == old(self)@.maybe_deploy().maybe_commit(),
            final(self)@.rows.len() <= old(self)@.rows.len() + 7,
            old(self)@.t <= final(self)@.t <= old(self)@.t + 7000,
    {
        proof {
            reveal_strlit("");
            assert(""@ =~= Seq::<char>::empty());
        }
        if self.rng.chance(60) {
            let steps = vec![
                "git pull",
                "npm run build",
                "scp -r dist/ deploy@web1:/srv/app",
                "curl -s https://app.example.com/health",
            ];
            assert(words_view(steps@) =~= deploy_list());
            self.steps(&steps, Source::Zsh, "", 30, 240);
        }
        if self.rng.chance(75) {
            let steps = vec!["git add .", "git commit -m \"update\"", "git push"];
            assert(words_view(steps@) =~= commit_list());
            self.steps(&steps, Source::Zsh, "", 20, 120);
        }
    }

    /// Writes the agent sessions of a day, if their chances come up.
    fn sessions(&mut self, session: &str)
        requires
            roomy(old(self)@, 15),
        ensures
            final(self)@ == old(self)@.maybe_build(session@).maybe_migrate(session@),
            final(self)@.rows.len() <= old(self)@.rows.len() + 14,
            old(self)@.t <= final(self)@.t <= old(self)@.t + 10_000,
    {
        if self.rng.chance(50) {
            let runs: u64 = 3 + self.rng.next() % 3;
            self.builds(session, runs);
            self.wait(60);
            self.cmd(Source::Claude, session, "cargo test", false);
        }
        if self.rng.chance(35) {
            let steps = vec!["npx prisma migrate dev", "npx prisma db seed", "npm test"];
            assert(words_view(steps@) =~= migrate_list());
            self.migration(&steps, session);
        }
    }

    /// Writes a prompt and what follows it, if its chance comes up.
    fn prompt(&mut self, prompts: &Vec<&'static str>, session: &str)
        requires
            roomy(old(self)@, 5),
            words_view(prompts@) == prompt_list(),
        ensures
            final(self)@ == old(self)@.maybe_prompt(session@),
            final(self)@.rows.len() <= old(self)@.rows.len() + 4,
            old(self)@.t <= final(self)@.t <= old(self)@.t + 5000,
    {
        assert(prompts@.len() == prompt_list().len());
        if self.rng.chance(70) {
            let ghost w = self@;
            self.wait(300);
            let p = self.rng.pick(prompts);
            assert(prompt_list()[(drawn(w.rng) as int) % 7] == p@) by {
                assert(words_view(prompts@)[(drawn(w.rng) as int) % 7] == prompts@[(drawn(
                    w.rng,
                ) as int) % 7]@);
            }
            self.cmd(Source::ClaudePrompt, session, p, false);
            if contains(p, "PR") || contains(p, "pull request") {
                let steps = vec!["gh pr view 128", "gh pr diff 128", "npx tsc --noEmit"];
                assert(words_view(steps@) =~= review_list());
                self.steps(&steps, Source::Claude, session, 40, 90);
            }
        }
    }
}

/// Generates the history of `days` days up to `now`.
pub fn run(now: i64, days: i64) -> (r: Vec<SeedRow>)
    requires
        -0x1000_0000_0000_0000 <= now <= 0x1000_0000_0000_0000,
        days <= 0x100_0000_0000,
    ensures
        seeds_view(r@) == seeded(now as int, days as int),
{
    let noise = vec![
        "ls",
        "git status",
        "clear",
        "cat README.md",
        "which node",
        "brew update",
        "cd ~/Documents/Tech",
        "nvim src/main.rs",
        "rg TODO",
        "docker ps",
    ];
    assert(words_view(noise@) =~= noise_list());
    let prompts = vec![
        "summarize this PR and check the types",
        "please summarize the PR then check types",
        "summarize this pull request and verify the types",
        "can you summarize this PR and check its types",
        "write release notes from the last 5 commits",
        "generate release notes based on recent commits",
        "draft release notes from the latest commits",
    ];
    assert(words_view(prompts@) =~= prompt_list());
    let mut w = Writer { rng: Rng(START), t: 0, rows: Vec::new() };
    let ghost start = WriterView { rng: START, t: 0, rows: Seq::empty() };
    assert(w@.rows =~= start.rows);
    let mut day: i64 = if days > 0 {
        days
    } else {
        0
    };
    while day > 0
        invariant
            0 <= day <= 0x100_0000_0000,
            days <= 0x100_0000_0000,
            day <= days || day == 0,
            -0x1000_0000_0000_0000 <= now <= 0x1000_0000_0000_0000,
            words_view(noise@) == noise_list(),
            words_view(prompts@) == prompt_list(),
            w@ == start.days_from(now as int, days as int, day as int),
            days > 0 ==> w@.rows.len() <= 31 * (days - day),
            days <= 0 ==> w@.rows.len() == 0,
        decreases day,
    {
        day -= 1;
        let base: i64 = now - day * 86400 + 9 * 3600;
        let mut session = "seed-day-".to_owned();
        session.append(to_decimal(day as u128).as_str());
        w.t = base;
        let idle: u64 = 2 + w.rng.next() % 4;
        w.idle(&noise, idle);
        w.routines();
        w.sessions(session.as_str());
        w.prompt(&prompts, session.as_str());
    }
    w.rows
}

// ---------------------------------------------------------------------------
// Numbering
// ---------------------------------------------------------------------------

/// Whether rows are numbered one after the other.
pub open spec fn numbered(rows: Seq<SeedRowView>) -> bool {
    forall|k: int| 0 <= k < rows.len() ==> (#[trigger] rows[k]).seq == FIRST_SEQ + k + 1
}

/// Pausing writes nothing.
proof fn lemma_pausing(w: WriterView, base: int, span: int)
    ensures
        w.pausing(base, span).rows == w.rows,
{
    reveal(WriterView::pausing);
}

proof fn lemma_stepping(
    w: WriterView,
    steps: Seq<Seq<char>>,
    n: nat,
    source: Source,
    session: Seq<char>,
    base: int,
    span: int,
)
    requires
        numbered(w.rows),
    ensures
        numbered(w.stepping(steps, n, source, session, base, span).rows),
    decreases n,
{
    if n > 0 {
        lemma_stepping(w, steps, (n - 1) as nat, source, session, base, span);
        lemma_pausing(
            w.stepping(steps, (n - 1) as nat, source, session, base, span),
            base,
            span,
        );
    }
}

proof fn lemma_idling(w: WriterView, noise: Seq<Seq<char>>, n: nat)
    requires
        numbered(w.rows),
    ensures
        numbered(w.idling(noise, n).rows),
    decreases n,
{
    if n > 0 {
        lemma_idling(w, noise, (n - 1) as nat);
        lemma_pausing(w.idling(noise, (n - 1) as nat), 60, 600);
    }
}

proof fn lemma_building(w: WriterView, session: Seq<char>, n: nat, runs: nat)
    requires
        numbered(w.rows),
    ensures
        numbered(w.building(session, n, runs).rows),
    decreases n,
{
    if n > 0 {
        lemma_building(w, session, (n - 1) as nat, runs);
        lemma_pausing(w.building(session, (n - 1) as nat, runs), 45, 180);
    }
}

proof fn lemma_migrating(w: WriterView, steps: Seq<Seq<char>>, n: nat, session: Seq<char>)
    requires
        numbered(w.rows),
    ensures
        numbered(w.migrating(steps, n, session).rows),
    decreases n,
{
    if n > 0 {
        lemma_migrating(w, steps, (n - 1) as nat, session);
        lemma_pausing(w.migrating(steps, (n - 1) as nat, session), 60, 200);
    }
}

proof fn lemma_one_day(w: WriterView, day: nat, base: int)
    requires
        numbered(w.rows),
    ensures
        numbered(w.one_day(day, base).rows),
{
    let session = "seed-day-"@ + decimal(day);
    let morning = WriterView { t: base, ..w };
    let n = 2 + drawn(morning.rng) as nat % 4;
    lemma_idling(morning.drawing(), noise_list(), n);
    let a = morning.drawing().idling(noise_list(), n);
    lemma_stepping(a.drawing(), deploy_list(), 4, Source::Zsh, Seq::empty(), 30, 240);
    let b = a.maybe_deploy();
    lemma_stepping(b.drawing(), commit_list(), 3, Source::Zsh, Seq::empty(), 20, 120);
    let c = b.maybe_commit();
    let runs = 3 + drawn(c.drawing().rng) as nat % 3;
    lemma_building(c.drawing().drawing(), session, runs, runs);
    let d = c.maybe_build(session);
    assert(numbered(d.rows));
    lemma_migrating(d.drawing(), migrate_list(), 3, session);
    let e = d.maybe_migrate(session);
    let v = e.drawing();
    let p = prompt_list()[(drawn(v.rng) as int) % 7];
    let x = v.waiting(300).drawing().writing(Source::ClaudePrompt, session, p, false);
    assert(numbered(x.rows));
    lemma_stepping(x, review_list(), 3, Source::Claude, session, 40, 90);
}

proof fn lemma_days(w: WriterView, now: int, days: int, last: int)
    requires
        numbered(w.rows),
    ensures
        numbered(w.days_from(now, days, last).rows),
    decreases days - last,
{
    if last < days {
        lemma_days(w, now, days, last + 1);
        lemma_one_day(
            w.days_from(now, days, last + 1),
            last as nat,
            now - last * 86400 + 9 * 3600,
        );
    }
}

/// The rows of a synthetic history are numbered one after the other, so that no
/// two of a session collide.
pub proof fn synthetic_rows_are_numbered(now: int, days: int)
    ensures
        numbered(seeded(now, days)),
{
    lemma_days(WriterView { rng: START, t: 0, rows: Seq::empty() }, now, days, 0);
}

// ---------------------------------------------------------------------------
// What a synthetic day holds
// ---------------------------------------------------------------------------

/// Whether a row is one that a day can hold: in the shell, noise and the steps of the two
/// workflows, outside any session; with the agents, within the session of the day, the
/// builds that may fail, the steps of a review, the migrations that may fail, and the
/// prompts.
pub open spec fn fits(r: SeedRowView, session: Seq<char>) -> bool {
    &&& r.head == first_word(r.raw)
    &&& match r.source {
        Source::Zsh => r.session.len() == 0 && !r.failed && (noise_list().contains(r.raw)
            || deploy_list().contains(r.raw) || commit_list().contains(r.raw)),
        Source::Claude => r.session == session && (r.raw == "cargo build"@ || (!r.failed && (r.raw
            == "cat src/lib.rs"@ || r.raw == "cargo test"@ || review_list().contains(r.raw)))),
        Source::Codex => r.session == session && migrate_list().contains(r.raw),
        Source::ClaudePrompt => r.session == session && !r.failed && prompt_list().contains(r.raw),
    }
}

/// Whether the rows from a place on are those of one day, stamped in order from its
/// beginning on.
spec fn grown(w: WriterView, first: Seq<SeedRowView>, base: int, session: Seq<char>) -> bool {
    &&& base <= w.t
    &&& first.is_prefix_of(w.rows)
    &&& forall|k: int|
        first.len() <= k < w.rows.len() ==> base <= (#[trigger] w.rows[k]).ts <= w.t && fits(
            w.rows[k],
            session,
        )
    &&& forall|j: int, k: int|
        first.len() <= j <= k < w.rows.len() ==> (#[trigger] w.rows[j]).ts <= (
        #[trigger] w.rows[k]).ts
}

/// Writing a row that fits.
proof fn lemma_written(
    w: WriterView,
    first: Seq<SeedRowView>,
    base: int,
    day: Seq<char>,
    source: Source,
    session: Seq<char>,
    raw: Seq<char>,
    failed: bool,
)
    requires
        grown(w, first, base, day),
        fits(
            SeedRowView {
                source,
                session,
                raw,
                head: first_word(raw),
                ts: w.t,
                seq: FIRST_SEQ + w.rows.len() + 1,
                failed,
            },
            day,
        ),
    ensures
        grown(w.writing(source, session, raw, failed), first, base, day),
        w.writing(source, session, raw, failed).t == w.t,
        w.writing(source, session, raw, failed).rng == w.rng,
{
    let v = w.writing(source, session, raw, failed);
    assert forall|k: int| first.len() <= k < v.rows.len() implies base <= (#[trigger] v.rows[k]).ts
        <= v.t && fits(v.rows[k], day) by {
        if k < w.rows.len() {
            assert(v.rows[k] == w.rows[k]);
        }
    }
    assert forall|j: int, k: int| first.len() <= j <= k < v.rows.len() implies (
    #[trigger] v.rows[j]).ts <= (#[trigger] v.rows[k]).ts by {
        if j < w.rows.len() {
            assert(v.rows[j] == w.rows[j]);
        }
        if k < w.rows.len() {
            assert(v.rows[k] == w.rows[k]);
        }
    }
}

/// Waiting and drawing write nothing.
proof fn lemma_passed(
    w: WriterView,
    first: Seq<SeedRowView>,
    base: int,
    day: Seq<char>,
    wait: int,
    span: int,
)
    requires
        grown(w, first, base, day),
        0 <= wait,
        0 < span,
    ensures
        grown(w.drawing(), first, base, day),
        grown(w.waiting(wait), first, base, day),
        grown(w.pausing(wait, span), first, base, day),
{
    reveal(WriterView::pausing);
    vstd::arithmetic::div_mod::lemma_mod_bound(drawn(w.rng) as int, span);
    let a = w.drawing();
    let b = w.waiting(wait);
    let c = w.pausing(wait, span);
    assert(a.rows == w.rows && b.rows == w.rows && c.rows == w.rows);
    assert(c.t >= w.t);
}

/// Taking the steps of a workflow.
proof fn lemma_stepped_on(
    w: WriterView,
    steps: Seq<Seq<char>>,
    n: nat,
    source: Source,
    session: Seq<char>,
    pause: int,
    span: int,
    first: Seq<SeedRowView>,
    base: int,
    day: Seq<char>,
)
    requires
        grown(w, first, base, day),
        n <= steps.len(),
        0 <= pause,
        0 < span,
        (source == Source::Zsh && session.len() == 0 && (steps == deploy_list() || steps
            == commit_list())) || (source == Source::Claude && session == day && steps
            == review_list()),
    ensures
        grown(w.stepping(steps, n, source, session, pause, span), first, base, day),
    decreases n,
{
    if n > 0 {
        let m = (n - 1) as nat;
        lemma_stepped_on(w, steps, m, source, session, pause, span, first, base, day);
        let v = w.stepping(steps, m, source, session, pause, span);
        lemma_passed(v, first, base, day, pause, span);
        assert(steps.contains(steps[n - 1]));
        lemma_written(
            v.pausing(pause, span),
            first,
            base,
            day,
            source,
            session,
            steps[n - 1],
            false,
        );
    }
}

/// Idling in the shell.
proof fn lemma_idled(
    w: WriterView,
    n: nat,
    first: Seq<SeedRowView>,
    base: int,
    day: Seq<char>,
)
    requires
        grown(w, first, base, day),
    ensures
        grown(w.idling(noise_list(), n), first, base, day),
    decreases n,
{
    if n > 0 {
        let m = (n - 1) as nat;
        lemma_idled(w, m, first, base, day);
        let v = w.idling(noise_list(), m).pausing(60, 600);
        lemma_passed(w.idling(noise_list(), m), first, base, day, 60, 600);
        lemma_passed(v, first, base, day, 0, 1);
        let i = (drawn(v.rng) as int) % (noise_list().len() as int);
        assert(noise_list().len() == 10);
        assert(0 <= i < 10);
        assert(noise_list().contains(noise_list()[i]));
        lemma_written(
            v.drawing(),
            first,
            base,
            day,
            Source::Zsh,
            Seq::empty(),
            noise_list()[i],
            false,
        );
    }
}

/// Building until it works.
proof fn lemma_built(
    w: WriterView,
    session: Seq<char>,
    n: nat,
    runs: nat,
    first: Seq<SeedRowView>,
    base: int,
)
    requires
        grown(w, first, base, session),
    ensures
        grown(w.building(session, n, runs), first, base, session),
    decreases n,
{
    if n > 0 {
        let m = (n - 1) as nat;
        lemma_built(w, session, m, runs, first, base);
        let v = w.building(session, m, runs);
        lemma_passed(v, first, base, session, 45, 180);
        let u = v.pausing(45, 180);
        lemma_written(u, first, base, session, Source::Claude, session, "cargo build"@, n < runs);
        let b = u.writing(Source::Claude, session, "cargo build"@, n < runs);
        lemma_passed(b, first, base, session, 60, 1);
        lemma_written(
            b.waiting(60),
            first,
            base,
            session,
            Source::Claude,
            session,
            "cat src/lib.rs"@,
            false,
        );
    }
}

/// Running migrations.
proof fn lemma_migrated(
    w: WriterView,
    n: nat,
    session: Seq<char>,
    first: Seq<SeedRowView>,
    base: int,
)
    requires
        grown(w, first, base, session),
        n <= 3,
    ensures
        grown(w.migrating(migrate_list(), n, session), first, base, session),
    decreases n,
{
    if n > 0 {
        let m = (n - 1) as nat;
        lemma_migrated(w, m, session, first, base);
        let v = w.migrating(migrate_list(), m, session);
        lemma_passed(v, first, base, session, 60, 200);
        let u = v.pausing(60, 200);
        lemma_passed(u, first, base, session, 0, 1);
        assert(migrate_list().contains(migrate_list()[n - 1]));
        lemma_written(
            u.drawing(),
            first,
            base,
            session,
            Source::Codex,
            session,
            migrate_list()[n - 1],
            drawn(u.rng) % 100 < 25,
        );
    }
}

/// A day of a synthetic history leaves the days before it as they are, and adds rows that
/// a day can hold, in the order of their time and from its beginning on.
pub proof fn a_day_adds_what_a_day_can_hold(w: WriterView, day: nat, base: int, j: int, k: int)
    requires
        w.rows.len() <= j <= k < w.one_day(day, base).rows.len(),
    ensures
        w.rows.is_prefix_of(w.one_day(day, base).rows),
        fits(w.one_day(day, base).rows[k], "seed-day-"@ + decimal(day)),
        base <= w.one_day(day, base).rows[j].ts <= w.one_day(day, base).rows[k].ts,
{
    lemma_day_grown(w, day, base);
}

/// What a day adds.
proof fn lemma_day_grown(w: WriterView, day: nat, base: int)
    ensures
        grown(w.one_day(day, base), w.rows, base, "seed-day-"@ + decimal(day)),
{
    let session = "seed-day-"@ + decimal(day);
    let first = w.rows;
    let morning = WriterView { t: base, ..w };
    assert(grown(morning, first, base, session));
    lemma_passed(morning, first, base, session, 0, 1);
    let n = 2 + drawn(morning.rng) as nat % 4;
    lemma_idled(morning.drawing(), n, first, base, session);
    let a = morning.drawing().idling(noise_list(), n);
    lemma_passed(a, first, base, session, 0, 1);
    let e = Seq::<char>::empty();
    assert(deploy_list().len() == 4 && commit_list().len() == 3 && review_list().len() == 3);
    lemma_stepped_on(
        a.drawing(),
        deploy_list(),
        4,
        Source::Zsh,
        e,
        30,
        240,
        first,
        base,
        session,
    );
    let b = a.maybe_deploy();
    assert(grown(b, first, base, session));
    lemma_passed(b, first, base, session, 0, 1);
    lemma_stepped_on(
        b.drawing(),
        commit_list(),
        3,
        Source::Zsh,
        e,
        20,
        120,
        first,
        base,
        session,
    );
    let c = b.maybe_commit();
    assert(grown(c, first, base, session));
    lemma_passed(c, first, base, session, 0, 1);
    lemma_passed(c.drawing(), first, base, session, 0, 1);
    let runs = 3 + drawn(c.drawing().rng) as nat % 3;
    let d0 = c.drawing().drawing();
    lemma_built(d0, session, runs, runs, first, base);
    let d1 = d0.building(session, runs, runs);
    lemma_passed(d1, first, base, session, 60, 1);
    lemma_written(
        d1.waiting(60),
        first,
        base,
        session,
        Source::Claude,
        session,
        "cargo test"@,
        false,
    );
    let d = c.maybe_build(session);
    assert(grown(d, first, base, session));
    lemma_passed(d, first, base, session, 0, 1);
    lemma_migrated(d.drawing(), 3, session, first, base);
    let f = d.maybe_migrate(session);
    assert(grown(f, first, base, session));
    lemma_passed(f, first, base, session, 0, 1);
    let v = f.drawing();
    let i = (drawn(v.rng) as int) % 7;
    assert(prompt_list().len() == 7);
    assert(0 <= i < 7);
    let p = prompt_list()[i];
    assert(prompt_list().contains(p));
    lemma_passed(v, first, base, session, 300, 1);
    let u = v.waiting(300);
    lemma_passed(u, first, base, session, 0, 1);
    lemma_written(
        u.drawing(),
        first,
        base,
        session,
        Source::ClaudePrompt,
        session,
        p,
        false,
    );
    let x = u.drawing().writing(Source::ClaudePrompt, session, p, false);
    lemma_stepped_on(
        x,
        review_list(),
        3,
        Source::Claude,
        session,
        40,
        90,
        first,
        base,
        session,
    );
}

/// Whether a row belongs to a day, counted back from a time: from nine hours on, and
/// such as a day can hold.
pub open spec fn of_day(r: SeedRowView, now: int, day: nat) -> bool {
    fits(r, "seed-day-"@ + decimal(day)) && r.ts >= now - 86_400 * day + 32_400
}

/// Every row of a synthetic history belongs to one of its days, and there are none
/// without days.
pub proof fn every_row_belongs_to_a_day(now: int, days: int, k: int)
    ensures
        0 <= k < seeded(now, days).len() ==> exists|d: nat|
            d < days && #[trigger] of_day(seeded(now, days)[k], now, d),
        days <= 0 ==> seeded(now, days).len() == 0,
{
    let w = WriterView { rng: START, t: 0, rows: Seq::empty() };
    if 0 <= k < seeded(now, days).len() {
        lemma_day_of(w, now, days, 0, k);
    }
}

/// The day of a row.
proof fn lemma_day_of(w: WriterView, now: int, days: int, last: int, k: int)
    requires
        w.rows.len() <= k < w.days_from(now, days, last).rows.len(),
        0 <= last,
    ensures
        exists|d: nat|
            d < days && #[trigger] of_day(w.days_from(now, days, last).rows[k], now, d),
    decreases days - last,
{
    if last < days {
        let v = w.days_from(now, days, last + 1);
        let base = now - last * 86400 + 9 * 3600;
        lemma_day_grown(v, last as nat, base);
        let u = v.one_day(last as nat, base);
        if k < v.rows.len() {
            lemma_day_of(w, now, days, last + 1, k);
            assert(u.rows[k] == v.rows[k]);
        } else {
            assert(of_day(u.rows[k], now, last as nat));
        }
    }
}

} // verus!
