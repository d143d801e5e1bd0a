//! The board: which candidate is selected, which are being drafted, and what
//! became of the others.
use crate::count::{how_many, lemma_same_positions};
use crate::draft::reply::{concat, Draft, DraftView};
use vstd::prelude::*;

verus! {

/// How many drafts are made at a time.
pub const MAX_WORKERS: usize = 3;

/// What became of a candidate.
pub enum State {
    Idle,
    Queued,
    Drafting,
    Drafted(Draft),
    Failed(String),
    Done(String),
}

/// What a [`State`] holds.
pub enum StateView {
    Idle,
    Queued,
    Drafting,
    Drafted(DraftView),
    Failed(Seq<char>),
    Done(Seq<char>),
}

impl View for State {
    type V = StateView;

    open spec fn view(&self) -> StateView {
        match *self {
            State::Idle => StateView::Idle,
            State::Queued => StateView::Queued,
            State::Drafting => StateView::Drafting,
            State::Drafted(d) => StateView::Drafted(d@),
            State::Failed(s) => StateView::Failed(s@),
            State::Done(s) => StateView::Done(s@),
        }
    }
}

/// The states of all candidates and what goes on around them.
pub struct Board {
    pub states: Vec<State>,
    pub queue: Vec<usize>,
    pub active: usize,
    pub auto_accept: bool,
    pub selected: usize,
}

/// What a [`Board`] holds.
pub struct BoardView {
    pub states: Seq<StateView>,
    pub queue: Seq<usize>,
    pub active: nat,
    pub auto_accept: bool,
    pub selected: int,
}

/// What a list of states holds.
pub open spec fn states_view(v: Seq<State>) -> Seq<StateView> {
    Seq::new(v.len(), |i: int| v[i]@)
}

impl View for Board {
    type V = BoardView;

    open spec fn view(&self) -> BoardView {
        BoardView {
            states: states_view(self.states@),
            queue: self.queue@,
            active: self.active as nat,
            auto_accept: self.auto_accept,
            selected: self.selected as int,
        }
    }
}

/// How many of the states are drafting.
pub open spec fn drafting(s: Seq<StateView>) -> nat
    decreases s.len(),
{
    if s.len() == 0 {
        0
    } else {
        drafting(s.drop_last()) + if s.last() is Drafting {
            1nat
        } else {
            0
        }
    }
}

impl BoardView {
    /// The selection is a candidate; as many workers are active as candidates
    /// are being drafted, and not too many; the queue holds exactly the queued
    /// candidates, each once.
    pub open spec fn wf(self) -> bool {
        &&& 0 <= self.selected < self.states.len()
        &&& self.active == drafting(self.states)
        &&& self.active <= MAX_WORKERS
        &&& self.queue.no_duplicates()
        &&& forall|k: int|
            0 <= k < self.queue.len() ==> (#[trigger] self.queue[k]) < self.states.len()
                && self.states[self.queue[k] as int] is Queued
        &&& forall|i: usize|
            i < self.states.len() && self.states[i as int] is Queued
                ==> #[trigger] self.queue.contains(i)
    }

    /// The board with one state changed.
    pub open spec fn with_state(self, i: int, s: StateView) -> BoardView {
        BoardView { states: self.states.update(i, s), ..self }
    }
}

/// Whether a candidate can be put in the queue.
pub open spec fn can_queue(s: StateView) -> bool {
    s is Idle || s is Failed
}

/// What a new board holds.
pub open spec fn fresh(n: nat) -> BoardView {
    BoardView {
        states: Seq::new(n, |i: int| StateView::Idle),
        queue: Seq::empty(),
        active: 0,
        auto_accept: false,
        selected: 0,
    }
}

// ---------------------------------------------------------------------------
// Counting
// ---------------------------------------------------------------------------

/// Changing one state changes the count by that state.
proof fn lemma_drafting_update(s: Seq<StateView>, i: int, x: StateView)
    requires
        0 <= i < s.len(),
    ensures
        drafting(s.update(i, x)) + (if s[i] is Drafting {
            1nat
        } else {
            0
        }) == drafting(s) + (if x is Drafting {
            1nat
        } else {
            0
        }),
    decreases s.len(),
{
    let t = s.update(i, x);
    if i == s.len() - 1 {
        assert(t.drop_last() =~= s.drop_last());
    } else {
        lemma_drafting_update(s.drop_last(), i, x);
        assert(t.drop_last() =~= s.drop_last().update(i, x));
        assert(t.last() == s.last());
    }
}

/// Without drafting states the count is zero.
proof fn lemma_none_drafting(s: Seq<StateView>)
    requires
        forall|i: int| 0 <= i < s.len() ==> !(#[trigger] s[i] is Drafting),
    ensures
        drafting(s) == 0,
    decreases s.len(),
{
    if s.len() > 0 {
        lemma_none_drafting(s.drop_last());
        assert(!(s[s.len() - 1] is Drafting));
    }
}

/// A drafting state is counted.
proof fn lemma_drafting_positive(s: Seq<StateView>, i: int)
    requires
        0 <= i < s.len(),
        s[i] is Drafting,
    ensures
        drafting(s) > 0,
    decreases s.len(),
{
    if i < s.len() - 1 {
        lemma_drafting_positive(s.drop_last(), i);
    }
}

/// Changing a state that is neither queued nor drafting to another such state
/// keeps the board in order.
proof fn lemma_settle(b: BoardView, i: int, x: StateView)
    requires
        b.wf(),
        0 <= i < b.states.len(),
        !(b.states[i] is Queued),
        !(b.states[i] is Drafting),
        !(x is Queued),
        !(x is Drafting),
    ensures
        b.with_state(i, x).wf(),
{
    lemma_drafting_update(b.states, i, x);
    let c = b.with_state(i, x);
    assert forall|k: int| 0 <= k < c.queue.len() implies (#[trigger] c.queue[k]) < c.states.len()
        && c.states[c.queue[k] as int] is Queued by {
        assert(b.states[b.queue[k] as int] is Queued);
    }
    assert forall|j: usize| j < c.states.len() && c.states[j as int] is Queued implies #[trigger] c.queue.contains(
        j,
    ) by {
        assert(b.queue.contains(j));
    }
}

/// Putting a candidate at the end of the queue keeps the board in order.
proof fn lemma_enqueue(b: BoardView, i: usize)
    requires
        b.wf(),
        i < b.states.len(),
        can_queue(b.states[i as int]),
    ensures
        enqueued(b, i).wf(),
{
    lemma_drafting_update(b.states, i as int, StateView::Queued);
    let c = enqueued(b, i);
    assert forall|k: int| 0 <= k < c.queue.len() implies (#[trigger] c.queue[k]) < c.states.len()
        && c.states[c.queue[k] as int] is Queued by {
        if k < b.queue.len() {
            assert(b.states[b.queue[k] as int] is Queued);
        }
    }
    assert forall|j: int, k: int|
        0 <= j < c.queue.len() && 0 <= k < c.queue.len() && j != k implies c.queue[j] != c.queue[k] by {
        if j < b.queue.len() {
            assert(b.states[b.queue[j] as int] is Queued);
        }
        if k < b.queue.len() {
            assert(b.states[b.queue[k] as int] is Queued);
        }
    }
    assert forall|j: usize| j < c.states.len() && c.states[j as int] is Queued implies #[trigger] c.queue.contains(
        j,
    ) by {
        if j == i {
            assert(c.queue[b.queue.len() as int] == i);
        } else {
            assert(b.queue.contains(j));
            let k = choose|k: int| 0 <= k < b.queue.len() && b.queue[k] == j;
            assert(c.queue[k] == j);
        }
    }
}

// ---------------------------------------------------------------------------
// Transitions
// ---------------------------------------------------------------------------

/// The board with a candidate put at the end of the queue.
pub open spec fn enqueued(b: BoardView, i: usize) -> BoardView {
    BoardView {
        states: b.states.update(i as int, StateView::Queued),
        queue: b.queue.push(i),
        ..b
    }
}

/// The board with the first `n` candidates put in the queue that can be.
pub open spec fn all_enqueued(b: BoardView, n: nat) -> BoardView
    decreases n,
{
    if n == 0 {
        b
    } else {
        let c = all_enqueued(b, (n - 1) as nat);
        if can_queue(c.states[n - 1]) {
            enqueued(c, (n - 1) as usize)
        } else {
            c
        }
    }
}

/// The board with the first queued candidate handed to a worker.
pub open spec fn fed(b: BoardView) -> BoardView {
    BoardView {
        states: b.states.update(b.queue[0] as int, StateView::Drafting),
        queue: b.queue.skip(1),
        active: b.active + 1,
        ..b
    }
}

/// What is said of an installed draft.
pub open spec fn installed_text(name: Seq<char>, path: Seq<char>) -> Seq<char> {
    "✓ "@ + name + " installed → "@ + path
}

/// The state after an attempt to install a draft.
pub open spec fn after_install(name: Seq<char>, out: Result<Seq<char>, Seq<char>>) -> StateView {
    match out {
        Ok(path) => StateView::Done(installed_text(name, path)),
        Err(e) => StateView::Failed("install failed: "@ + e),
    }
}

/// What an attempt gave, by its texts.
pub open spec fn outcome(out: Result<String, String>) -> Result<Seq<char>, Seq<char>> {
    match out {
        Ok(s) => Ok(s@),
        Err(s) => Err(s@),
    }
}

/// A key, as far as the board knows it.
#[derive(Clone, Copy, PartialEq, Eq, Debug, Structural)]
pub enum Key {
    Quit,
    Down,
    Up,
    Draft,
    Accept,
    Ignore,
    AcceptAll,
    Other,
}

/// What is to be done after a key.
#[derive(Clone, Copy, PartialEq, Eq, Debug, Structural)]
pub enum Effect {
    /// Nothing.
    Stay,
    /// Leave the board.
    Quit,
    /// Install the draft of the selected candidate.
    Install,
    /// Note that the selected candidate is ignored.
    Ignore,
}

/// The board after a key, and what is to be done.
pub open spec fn pressed(b: BoardView, key: Key) -> (BoardView, Effect) {
    let s = b.states[b.selected];
    match key {
        Key::Quit => (b, Effect::Quit),
        Key::Down => (
            BoardView {
                selected: if b.selected + 1 < b.states.len() {
                    b.selected + 1
                } else {
                    b.states.len() - 1
                },
                ..b
            },
            Effect::Stay,
        ),
        Key::Up => (
            BoardView {
                selected: if b.selected > 0 {
                    b.selected - 1
                } else {
                    0
                },
                ..b
            },
            Effect::Stay,
        ),
        Key::Draft => if can_queue(s) {
            (enqueued(b, b.selected as usize), Effect::Stay)
        } else {
            (b, Effect::Stay)
        },
        Key::Accept => if s is Drafted {
            (b, Effect::Install)
        } else {
            (b, Effect::Stay)
        },
        Key::Ignore => if s is Idle || s is Drafted || s is Failed {
            (b.with_state(b.selected, StateView::Done("ignored"@)), Effect::Ignore)
        } else {
            (b, Effect::Stay)
        },
        Key::AcceptAll => (
            all_enqueued(BoardView { auto_accept: true, ..b }, b.states.len()),
            Effect::Stay,
        ),
        Key::Other => (b, Effect::Stay),
    }
}

/// The state of a candidate whose draft came back, where nothing is installed.
pub open spec fn after_draft(out: Result<DraftView, Seq<char>>) -> StateView {
    match out {
        Ok(d) => StateView::Drafted(d),
        Err(e) => StateView::Failed("draft failed: "@ + e),
    }
}

/// What came back, by its contents.
pub open spec fn draft_outcome(out: Result<Draft, String>) -> Result<DraftView, Seq<char>> {
    match out {
        Ok(d) => Ok(d@),
        Err(e) => Err(e@),
    }
}

/// The board with the draft of a candidate back and its state set.
pub open spec fn finished(b: BoardView, i: int, s: StateView) -> BoardView {
    BoardView { states: b.states.update(i, s), active: (b.active - 1) as nat, ..b }
}

/// A finished draft frees its worker and keeps the board in order.
proof fn lemma_finished(b: BoardView, i: int, s: StateView)
    requires
        b.wf(),
        0 <= i < b.states.len(),
        b.states[i] is Drafting,
        !(s is Queued),
        !(s is Drafting),
    ensures
        finished(b, i, s).wf(),
        b.active > 0,
{
    lemma_drafting_update(b.states, i, s);
    lemma_drafting_positive(b.states, i);
    let c = finished(b, i, s);
    assert forall|k: int| 0 <= k < c.queue.len() implies (#[trigger] c.queue[k]) < c.states.len()
        && c.states[c.queue[k] as int] is Queued by {
        assert(b.states[b.queue[k] as int] is Queued);
    }
    assert forall|j: usize| j < c.states.len() && c.states[j as int] is Queued implies #[trigger] c.queue.contains(
        j,
    ) by {
        assert(b.queue.contains(j));
    }
}

/// Handing a candidate to a worker keeps the board in order.
proof fn lemma_fed(b: BoardView)
    requires
        b.wf(),
        b.queue.len() > 0,
        b.active < MAX_WORKERS,
    ensures
        fed(b).wf(),
{
    let i = b.queue[0] as int;
    assert(b.states[i] is Queued);
    lemma_drafting_update(b.states, i, StateView::Drafting);
    let c = fed(b);
    assert forall|k: int| 0 <= k < c.queue.len() implies (#[trigger] c.queue[k]) < c.states.len()
        && c.states[c.queue[k] as int] is Queued by {
        assert(c.queue[k] == b.queue[k + 1]);
        assert(b.states[b.queue[k + 1] as int] is Queued);
        assert(b.queue[k + 1] != b.queue[0]);
    }
    assert forall|j: usize| j < c.states.len() && c.states[j as int] is Queued implies #[trigger] c.queue.contains(
        j,
    ) by {
        assert(j != i);
        assert(b.queue.contains(j));
        let k = choose|k: int| 0 <= k < b.queue.len() && b.queue[k] == j;
        assert(c.queue[k - 1] == j);
    }
}

/// Queueing the first candidates keeps the board in order.
proof fn lemma_all_enqueued(b: BoardView, n: nat)
    requires
        b.wf(),
        n <= b.states.len() <= usize::MAX,
    ensures
        all_enqueued(b, n).wf(),
        all_enqueued(b, n).states.len() == b.states.len(),
        all_enqueued(b, n).selected == b.selected,
        forall|i: int|
            n <= i < b.states.len() ==> #[trigger] all_enqueued(b, n).states[i] == b.states[i],
    decreases n,
{
    if n > 0 {
        lemma_all_enqueued(b, (n - 1) as nat);
        let c = all_enqueued(b, (n - 1) as nat);
        if can_queue(c.states[n - 1]) {
            lemma_enqueue(c, (n - 1) as usize);
        }
    }
}

impl Board {
    /// The board is in order.
    pub open spec fn wf(&self) -> bool {
        self@.wf()
    }

    /// A board for `n` candidates.
    pub fn new(n: usize) -> (r: Self)
        requires
            n > 0,
        ensures
            r@ == fresh(n as nat),
            r.wf(),
    {
        let mut states: Vec<State> = Vec::new();
        let mut i: usize = 0;
        while i < n
            invariant
                i <= n,
                states@.len() == i,
                forall|k: int| 0 <= k < i ==> (#[trigger] states@[k])@ == StateView::Idle,
            decreases n - i,
        {
            states.push(State::Idle);
            i += 1;
        }
        let r = Board { states, queue: Vec::new(), active: 0, auto_accept: false, selected: 0 };
        assert(r@.states =~= fresh(n as nat).states);
        proof {
            lemma_none_drafting(r@.states);
        }
        r
    }

    /// Sets one state.
    fn set(&mut self, i: usize, s: State)
        requires
            i < old(self).states@.len(),
        ensures
            final(self)@ == old(self)@.with_state(i as int, s@),
    {
        let ghost before = self@;
        let ghost sv = s@;
        self.states.set(i, s);
        assert(self@.states =~= before.states.update(i as int, sv));
    }

    /// Puts a candidate at the end of the queue.
    fn enqueue(&mut self, i: usize)
        requires
            old(self).wf(),
            i < old(self).states@.len(),
            can_queue(old(self)@.states[i as int]),
        ensures
            final(self)@ == enqueued(old(self)@, i),
            final(self).wf(),
    {
        proof {
            lemma_enqueue(self@, i);
        }
        self.set(i, State::Queued);
        self.queue.push(i);
    }

    /// Whether a candidate can be put in the queue.
    fn queueable(&self, i: usize) -> (r: bool)
        requires
            i < self.states@.len(),
        ensures
            r == can_queue(self@.states[i as int]),
    {
        match &self.states[i] {
            State::Idle => true,
            State::Failed(_) => true,
            _ => false,
        }
    }

    /// Hands the next queued candidate to a worker, if one is free.
    pub fn feed(&mut self) -> (r: Option<usize>)
        requires
            old(self).wf(),
        ensures
            final(self).wf(),
            match r {
                Some(i) => {
                    &&& old(self)@.queue.len() > 0
                    &&& old(self)@.active < MAX_WORKERS
                    &&& i == old(self)@.queue[0]
                    &&& final(self)@ == fed(old(self)@)
                },
                None => {
                    &&& old(self)@.queue.len() == 0 || old(self)@.active >= MAX_WORKERS
                    &&& final(self)@ == old(self)@
                },
            },
    {
        if self.active >= MAX_WORKERS || self.queue.len() == 0 {
            return None;
        }
        let ghost before = self@;
        let i: usize = self.queue[0];
        proof {
            assert(before.states[before.queue[0] as int] is Queued);
            lemma_fed(before);
        }
        let _ = self.queue.remove(0);
        assert(self.queue@ =~= before.queue.skip(1));
        self.active += 1;
        self.set(i, State::Drafting);
        Some(i)
    }

    /// Whether a draft that came back is installed at once.
    pub fn installs(&self, out: &Result<Draft, String>) -> (r: bool)
        ensures
            r == (self@.auto_accept && out is Ok),
    {
        self.auto_accept && out.is_ok()
    }

    /// Takes in a draft that is not installed at once.
    pub fn drafted(&mut self, i: usize, out: Result<Draft, String>)
        requires
            old(self).wf(),
            i < old(self).states@.len(),
            old(self)@.states[i as int] is Drafting,
        ensures
            final(self).wf(),
            final(self)@ == finished(old(self)@, i as int, after_draft(draft_outcome(out))),
    {
        let ghost before = self@;
        let state = match out {
            Ok(d) => State::Drafted(d),
            Err(e) => State::Failed(concat("draft failed: ", e.as_str())),
        };
        proof {
            lemma_finished(before, i as int, state@);
        }
        self.active -= 1;
        self.set(i, state);
    }

    /// Takes in a draft that was installed at once, or failed to be.
    pub fn auto_installed(&mut self, i: usize, name: &str, out: Result<String, String>)
        requires
            old(self).wf(),
            i < old(self).states@.len(),
            old(self)@.states[i as int] is Drafting,
        ensures
            final(self).wf(),
            final(self)@ == finished(
                old(self)@,
                i as int,
                after_install(name@, outcome(out)),
            ),
    {
        let ghost before = self@;
        let state = install_state(name, &out);
        proof {
            lemma_finished(before, i as int, state@);
        }
        self.active -= 1;
        self.set(i, state);
    }

    /// Takes in what became of installing the selected draft.
    pub fn accepted(&mut self, out: Result<String, String>)
        requires
            old(self).wf(),
            old(self)@.states[old(self)@.selected] is Drafted,
        ensures
            final(self).wf(),
            old(self)@.states[old(self)@.selected] matches StateView::Drafted(d) ==> final(self)@
                == old(self)@.with_state(
                old(self)@.selected,
                after_install(d.name, outcome(out)),
            ),
    {
        let ghost before = self@;
        let i: usize = self.selected;
        let state = match &self.states[i] {
            State::Drafted(d) => install_state(d.name.as_str(), &out),
            _ => State::Idle,
        };
        proof {
            lemma_settle(before, i as int, state@);
        }
        self.set(i, state);
    }

    /// The draft of the selected candidate, if there is one.
    pub fn selected_draft(&self) -> (r: Option<&Draft>)
        requires
            self.wf(),
        ensures
            match r {
                Some(d) => self@.states[self@.selected] == StateView::Drafted(d@),
                None => !(self@.states[self@.selected] is Drafted),
            },
    {
        match &self.states[self.selected] {
            State::Drafted(d) => Some(d),
            _ => None,
        }
    }

    /// Takes in a key and says what is to be done.
    pub fn press(&mut self, key: Key) -> (r: Effect)
        requires
            old(self).wf(),
        ensures
            final(self).wf(),
            (final(self)@, r) == pressed(old(self)@, key),
    {
        let ghost before = self@;
        let n: usize = self.states.len();
        match key {
            Key::Quit => Effect::Quit,
            Key::Down => {
                if self.selected + 1 < n {
                    self.selected += 1;
                } else {
                    self.selected = n - 1;
                }
                Effect::Stay
            },
            Key::Up => {
                if self.selected > 0 {
                    self.selected -= 1;
                }
                Effect::Stay
            },
            Key::Draft => {
                if self.queueable(self.selected) {
                    let i: usize = self.selected;
                    self.enqueue(i);
                }
                Effect::Stay
            },
            Key::Accept => match &self.states[self.selected] {
                State::Drafted(_) => Effect::Install,
                _ => Effect::Stay,
            },
            Key::Ignore => {
                let open = match &self.states[self.selected] {
                    State::Idle => true,
                    State::Drafted(_) => true,
                    State::Failed(_) => true,
                    _ => false,
                };
                if open {
                    let i: usize = self.selected;
                    let state = State::Done("ignored".to_owned());
                    proof {
                        lemma_settle(before, i as int, state@);
                    }
                    self.set(i, state);
                    Effect::Ignore
                } else {
                    Effect::Stay
                }
            },
            Key::AcceptAll => {
                self.auto_accept = true;
                let ghost start = self@;
                let mut i: usize = 0;
                while i < n
                    invariant
                        i <= n == start.states.len(),
                        start.wf(),
                        self@ == all_enqueued(start, i as nat),
                        self.wf(),
                        self.states@.len() == n,
                    decreases n - i,
                {
                    if self.queueable(i) {
                        self.enqueue(i);
                    }
                    proof {
                        lemma_all_enqueued(start, (i + 1) as nat);
                    }
                    i += 1;
                }
                Effect::Stay
            },
            Key::Other => Effect::Stay,
        }
    }
}

/// The state after an attempt to install a draft.
fn install_state(name: &str, out: &Result<String, String>) -> (r: State)
    ensures
        r@ == after_install(name@, outcome(*out)),
{
    match out {
        Ok(path) => {
            let mut s = "✓ ".to_owned();
            s.append(name);
            s.append(" installed → ");
            s.append(path.as_str());
            State::Done(s)
        },
        Err(e) => State::Failed(concat("install failed: ", e.as_str())),
    }
}

/// A candidate that is done stays done, whatever key is pressed.
pub proof fn what_is_done_stays_done(b: BoardView, key: Key, i: int)
    requires
        b.wf(),
        b.states.len() <= usize::MAX,
        0 <= i < b.states.len(),
        b.states[i] is Done,
    ensures
        pressed(b, key).0.states[i] == b.states[i],
{
    if key == Key::AcceptAll {
        lemma_all_keeps(BoardView { auto_accept: true, ..b }, b.states.len(), i);
    }
}

/// Queueing all candidates changes only those that can be queued.
proof fn lemma_all_keeps(b: BoardView, n: nat, i: int)
    requires
        0 <= i < b.states.len(),
        n <= b.states.len() <= usize::MAX,
        !can_queue(b.states[i]),
    ensures
        all_enqueued(b, n).states[i] == b.states[i],
        all_enqueued(b, n).states.len() == b.states.len(),
    decreases n,
{
    if n > 0 {
        lemma_all_keeps(b, (n - 1) as nat, i);
    }
}

/// After the key for all candidates none is left idle or failed.
pub proof fn accepting_all_queues_all(b: BoardView, i: int)
    requires
        b.wf(),
        b.states.len() <= usize::MAX,
        0 <= i < b.states.len(),
    ensures
        !can_queue(pressed(b, Key::AcceptAll).0.states[i]),
        pressed(b, Key::AcceptAll).0.auto_accept,
{
    lemma_all_queues(BoardView { auto_accept: true, ..b }, b.states.len(), i);
}

/// Queueing the first `n` candidates leaves none of them idle or failed.
proof fn lemma_all_queues(b: BoardView, n: nat, i: int)
    requires
        0 <= i < n <= b.states.len() <= usize::MAX,
    ensures
        !can_queue(all_enqueued(b, n).states[i]),
        all_enqueued(b, n).states.len() == b.states.len(),
        all_enqueued(b, n).auto_accept == b.auto_accept,
    decreases n,
{
    lemma_all_shape(b, (n - 1) as nat);
    if i < n - 1 {
        lemma_all_queues(b, (n - 1) as nat, i);
    }
}

/// Queueing candidates keeps their number.
proof fn lemma_all_shape(b: BoardView, n: nat)
    requires
        n <= b.states.len() <= usize::MAX,
    ensures
        all_enqueued(b, n).states.len() == b.states.len(),
        all_enqueued(b, n).auto_accept == b.auto_accept,
    decreases n,
{
    if n > 0 {
        lemma_all_shape(b, (n - 1) as nat);
    }
}

/// The board counts what is being drafted, at most three at a time.
pub proof fn three_are_drafted_at_a_time(b: BoardView)
    requires
        b.wf(),
    ensures
        b.active == how_many(b.states.len(), |i: int| b.states[i] is Drafting),
        b.active <= 3,
        MAX_WORKERS == 3,
{
    lemma_drafting_counted(b.states);
}

/// What is being drafted is counted one by one.
proof fn lemma_drafting_counted(s: Seq<StateView>)
    ensures
        drafting(s) == how_many(s.len(), |i: int| s[i] is Drafting),
    decreases s.len(),
{
    if s.len() > 0 {
        let front = s.drop_last();
        lemma_drafting_counted(front);
        lemma_same_positions(
            front.len(),
            |i: int| front[i] is Drafting,
            |i: int| s[i] is Drafting,
        );
    }
}

/// Moving goes one candidate up or down and no further than the ends, and changes
/// nothing else; no other key moves.
pub proof fn moving_goes_one_at_a_time(b: BoardView, key: Key)
    requires
        b.wf(),
        b.states.len() <= usize::MAX,
    ensures
        b.selected + 1 < b.states.len() ==> pressed(b, Key::Down).0.selected == b.selected + 1,
        b.selected + 1 == b.states.len() ==> pressed(b, Key::Down).0 == b,
        b.selected > 0 ==> pressed(b, Key::Up).0.selected == b.selected - 1,
        b.selected == 0 ==> pressed(b, Key::Up).0 == b,
        key == Key::Up || key == Key::Down ==> pressed(b, key).0.states == b.states && pressed(
            b,
            key,
        ).0.queue == b.queue && pressed(b, key).0.auto_accept == b.auto_accept && pressed(
            b,
            key,
        ).0.active == b.active,
        key != Key::Up && key != Key::Down ==> pressed(b, key).0.selected == b.selected,
        b.selected + 1 < b.states.len() ==> pressed(pressed(b, Key::Down).0, Key::Up).0 == b,
{
    lemma_all_enqueued(BoardView { auto_accept: true, ..b }, b.states.len());
}

/// The key to draft queues the selected candidate behind all others, exactly when it is
/// idle or failed; the other candidates stay as they are.
pub proof fn drafting_queues_what_is_idle_or_failed(b: BoardView, i: int)
    requires
        b.wf(),
        b.states.len() <= usize::MAX,
    ensures
        ({
            let s = b.states[b.selected];
            let after = pressed(b, Key::Draft).0;
            &&& s is Idle || s is Failed ==> after.queue == b.queue.push(b.selected as usize)
                && after.states[b.selected] is Queued
            &&& !(s is Idle || s is Failed) ==> after == b
            &&& 0 <= i < b.states.len() && i != b.selected ==> after.states[i] == b.states[i]
            &&& pressed(b, Key::Draft).1 == Effect::Stay
        }),
{
}

/// A draft is installed when it is accepted, and only a draft is; what is idle, drafted
/// or failed can be ignored and is done with then; quitting leaves everything as it is.
pub proof fn keys_act_on_the_selected_candidate(b: BoardView, i: int)
    requires
        b.wf(),
        b.states.len() <= usize::MAX,
    ensures
        ({
            let s = b.states[b.selected];
            let ignored = pressed(b, Key::Ignore);
            &&& pressed(b, Key::Accept).1 == Effect::Install <==> s is Drafted
            &&& pressed(b, Key::Accept).0 == b
            &&& ignored.1 == Effect::Ignore <==> s is Idle || s is Drafted || s is Failed
            &&& ignored.1 == Effect::Ignore ==> ignored.0.states[b.selected] is Done
                && ignored.0.queue == b.queue
            &&& ignored.1 != Effect::Ignore ==> ignored.0 == b
            &&& 0 <= i < b.states.len() && i != b.selected ==> ignored.0.states[i] == b.states[i]
            &&& pressed(b, Key::Quit) == (b, Effect::Quit)
            &&& pressed(b, Key::Other) == (b, Effect::Stay)
        }),
{
}

/// What is queued is drafted in the order in which it was queued.
pub proof fn the_first_in_the_queue_is_drafted_first(b: BoardView, i: int)
    requires
        b.wf(),
        b.queue.len() > 0,
        b.active < 3,
    ensures
        fed(b).states[b.queue[0] as int] is Drafting,
        fed(b).active == b.active + 1,
        fed(b).queue.len() == b.queue.len() - 1,
        0 <= i < b.queue.len() - 1 ==> fed(b).queue[i] == b.queue[i + 1],
        0 <= i < b.states.len() && i != b.queue[0] ==> fed(b).states[i] == b.states[i],
{
    assert(b.queue[0] < b.states.len());
}

/// A candidate whose draft comes back is drafted or failed, and makes room for another;
/// what is installed is done with.
pub proof fn a_draft_that_comes_back_makes_room(
    b: BoardView,
    i: int,
    out: Result<DraftView, Seq<char>>,
    installed: Result<Seq<char>, Seq<char>>,
    name: Seq<char>,
)
    requires
        b.wf(),
        0 <= i < b.states.len(),
        b.states[i] is Drafting,
    ensures
        finished(b, i, after_draft(out)).active == b.active - 1,
        out is Ok ==> finished(b, i, after_draft(out)).states[i] == StateView::Drafted(out->Ok_0),
        out is Err ==> finished(b, i, after_draft(out)).states[i] is Failed,
        installed is Ok <==> after_install(name, installed) is Done,
        installed is Err <==> after_install(name, installed) is Failed,
{
    lemma_drafting_positive(b.states, i);
}

} // verus!
