//! The windowed scheduler: at most as many chunks in flight as the pool has
//! workers, and results handed on strictly in the order of the chunks,
//! whatever the order in which their synthesis ends.
//!
//! The scheduler decides; its caller acts. The caller asks for the next
//! action with `step`, performs it, and reports every synthesis that has
//! ended with `resolve`.

use crate::text::{chars_of, char_is_whitespace, is_whitespace, views};
use vstd::prelude::*;

verus! {

/// How the synthesis of a chunk ended.
pub enum Outcome {
    /// It produced these bytes of audio.
    Audio(Vec<u8>),
    /// It failed, or the unit that ran it did not complete.
    Failed,
}

/// What the window holds for a chunk.
pub enum Held {
    /// Its synthesis has not ended.
    Pending,
    /// Its audio, held until its turn.
    Audio(Seq<u8>),
    /// It failed; its turn passes without a payload.
    Failed,
}

impl View for Outcome {
    type V = Held;

    open spec fn view(&self) -> Held {
        match self {
            Outcome::Audio(bytes) => Held::Audio(bytes@),
            Outcome::Failed => Held::Failed,
        }
    }
}

/// A place in the window.
enum Slot {
    /// The chunk is being synthesized.
    Pending,
    /// The chunk's synthesis has ended.
    Resolved(Outcome),
}

impl View for Slot {
    type V = Held;

    closed spec fn view(&self) -> Held {
        match self {
            Slot::Pending => Held::Pending,
            Slot::Resolved(outcome) => outcome@,
        }
    }
}

/// What the caller is to do next.
pub enum Action {
    /// Chunk `index` has entered the window. Where `synthesize` holds, start
    /// its synthesis; a blank chunk is not synthesized and already holds an
    /// empty result.
    Dispatch { index: usize, synthesize: bool },
    /// Hand `payload`, the audio of chunk `index`, to the sink.
    Deliver { index: usize, payload: Vec<u8> },
    /// Chunk `index` failed: nothing is handed on, its turn has passed.
    Skip { index: usize },
    /// Nothing can be done until a synthesis ends.
    Wait,
    /// Every chunk has had its turn: signal the end of the stream.
    Finish,
}

/// An action as a plain value.
pub enum Step {
    Dispatch { index: nat, synthesize: bool },
    Deliver { index: nat, payload: Seq<u8> },
    Skip { index: nat },
    Wait,
    Finish,
}

impl View for Action {
    type V = Step;

    open spec fn view(&self) -> Step {
        match self {
            Action::Dispatch { index, synthesize } => Step::Dispatch {
                index: *index as nat,
                synthesize: *synthesize,
            },
            Action::Deliver { index, payload } => Step::Deliver {
                index: *index as nat,
                payload: payload@,
            },
            Action::Skip { index } => Step::Skip { index: *index as nat },
            Action::Wait => Step::Wait,
            Action::Finish => Step::Finish,
        }
    }
}

/// The state of a scheduler as plain values.
pub struct Schedule {
    /// For each chunk, whether it is blank.
    pub blank: Seq<bool>,
    /// The most chunks in flight at once.
    pub pool_size: nat,
    /// The chunk whose turn it is to be handed on.
    pub cursor: nat,
    /// What is held for the chunks in flight: `window[j]` belongs to chunk
    /// `cursor + j`.
    pub window: Seq<Held>,
    /// How many bytes of audio have been handed on.
    pub bytes: nat,
}

impl Schedule {
    /// How many chunks there are.
    pub open spec fn total(self) -> nat {
        self.blank.len()
    }

    /// The next chunk to dispatch: all before it have been dispatched.
    pub open spec fn dispatched(self) -> nat {
        self.cursor + self.window.len()
    }

    /// The window is within the pool size and within the chunks.
    pub open spec fn wf(self) -> bool {
        &&& self.pool_size >= 1
        &&& self.window.len() <= self.pool_size
        &&& self.dispatched() <= self.total()
    }

    /// The state before anything is dispatched.
    pub open spec fn initial(blank: Seq<bool>, pool_size: nat) -> Schedule {
        Schedule { blank, pool_size, cursor: 0, window: Seq::empty(), bytes: 0 }
    }

    /// The window has room and a chunk is left to dispatch.
    pub open spec fn can_dispatch(self) -> bool {
        self.window.len() < self.pool_size && self.dispatched() < self.total()
    }

    /// The chunk at the cursor is in the window and its synthesis has ended.
    pub open spec fn head_resolved(self) -> bool {
        self.window.len() > 0 && self.window[0] != Held::Pending
    }

    /// Chunk `index` is in the window and its synthesis has not ended.
    pub open spec fn awaits(self, index: nat) -> bool {
        self.cursor <= index < self.dispatched() && self.window[index - self.cursor]
            == Held::Pending
    }

    /// What a blank or other chunk holds on entering the window.
    pub open spec fn entry(self, index: nat) -> Held {
        if self.blank[index as int] {
            Held::Audio(Seq::empty())
        } else {
            Held::Pending
        }
    }

    /// The next action: fill the window while it has room, else hand on the
    /// chunk at the cursor once it has resolved, else finish where nothing is
    /// in flight, else wait.
    pub open spec fn next_action(self) -> Step {
        if self.can_dispatch() {
            Step::Dispatch {
                index: self.dispatched(),
                synthesize: !self.blank[self.dispatched() as int],
            }
        } else if self.head_resolved() {
            match self.window[0] {
                Held::Audio(payload) => Step::Deliver { index: self.cursor, payload },
                _ => Step::Skip { index: self.cursor },
            }
        } else if self.window.len() == 0 {
            Step::Finish
        } else {
            Step::Wait
        }
    }

    /// How many bytes of audio are held.
    pub open spec fn size(held: Held) -> nat {
        match held {
            Held::Audio(payload) => payload.len(),
            _ => 0,
        }
    }

    /// The state after the next action.
    pub open spec fn after_action(self) -> Schedule {
        if self.can_dispatch() {
            Schedule { window: self.window.push(self.entry(self.dispatched())), ..self }
        } else if self.head_resolved() {
            Schedule {
                cursor: self.cursor + 1,
                window: self.window.skip(1),
                bytes: self.bytes + Self::size(self.window[0]),
                ..self
            }
        } else {
            self
        }
    }

    /// The state after the synthesis of chunk `index` has ended with
    /// `outcome`: recorded where the chunk was awaited, else ignored.
    pub open spec fn after_resolution(self, index: nat, outcome: Held) -> Schedule {
        if self.awaits(index) && outcome != Held::Pending {
            Schedule { window: self.window.update(index - self.cursor, outcome), ..self }
        } else {
            self
        }
    }
}

/// What happens to a scheduler: it is asked for its next action, or it is
/// told that the synthesis of a chunk has ended.
pub enum Input {
    Poll,
    Resolved { index: nat, outcome: Held },
}

/// The state after one input.
pub open spec fn apply(s: Schedule, input: Input) -> Schedule {
    match input {
        Input::Poll => s.after_action(),
        Input::Resolved { index, outcome } => s.after_resolution(index, outcome),
    }
}

/// The state after `inputs`, in order.
pub open spec fn run(s: Schedule, inputs: Seq<Input>) -> Schedule
    decreases inputs.len(),
{
    if inputs.len() == 0 {
        s
    } else {
        apply(run(s, inputs.drop_last()), inputs.last())
    }
}

/// The chunk that an action hands on or skips.
pub open spec fn passed_by(step: Step) -> Option<nat> {
    match step {
        Step::Deliver { index, .. } => Some(index),
        Step::Skip { index } => Some(index),
        _ => None,
    }
}

/// The chunks whose turn has passed during `inputs`, delivered or skipped,
/// in the order in which that happened.
pub open spec fn passed(s: Schedule, inputs: Seq<Input>) -> Seq<nat>
    decreases inputs.len(),
{
    if inputs.len() == 0 {
        Seq::empty()
    } else {
        let before = run(s, inputs.drop_last());
        let so_far = passed(s, inputs.drop_last());
        match inputs.last() {
            Input::Poll => match passed_by(before.next_action()) {
                Some(index) => so_far.push(index),
                None => so_far,
            },
            _ => so_far,
        }
    }
}

/// The chunks `from`, `from + 1`, ... up to but without `to`.
pub open spec fn consecutive(from: nat, to: nat) -> Seq<nat> {
    Seq::new((to - from) as nat, |k: int| (from + k) as nat)
}

/// One input keeps a well-formed state well-formed, never moves the cursor
/// back, and moves it by one exactly when a chunk is handed on or skipped.
pub proof fn lemma_apply_keeps_wf(s: Schedule, input: Input)
    requires
        s.wf(),
    ensures
        apply(s, input).wf(),
        apply(s, input).blank == s.blank,
        apply(s, input).pool_size == s.pool_size,
        input is Poll && passed_by(s.next_action()) is Some ==> passed_by(s.next_action())
            == Some(s.cursor) && apply(s, input).cursor == s.cursor + 1,
        !(input is Poll && passed_by(s.next_action()) is Some) ==> apply(s, input).cursor
            == s.cursor,
{
}

/// The scheduler waits only for the chunk at the cursor, and only while
/// nothing else can be done: the window is full or every chunk has been
/// dispatched.
pub proof fn lemma_waits_only_for_head(s: Schedule)
    requires
        s.wf(),
    ensures
        s.next_action() is Wait <==> s.awaits(s.cursor) && !s.can_dispatch(),
        s.next_action() is Finish <==> s.cursor == s.total(),
{
}

/// A chunk resolves at most once: once the end of its synthesis has been
/// recorded, a second report for the same chunk changes nothing.
pub proof fn lemma_resolved_once(s: Schedule, index: nat, first: Held, second: Held)
    requires
        s.wf(),
        s.awaits(index),
        first != Held::Pending,
    ensures
        !s.after_resolution(index, first).awaits(index),
        s.after_resolution(index, first).after_resolution(index, second) == s.after_resolution(
            index,
            first,
        ),
{
}

/// Every action but waiting and finishing moves the stream on: a chunk
/// enters the window or the cursor passes one, so that after at most twice
/// as many such actions as there are chunks the stream is finished.
pub proof fn lemma_action_moves_on(s: Schedule)
    requires
        s.wf(),
    ensures
        s.next_action() is Wait || s.next_action() is Finish ==> s.after_action() == s,
        !(s.next_action() is Wait || s.next_action() is Finish) ==> s.after_action().dispatched()
            + s.after_action().cursor == s.dispatched() + s.cursor + 1,
        s.after_action().dispatched() + s.after_action().cursor <= 2 * s.total(),
{
}

/// Window bound: whatever happens, and in whatever order syntheses end,
/// the number of chunks in flight never exceeds the pool size.
pub proof fn lemma_window_bounded(s: Schedule, inputs: Seq<Input>)
    requires
        s.wf(),
    ensures
        run(s, inputs).wf(),
        run(s, inputs).window.len() <= s.pool_size,
        run(s, inputs).pool_size == s.pool_size,
        run(s, inputs).blank == s.blank,
    decreases inputs.len(),
{
    if inputs.len() > 0 {
        lemma_window_bounded(s, inputs.drop_last());
        lemma_apply_keeps_wf(run(s, inputs.drop_last()), inputs.last());
    }
}

/// Order: whatever happens, and in whatever order syntheses end, the chunks
/// whose turn has passed are exactly those from where the cursor stood to
/// where it stands, each once, in increasing order and without a gap.
pub proof fn lemma_passed_in_order(s: Schedule, inputs: Seq<Input>)
    requires
        s.wf(),
    ensures
        s.cursor <= run(s, inputs).cursor <= s.total(),
        passed(s, inputs) == consecutive(s.cursor, run(s, inputs).cursor),
    decreases inputs.len(),
{
    if inputs.len() == 0 {
        assert(passed(s, inputs) =~= consecutive(s.cursor, s.cursor));
    } else {
        let front = inputs.drop_last();
        let before = run(s, front);
        lemma_passed_in_order(s, front);
        lemma_window_bounded(s, front);
        lemma_apply_keeps_wf(before, inputs.last());
        lemma_window_bounded(s, inputs);
        assert(passed(s, inputs) =~= consecutive(s.cursor, run(s, inputs).cursor));
    }
}

/// From the first dispatch to the end of the stream, the chunks handed on
/// or skipped are `0, 1, 2, ...` in this order, and the stream is finished
/// only once every chunk has had its turn.
pub proof fn lemma_stream_in_order(blank: Seq<bool>, pool_size: nat, inputs: Seq<Input>)
    requires
        pool_size >= 1,
    ensures
        ({
            let end = run(Schedule::initial(blank, pool_size), inputs);
            &&& passed(Schedule::initial(blank, pool_size), inputs) == consecutive(0, end.cursor)
            &&& end.window.len() <= pool_size
            &&& end.next_action() is Finish ==> end.cursor == blank.len()
        }),
{
    let start = Schedule::initial(blank, pool_size);
    lemma_passed_in_order(start, inputs);
    lemma_window_bounded(start, inputs);
}

/// Somewhere in `inputs` the synthesis of chunk `index` was reported to
/// have ended with `outcome`.
pub open spec fn was_reported(inputs: Seq<Input>, index: nat, outcome: Held) -> bool {
    exists|p: int|
        0 <= p < inputs.len() && #[trigger] inputs[p] == (Input::Resolved { index, outcome })
}

/// What the window of `s` holds for a chunk is nothing yet, the empty
/// audio of a blank chunk, or what `inputs` reported for that chunk.
pub open spec fn window_accounted(s: Schedule, inputs: Seq<Input>) -> bool {
    forall|j: int|
        0 <= j < s.window.len() ==> {
            let held = #[trigger] s.window[j];
            ||| held == Held::Pending
            ||| s.blank[s.cursor + j] && held == Held::Audio(Seq::empty())
            ||| was_reported(inputs, (s.cursor + j) as nat, held)
        }
}

/// What was reported during the first of `inputs` was reported during all
/// of them.
pub proof fn lemma_reported_stays(inputs: Seq<Input>, index: nat, outcome: Held)
    requires
        inputs.len() > 0,
        was_reported(inputs.drop_last(), index, outcome),
    ensures
        was_reported(inputs, index, outcome),
{
    let front = inputs.drop_last();
    let p = choose|p: int|
        0 <= p < front.len() && #[trigger] front[p] == (Input::Resolved { index, outcome });
    assert(inputs[p] == front[p]);
}

/// From the first dispatch on, the window holds for each chunk only what
/// was reported for that very chunk.
pub proof fn lemma_window_accounted(blank: Seq<bool>, pool_size: nat, inputs: Seq<Input>)
    requires
        pool_size >= 1,
    ensures
        window_accounted(run(Schedule::initial(blank, pool_size), inputs), inputs),
    decreases inputs.len(),
{
    let start = Schedule::initial(blank, pool_size);
    if inputs.len() > 0 {
        let front = inputs.drop_last();
        let before = run(start, front);
        let after = run(start, inputs);
        lemma_window_accounted(blank, pool_size, front);
        lemma_window_bounded(start, front);
        assert forall|j: int| 0 <= j < after.window.len() implies {
            let held = #[trigger] after.window[j];
            ||| held == Held::Pending
            ||| after.blank[after.cursor + j] && held == Held::Audio(Seq::empty())
            ||| was_reported(inputs, (after.cursor + j) as nat, held)
        } by {
            let held = after.window[j];
            match inputs.last() {
                Input::Poll => {
                    if before.can_dispatch() {
                        if j < before.window.len() {
                            assert(held == before.window[j]);
                            if was_reported(front, (before.cursor + j) as nat, held) {
                                lemma_reported_stays(inputs, (before.cursor + j) as nat, held);
                            }
                        }
                    } else if before.head_resolved() {
                        assert(held == before.window[j + 1]);
                        if was_reported(front, (before.cursor + j + 1) as nat, held) {
                            lemma_reported_stays(inputs, (before.cursor + j + 1) as nat, held);
                        }
                    } else {
                        assert(held == before.window[j]);
                        if was_reported(front, (before.cursor + j) as nat, held) {
                            lemma_reported_stays(inputs, (before.cursor + j) as nat, held);
                        }
                    }
                },
                Input::Resolved { index, outcome } => {
                    if before.awaits(index) && outcome != Held::Pending && j == index
                        - before.cursor {
                        assert(held == outcome);
                        assert(inputs[inputs.len() - 1] == (Input::Resolved { index, outcome }));
                    } else {
                        assert(held == before.window[j]);
                        if was_reported(front, (before.cursor + j) as nat, held) {
                            lemma_reported_stays(inputs, (before.cursor + j) as nat, held);
                        }
                    }
                },
            }
        }
    }
}

/// What is handed on for a chunk is what the synthesis of that very chunk
/// produced: a delivered payload was reported as the audio of its chunk, or
/// is the empty audio of a blank chunk, and a skipped chunk was reported as
/// failed.
pub proof fn lemma_delivery_is_faithful(blank: Seq<bool>, pool_size: nat, inputs: Seq<Input>)
    requires
        pool_size >= 1,
    ensures
        match run(Schedule::initial(blank, pool_size), inputs).next_action() {
            Step::Deliver { index, payload } => (blank[index as int] && payload == Seq::<
                u8,
            >::empty()) || was_reported(inputs, index, Held::Audio(payload)),
            Step::Skip { index } => was_reported(inputs, index, Held::Failed),
            _ => true,
        },
{
    let end = run(Schedule::initial(blank, pool_size), inputs);
    lemma_window_accounted(blank, pool_size, inputs);
    lemma_window_bounded(Schedule::initial(blank, pool_size), inputs);
    if !end.can_dispatch() && end.head_resolved() {
        let held = end.window[0];
        assert(held != Held::Pending);
        assert(end.cursor + 0 == end.cursor);
    }
}

/// No character of `s` is anything but whitespace.
pub open spec fn is_blank(s: Seq<char>) -> bool {
    forall|i: int| 0 <= i < s.len() ==> is_whitespace(#[trigger] s[i])
}

/// For each chunk, whether it is blank.
pub open spec fn blank_marks(chunks: Seq<Seq<char>>) -> Seq<bool> {
    Seq::new(chunks.len(), |i: int| is_blank(chunks[i]))
}

/// Whether `chunk` is empty or all whitespace.
pub fn chunk_is_blank(chunk: &str) -> (r: bool)
    ensures
        r == is_blank(chunk@),
{
    let chars = chars_of(chunk);
    let mut i: usize = 0;
    while i < chars.len()
        invariant
            i <= chars.len(),
            chars@ == chunk@,
            forall|k: int| 0 <= k < i ==> is_whitespace(#[trigger] chars@[k]),
        decreases chars.len() - i,
    {
        if !char_is_whitespace(chars[i]) {
            return false;
        }
        i += 1;
    }
    true
}

/// The audio is sampled this many times a second.
pub const SAMPLE_RATE: u128 = 24000;

/// Each sample takes this many bytes.
pub const BYTES_PER_SAMPLE: u128 = 2;

/// How many samples `bytes` bytes of audio hold.
pub open spec fn audio_samples(bytes: nat) -> nat {
    bytes / BYTES_PER_SAMPLE as nat
}

/// How many whole milliseconds `bytes` bytes of audio last.
pub open spec fn audio_millis(bytes: nat) -> nat {
    audio_samples(bytes) * 1000 / SAMPLE_RATE as nat
}

/// What a stream has come to.
pub struct StreamStats {
    /// How many chunks the text was cut into.
    pub chunks: usize,
    /// How many of them have had their turn.
    pub passed: usize,
    /// How many bytes of audio have been handed on.
    pub bytes: u128,
    /// How many samples those bytes hold.
    pub samples: u128,
    /// How many whole milliseconds they last.
    pub millis: u128,
}

/// The scheduler of one request.
pub struct Scheduler {
    blank: Vec<bool>,
    pool_size: usize,
    cursor: usize,
    window: Vec<Slot>,
    bytes: u128,
}

impl View for Scheduler {
    type V = Schedule;

    closed spec fn view(&self) -> Schedule {
        Schedule {
            blank: self.blank@,
            pool_size: self.pool_size as nat,
            cursor: self.cursor as nat,
            window: self.window@.map_values(|slot: Slot| slot@),
            bytes: self.bytes as nat,
        }
    }
}

impl Scheduler {
    #[verifier::type_invariant]
    spec fn well_formed(self) -> bool {
        &&& self@.wf()
        &&& self.bytes <= self.cursor * usize::MAX
    }

    /// A scheduler for `chunks` over a pool of `pool_size` workers, of which
    /// there must be at least one. Nothing is dispatched yet.
    pub fn new(chunks: &Vec<String>, pool_size: usize) -> (scheduler: Scheduler)
        requires
            pool_size >= 1,
        ensures
            scheduler@ == Schedule::initial(blank_marks(views(chunks@)), pool_size as nat),
    {
        let mut blank: Vec<bool> = Vec::new();
        let mut i: usize = 0;
        while i < chunks.len()
            invariant
                i <= chunks.len(),
                blank@ == blank_marks(views(chunks@)).take(i as int),
            decreases chunks.len() - i,
        {
            let mark = chunk_is_blank(chunks[i].as_str());
            blank.push(mark);
            assert(blank@ =~= blank_marks(views(chunks@)).take(i + 1));
            i += 1;
        }
        assert(blank@ =~= blank_marks(views(chunks@)));
        let scheduler = Scheduler { blank, pool_size, cursor: 0, window: Vec::new(), bytes: 0 };
        assert(scheduler@.window =~= Seq::empty());
        scheduler
    }

    /// How many chunks are in flight: at most the pool size.
    pub fn in_flight(&self) -> (n: usize)
        ensures
            n == self@.window.len(),
            n <= self@.pool_size,
            self@.wf(),
    {
        proof {
            use_type_invariant(self);
        }
        self.window.len()
    }

    /// The chunk whose turn it is to be handed on.
    pub fn next_to_send(&self) -> (index: usize)
        ensures
            index == self@.cursor,
            index <= self@.total(),
            self@.wf(),
    {
        proof {
            use_type_invariant(self);
        }
        self.cursor
    }

    /// What the stream has come to so far.
    pub fn stats(&self) -> (stats: StreamStats)
        ensures
            stats.chunks == self@.total(),
            stats.passed == self@.cursor,
            stats.bytes == self@.bytes,
            stats.samples == audio_samples(self@.bytes),
            stats.millis == audio_millis(self@.bytes),
    {
        let samples = self.bytes / BYTES_PER_SAMPLE;
        assert(samples * 1000 / 24000 == samples / 24) by (nonlinear_arith);
        StreamStats {
            chunks: self.blank.len(),
            passed: self.cursor,
            bytes: self.bytes,
            samples,
            millis: samples / 24,
        }
    }

    /// Whether every chunk has had its turn.
    pub fn is_finished(&self) -> (done: bool)
        ensures
            done == (self@.next_action() is Finish),
            done == (self@.cursor == self@.total()),
            self@.wf(),
    {
        proof {
            use_type_invariant(self);
        }
        self.window.len() == 0 && self.cursor >= self.blank.len()
    }

    /// Decides the next action and moves to the state after it.
    pub fn step(&mut self) -> (action: Action)
        ensures
            action@ == old(self)@.next_action(),
            final(self)@ == old(self)@.after_action(),
            final(self)@.wf(),
    {
        proof {
            use_type_invariant(&*self);
        }
        let total = self.blank.len();
        let held = self.window.len();
        if held < self.pool_size && self.cursor + held < total {
            let index = self.cursor + held;
            let is_blank = self.blank[index];
            let slot = if is_blank {
                Slot::Resolved(Outcome::Audio(Vec::new()))
            } else {
                Slot::Pending
            };
            let mut window: Vec<Slot> = Vec::new();
            std::mem::swap(&mut self.window, &mut window);
            window.push(slot);
            std::mem::swap(&mut self.window, &mut window);
            assert(self@.window =~= old(self)@.window.push(old(self)@.entry(index as nat)));
            Action::Dispatch { index, synthesize: !is_blank }
        } else if held > 0 && !matches!(self.window[0], Slot::Pending) {
            let index = self.cursor;
            let mut window: Vec<Slot> = Vec::new();
            std::mem::swap(&mut self.window, &mut window);
            let slot = window.remove(0);
            let size: usize = match &slot {
                Slot::Resolved(Outcome::Audio(payload)) => payload.len(),
                _ => 0,
            };
            assert(slot@ == old(self)@.window[0]);
            assert(self.bytes + size <= (index + 1) * usize::MAX && (index + 1) * usize::MAX
                <= u128::MAX && index * usize::MAX <= (index + 1) * usize::MAX)
                by (nonlinear_arith)
                requires
                    self.bytes <= index * usize::MAX,
                    size <= usize::MAX,
                    index < usize::MAX,
                    usize::MAX <= u64::MAX,
            ;
            self.cursor = index + 1;
            self.bytes = self.bytes + size as u128;
            std::mem::swap(&mut self.window, &mut window);
            assert(self@.window =~= old(self)@.window.skip(1));
            match slot {
                Slot::Resolved(Outcome::Audio(payload)) => Action::Deliver { index, payload },
                _ => Action::Skip { index },
            }
        } else if held == 0 {
            Action::Finish
        } else {
            assert(self.window@[0]@ == old(self)@.window[0]);
            Action::Wait
        }
    }

    /// Records that the synthesis of chunk `index` has ended with `outcome`.
    /// A chunk that is not awaited, because it is outside the window or has
    /// resolved before, leaves the state unchanged.
    pub fn resolve(&mut self, index: usize, outcome: Outcome) -> (accepted: bool)
        ensures
            accepted == old(self)@.awaits(index as nat),
            final(self)@ == old(self)@.after_resolution(index as nat, outcome@),
            final(self)@.wf(),
    {
        proof {
            use_type_invariant(&*self);
        }
        if index >= self.cursor && index - self.cursor < self.window.len() {
            let at = index - self.cursor;
            assert(self.window@[at as int]@ == old(self)@.window[at as int]);
            if matches!(self.window[at], Slot::Pending) {
                let mut window: Vec<Slot> = Vec::new();
                std::mem::swap(&mut self.window, &mut window);
                window.set(at, Slot::Resolved(outcome));
                std::mem::swap(&mut self.window, &mut window);
                assert(self@.window =~= old(self)@.window.update(at as int, outcome@));
                return true;
            }
        }
        false
    }
}

} // verus!
