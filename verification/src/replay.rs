use crate::game::{Game, GameModel};
use crate::input::{Input, input_symbol, invalid_symbol_text, symbol_input};
use crate::sim::{Recording, Simulator};
use vstd::prelude::*;
use vstd::string::*;

verus! {

/// A key of the keyboard, as far as the simulation tells keys apart.
#[derive(Clone, Copy, Debug, PartialEq, Eq, Structural)]
pub enum Key {
    Up,
    Down,
    Left,
    Right,
    I,
    J,
    K,
    L,
    Q,
    P,
    Other,
}

/// The input that a key stands for: the arrows and `I`, `K`, `J`, `L` steer,
/// `Q` quits, `P` pauses, and any other key does nothing.
pub open spec fn key_input(key: Key) -> Input {
    match key {
        Key::Up => Input::Up,
        Key::I => Input::Up,
        Key::Down => Input::Down,
        Key::K => Input::Down,
        Key::Left => Input::Left,
        Key::J => Input::Left,
        Key::Right => Input::Right,
        Key::L => Input::Right,
        Key::Q => Input::Quit,
        Key::P => Input::Pause,
        Key::Other => Input::NoOp,
    }
}

/// The input that a key stands for.
pub fn button_to_input(button: Key) -> (input: Input)
    ensures
        input == key_input(button),
{
    match button {
        Key::Up => Input::Up,
        Key::I => Input::Up,
        Key::Down => Input::Down,
        Key::K => Input::Down,
        Key::Left => Input::Left,
        Key::J => Input::Left,
        Key::Right => Input::Right,
        Key::L => Input::Right,
        Key::Q => Input::Quit,
        Key::P => Input::Pause,
        Key::Other => Input::NoOp,
    }
}

/// Room for one value: what is put in replaces what was there.
pub struct Buffer<T: Clone + Copy> {
    x: Option<T>,
}

impl<T: Clone + Copy> View for Buffer<T> {
    type V = Option<T>;

    closed spec fn view(&self) -> Option<T> {
        self.x
    }
}

impl<T: Clone + Copy> Buffer<T> {
    /// An empty buffer.
    pub fn new() -> (b: Self)
        ensures
            b@ is None,
    {
        Self { x: None }
    }

    /// Whether nothing waits.
    pub fn is_empty(&self) -> (b: bool)
        ensures
            b == (self@ is None),
    {
        self.x.is_none()
    }

    /// Puts a value in, in place of what was there.
    pub fn push(&mut self, most_recent_input: T)
        ensures
            final(self)@ == Some(most_recent_input),
    {
        self.x = Some(most_recent_input);
    }

    /// Takes out what waits, if anything.
    pub fn pop(&mut self) -> (input: Option<T>)
        ensures
            input == old(self)@,
            final(self)@ is None,
    {
        let input = self.x;
        self.x = None;
        input
    }
}

/// The inputs that the characters of a recording stand for.
pub open spec fn decoded(recording: Seq<(u64, char)>) -> Seq<(u64, Input)> {
    Seq::new(
        recording.len(),
        |i: int| (recording[i].0, symbol_input(recording[i].1).unwrap()),
    )
}

/// Position of the first record at or after `from` whose character stands
/// for no input, or the length of the recording if there is none.
pub open spec fn first_invalid(recording: Seq<(u64, char)>, from: int) -> int
    decreases recording.len() - from,
{
    if from < 0 || from >= recording.len() {
        recording.len() as int
    } else if symbol_input(recording[from].1) is None {
        from
    } else {
        first_invalid(recording, from + 1)
    }
}

/// Why a recording cannot be replayed, if it cannot: it is empty, or its
/// last record does not quit, or a character in it stands for no input.
pub open spec fn recording_error(recording: Seq<(u64, char)>) -> Option<Seq<char>> {
    if recording.len() == 0 {
        Some("Empty recording."@)
    } else if recording.last().1 != 'q' {
        Some("This recording will never quite."@)
    } else if first_invalid(recording, 0) < recording.len() {
        Some(invalid_symbol_text(recording[first_invalid(recording, 0)].1))
    } else {
        None
    }
}

/// Rejection: an empty recording, and one whose last record does not quit,
/// cannot be replayed; and one that can be replayed is neither.
pub proof fn lemma_rejected_recordings(recording: Seq<(u64, char)>)
    ensures
        recording.len() == 0 ==> recording_error(recording) is Some,
        recording.len() > 0 && recording.last().1 != 'q' ==> recording_error(recording) is Some,
        recording_error(recording) is None ==> recording.len() > 0 && recording.last().1 == 'q'
            && forall|i: int|
            0 <= i < recording.len() ==> symbol_input((#[trigger] recording[i]).1) is Some,
{
    lemma_first_invalid(recording, 0);
}

/// What `first_invalid` finds: the first record from `from` on whose
/// character stands for no input.
pub proof fn lemma_first_invalid(recording: Seq<(u64, char)>, from: int)
    requires
        0 <= from <= recording.len(),
    ensures
        from <= first_invalid(recording, from) <= recording.len(),
        forall|i: int|
            from <= i < first_invalid(recording, from) ==> symbol_input(
                (#[trigger] recording[i]).1,
            ) is Some,
        first_invalid(recording, from) < recording.len() ==> symbol_input(
            recording[first_invalid(recording, from)].1,
        ) is None,
    decreases recording.len() - from,
{
    if from < recording.len() && symbol_input(recording[from].1) is Some {
        lemma_first_invalid(recording, from + 1);
    }
}

/// Checks a recording and decodes it. It is refused if it is empty, if its
/// last record does not quit, or if a character in it stands for no input.
pub fn try_parse_recording(recording: Recording) -> (r: Result<Vec<(u64, Input)>, String>)
    ensures
        match r {
            Ok(inputs) => recording_error(recording@) is None && inputs@ == decoded(recording@)
                && inputs@.len() > 0 && inputs@.last().1 == Input::Quit,
            Err(text) => recording_error(recording@) == Some(text@),
        },
{
    let n = recording.len();
    if n == 0 {
        return Err(String::from_str("Empty recording."));
    }
    if recording[n - 1].1 != 'q' {
        return Err(String::from_str("This recording will never quite."));
    }
    let mut inputs: Vec<(u64, Input)> = Vec::new();
    let mut i: usize = 0;
    while i < n
        invariant
            i <= n == recording@.len(),
            n > 0,
            recording@.last().1 == 'q',
            first_invalid(recording@, i as int) == first_invalid(recording@, 0),
            inputs@.len() == i,
            forall|j: int| 0 <= j < i ==> #[trigger] inputs@[j] == decoded(recording@)[j],
        decreases n - i,
    {
        let (count, character) = recording[i];
        match Input::try_from(character) {
            Ok(input) => {
                inputs.push((count, input));
            },
            Err(text) => {
                return Err(text);
            },
        }
        i += 1;
    }
    proof {
        assert(inputs@ =~= decoded(recording@));
    }
    Ok(inputs)
}

/// How far a replay has come: the simulation, the position of the next
/// input that waits for its tick, and whether the replay has quit.
pub struct ReplayState {
    pub game: GameModel,
    pub next: int,
    pub quit: bool,
}

/// The replay one frame on. Where the input that waits is due at this
/// frame, it is applied first; if it quits, the replay has quit and nothing
/// else happens. Then the simulation is updated, with the numbers `rolls`.
pub open spec fn replay_frame(
    state: ReplayState,
    inputs: Seq<(u64, Input)>,
    frame: int,
    rolls: Seq<usize>,
) -> ReplayState {
    if state.quit {
        state
    } else if 0 <= state.next < inputs.len() && inputs[state.next].0 == frame {
        if inputs[state.next].1 == Input::Quit {
            ReplayState { quit: true, ..state }
        } else {
            ReplayState {
                game: state.game.input(inputs[state.next].1).updated(rolls),
                next: state.next + 1,
                quit: false,
            }
        }
    } else {
        ReplayState { game: state.game.updated(rolls), ..state }
    }
}

/// The replay of `inputs` on `game` after the first `frames` frames, the
/// `i`-th of them with the numbers `rolls[i]`.
pub open spec fn replay_upto(
    game: GameModel,
    inputs: Seq<(u64, Input)>,
    frames: int,
    rolls: Seq<Seq<usize>>,
) -> ReplayState
    decreases frames,
{
    if frames <= 0 {
        ReplayState { game, next: 0, quit: false }
    } else {
        replay_frame(
            replay_upto(game, inputs, frames - 1, rolls),
            inputs,
            frames - 1,
            rolls[frames - 1],
        )
    }
}

/// The number of frames that a replay of `inputs` runs at most: the tick of
/// the last input.
pub open spec fn replay_length(inputs: Seq<(u64, Input)>) -> int {
    if inputs.len() == 0 {
        0
    } else {
        inputs.last().0 as int
    }
}

/// `after` is what a replay of `inputs` makes of `before`: the simulation
/// after some number of frames, with some numbers drawn, where the replay has
/// quit or has run its full length.
pub open spec fn is_replay(before: GameModel, inputs: Seq<(u64, Input)>, after: GameModel) -> bool {
    exists|frames: int, rolls: Seq<Seq<usize>>|
        {
            &&& 0 <= frames <= replay_length(inputs)
            &&& rolls.len() == frames
            &&& (#[trigger] replay_upto(before, inputs, frames, rolls)).game == after
            &&& (frames == replay_length(inputs) || replay_upto(before, inputs, frames, rolls).quit)
        }
}

/// The first frames of a replay do not depend on the numbers of later
/// frames.
pub proof fn lemma_replay_upto_prefix(
    game: GameModel,
    inputs: Seq<(u64, Input)>,
    frames: int,
    rolls: Seq<Seq<usize>>,
    more: Seq<Seq<usize>>,
)
    requires
        0 <= frames <= rolls.len(),
    ensures
        replay_upto(game, inputs, frames, rolls + more) == replay_upto(game, inputs, frames, rolls),
    decreases frames,
{
    if frames > 0 {
        lemma_replay_upto_prefix(game, inputs, frames - 1, rolls, more);
        assert((rolls + more)[frames - 1] == rolls[frames - 1]);
    }
}

/// A replay keeps the simulation valid.
pub proof fn lemma_replay_upto_wf(
    game: GameModel,
    inputs: Seq<(u64, Input)>,
    frames: int,
    rolls: Seq<Seq<usize>>,
)
    requires
        game.wf(),
    ensures
        replay_upto(game, inputs, frames, rolls).game.wf(),
        0 <= replay_upto(game, inputs, frames, rolls).next,
    decreases frames,
{
    if frames > 0 {
        lemma_replay_upto_wf(game, inputs, frames - 1, rolls);
        let state = replay_upto(game, inputs, frames - 1, rolls);
        let r = rolls[frames - 1];
        if !state.quit {
            if 0 <= state.next < inputs.len() && inputs[state.next].0 == frames - 1 {
                state.game.lemma_input_wf(inputs[state.next].1);
                state.game.input(inputs[state.next].1).lemma_updated_wf(r);
            } else {
                state.game.lemma_updated_wf(r);
            }
        }
    }
}

/// Determinism: two simulations that start from the same parameters and the
/// same layout, replay the same inputs and are given the same numbers agree
/// after every number of frames, in every figure and every position. Of the
/// functions that run, `Game::tick_with`, `Replay::step_with` and
/// `run_from_recording_with` take the numbers and give exactly this replay.
pub proof fn lemma_replay_deterministic(
    params: crate::game::Parameters,
    layout: Seq<char>,
    first: GameModel,
    second: GameModel,
    inputs: Seq<(u64, Input)>,
    frames: int,
    rolls: Seq<Seq<usize>>,
)
    requires
        crate::game::setup(params, layout) == Ok::<GameModel, crate::game::SetupError>(first),
        crate::game::setup(params, layout) == Ok::<GameModel, crate::game::SetupError>(second),
    ensures
        replay_upto(first, inputs, frames, rolls) == replay_upto(second, inputs, frames, rolls),
        replay_upto(first, inputs, frames, rolls).game.stats() == replay_upto(
            second,
            inputs,
            frames,
            rolls,
        ).game.stats(),
        replay_upto(first, inputs, frames, rolls).game.ghosts.members == replay_upto(
            second,
            inputs,
            frames,
            rolls,
        ).game.ghosts.members,
{
}

/// A replay in progress: the decoded inputs, the position of the next input
/// that waits for its tick, and the number of the frame that comes next.
pub struct Replay {
    inputs: Vec<(u64, Input)>,
    next: usize,
    frame: u64,
    quit: bool,
}

impl Replay {
    /// The inputs that are replayed.
    pub closed spec fn inputs(&self) -> Seq<(u64, Input)> {
        self.inputs@
    }

    /// The position of the next input that waits for its tick.
    pub closed spec fn next(&self) -> int {
        self.next as int
    }

    /// The number of frames done.
    pub closed spec fn frame(&self) -> int {
        self.frame as int
    }

    /// Whether the replay has applied an input that quits.
    pub closed spec fn has_quit(&self) -> bool {
        self.quit
    }

    /// The replay's invariant: there are inputs, and neither the position of
    /// the next input nor the frame lies beyond them.
    pub open spec fn wf(&self) -> bool {
        &&& self.inputs().len() > 0
        &&& 0 <= self.next() <= self.inputs().len()
        &&& 0 <= self.frame() <= replay_length(self.inputs())
    }

    /// Whether nothing is left to do: the replay has quit or run its full
    /// length.
    pub open spec fn finished(&self) -> bool {
        self.has_quit() || self.frame() >= replay_length(self.inputs())
    }

    /// The replay as a state, for the simulation `game`.
    pub open spec fn state(&self, game: GameModel) -> ReplayState {
        ReplayState { game, next: self.next(), quit: self.has_quit() }
    }

    /// Checks and decodes a recording and sets out to replay it.
    pub fn new(recording: Recording) -> (r: Result<Replay, String>)
        ensures
            match r {
                Ok(replay) => recording_error(recording@) is None && replay.inputs() == decoded(
                    recording@,
                ) && replay.wf() && replay.next() == 0 && replay.frame() == 0
                    && !replay.has_quit(),
                Err(text) => recording_error(recording@) == Some(text@),
            },
    {
        match try_parse_recording(recording) {
            Ok(inputs) => Ok(Replay { inputs, next: 0, frame: 0, quit: false }),
            Err(text) => Err(text),
        }
    }

    /// Whether nothing is left to do.
    pub fn is_finished(&self) -> (b: bool)
        requires
            self.wf(),
        ensures
            b == self.finished(),
    {
        self.quit || self.frame >= self.inputs[self.inputs.len() - 1].0
    }

    /// The number of frames done.
    pub fn frames_done(&self) -> (n: u64)
        ensures
            n == self.frame(),
    {
        self.frame
    }

    /// Whether the replay has applied an input that quits.
    pub fn stopped_by_quit(&self) -> (b: bool)
        ensures
            b == self.has_quit(),
    {
        self.quit
    }

    /// Applies the input that is due at this frame, if there is one. Returns
    /// whether the frame goes on, which it does unless the input quits.
    fn apply_due_input<RG: Simulator>(&mut self, game: &mut Game<RG>) -> (go: bool)
        requires
            old(self).wf(),
            old(game)@.wf(),
            !old(self).finished(),
        ensures
            final(self).wf(),
            final(game)@.wf(),
            final(self).inputs() == old(self).inputs(),
            final(self).frame() == old(self).frame(),
            final(game).simulator() == old(game).simulator(),
            final(self).has_quit() == !go,
            ({
                let inputs = old(self).inputs();
                let next = old(self).next();
                let due = next < inputs.len() && inputs[next].0 == old(self).frame();
                &&& go == !(due && inputs[next].1 == Input::Quit)
                &&& !go ==> final(game)@ == old(game)@ && final(self).next() == next
                &&& go && due ==> final(game)@ == old(game)@.input(inputs[next].1)
                &&& go && due ==> final(self).next() == next + 1
                &&& go && !due ==> final(game)@ == old(game)@ && final(self).next() == next
            }),
    {
        if self.next < self.inputs.len() && self.inputs[self.next].0 == self.frame {
            if game.input(self.inputs[self.next].1) {
                self.quit = true;
                return false;
            }
            self.next = self.next + 1;
        }
        true
    }

    /// Replays one frame on `game`; a finished replay does nothing. Returns
    /// whether the replay is finished afterwards.
    pub fn step<RG: Simulator>(&mut self, game: &mut Game<RG>) -> (done: bool)
        requires
            old(self).wf(),
            old(game)@.wf(),
        ensures
            final(self).wf(),
            final(game)@.wf(),
            final(self).inputs() == old(self).inputs(),
            done == final(self).finished(),
            old(self).finished() ==> final(game)@ == old(game)@ && final(self).state(
                final(game)@,
            ) == old(self).state(old(game)@) && final(self).frame() == old(self).frame(),
            old(self).finished() || final(self).has_quit() ==> final(game).simulator() == old(
                game,
            ).simulator(),
            !old(self).finished() ==> final(self).frame() == old(self).frame() + 1 && exists|
                rolls: Seq<usize>,
            |
                rolls.len() == 4 && final(self).state(final(game)@) == #[trigger] replay_frame(
                    old(self).state(old(game)@),
                    old(self).inputs(),
                    old(self).frame(),
                    rolls,
                ),
    {
        if self.is_finished() {
            return true;
        }
        let ghost before = self.state(game@);
        let last = self.inputs[self.inputs.len() - 1].0;
        if self.apply_due_input(game) {
            let ghost between = game@;
            game.update();
            proof {
                let rolls = choose|rolls: Seq<usize>|
                    rolls.len() == 4 && game@ == #[trigger] between.updated(rolls);
                assert(self.state(game@) == replay_frame(
                    before,
                    self.inputs(),
                    self.frame as int,
                    rolls,
                ));
            }
        } else {
            proof {
                let zero = seq![0usize, 0usize, 0usize, 0usize];
                assert(self.state(game@) == replay_frame(
                    before,
                    self.inputs(),
                    self.frame as int,
                    zero,
                ));
            }
        }
        self.frame = self.frame + 1;
        self.quit || self.frame >= last
    }

    /// Replays one frame on `game` with the numbers `rolls` in place of
    /// numbers drawn; a finished replay does nothing. Returns whether the
    /// replay is finished afterwards.
    pub fn step_with<RG: Simulator>(&mut self, game: &mut Game<RG>, rolls: [usize; 4]) -> (done:
        bool)
        requires
            old(self).wf(),
            old(game)@.wf(),
        ensures
            final(self).wf(),
            final(game)@.wf(),
            final(self).inputs() == old(self).inputs(),
            final(game).simulator() == old(game).simulator(),
            done == final(self).finished(),
            old(self).finished() ==> final(self).state(final(game)@) == old(self).state(
                old(game)@,
            ) && final(self).frame() == old(self).frame(),
            !old(self).finished() ==> final(self).frame() == old(self).frame() + 1,
            !old(self).finished() ==> final(self).state(final(game)@) == replay_frame(
                old(self).state(old(game)@),
                old(self).inputs(),
                old(self).frame(),
                rolls@,
            ),
    {
        if self.is_finished() {
            return true;
        }
        let last = self.inputs[self.inputs.len() - 1].0;
        if self.apply_due_input(game) {
            game.update_with(rolls);
        }
        self.frame = self.frame + 1;
        self.quit || self.frame >= last
    }
}

/// The numbers of the first `frames` frames as a replay takes them from
/// `numbers`: the `i`-th block for frame `i`, and zeros for the frames
/// beyond the last block.
pub open spec fn blocks_of(numbers: Seq<[usize; 4]>, frames: int) -> Seq<Seq<usize>> {
    Seq::new(
        frames as nat,
        |i: int|
            if i < numbers.len() {
                numbers[i]@
            } else {
                seq![0usize, 0usize, 0usize, 0usize]
            },
    )
}

/// What a replay of `inputs` on `game` comes to with the numbers `numbers`:
/// the simulation after the replay's full length, where frames after a quit
/// change nothing.
pub open spec fn replayed(
    game: GameModel,
    inputs: Seq<(u64, Input)>,
    numbers: Seq<[usize; 4]>,
) -> GameModel {
    replay_upto(
        game,
        inputs,
        replay_length(inputs),
        blocks_of(numbers, replay_length(inputs)),
    ).game
}

/// After a quit nothing changes: the replay stays as the quit left it.
pub proof fn lemma_replay_after_quit(
    game: GameModel,
    inputs: Seq<(u64, Input)>,
    from: int,
    to: int,
    rolls: Seq<Seq<usize>>,
)
    requires
        0 <= from <= to,
        replay_upto(game, inputs, from, rolls).quit,
    ensures
        replay_upto(game, inputs, to, rolls) == replay_upto(game, inputs, from, rolls),
    decreases to - from,
{
    if from < to {
        lemma_replay_after_quit(game, inputs, from, to - 1, rolls);
    }
}

/// Replays a recording on `game` with the numbers `numbers` in place of
/// numbers drawn: the `i`-th block steers the ghosts in frame `i`, and
/// zeros do so in the frames beyond the last block. The result is a function
/// of the simulation, the recording and the numbers, so that two
/// simulations that were equal before are equal after. A recording that
/// cannot be replayed is refused before the simulation is touched.
pub fn run_from_recording_with<RG: Simulator>(
    game: &mut Game<RG>,
    recording: Recording,
    numbers: &Vec<[usize; 4]>,
) -> (r: Result<(), String>)
    requires
        old(game)@.wf(),
    ensures
        final(game)@.wf(),
        final(game).simulator() == old(game).simulator(),
        match r {
            Ok(_) => recording_error(recording@) is None && final(game)@ == replayed(
                old(game)@,
                decoded(recording@),
                numbers@,
            ),
            Err(text) => recording_error(recording@) == Some(text@) && final(game)@ == old(game)@,
        },
{
    let mut replay = match Replay::new(recording) {
        Ok(replay) => replay,
        Err(text) => {
            return Err(text);
        },
    };
    let ghost inputs = replay.inputs();
    let ghost start = game@;
    let ghost length = replay_length(inputs);
    let ghost blocks = blocks_of(numbers@, length);
    while !replay.is_finished()
        invariant
            replay.wf(),
            game@.wf(),
            game.simulator() == old(game).simulator(),
            replay.inputs() == inputs,
            inputs == decoded(recording@),
            start == old(game)@,
            length == replay_length(inputs),
            blocks == blocks_of(numbers@, length),
            replay.state(game@) == replay_upto(start, inputs, replay.frame(), blocks),
        decreases replay_length(inputs) - replay.frame(),
    {
        let frame = replay.frames_done();
        let rolls = if frame < numbers.len() as u64 {
            numbers[frame as usize]
        } else {
            [0usize, 0usize, 0usize, 0usize]
        };
        proof {
            assert(blocks[replay.frame()] == rolls@);
        }
        replay.step_with(game, rolls);
    }
    proof {
        if replay.has_quit() {
            lemma_replay_after_quit(start, inputs, replay.frame(), length, blocks);
        }
    }
    Ok(())
}

/// Replays a recording on `game` without showing anything. A recording that
/// is empty, does not end by quitting or holds a character that stands for no
/// input is refused before the simulation is touched.
pub fn run_from_recording_nogui<RG: Simulator>(game: &mut Game<RG>, recording: Recording) -> (r:
    Result<(), String>)
    requires
        old(game)@.wf(),
    ensures
        final(game)@.wf(),
        match r {
            Ok(_) => recording_error(recording@) is None && is_replay(
                old(game)@,
                decoded(recording@),
                final(game)@,
            ),
            Err(text) => recording_error(recording@) == Some(text@) && final(game)@ == old(game)@
                && final(game).simulator() == old(game).simulator(),
        },
{
    let mut replay = match Replay::new(recording) {
        Ok(replay) => replay,
        Err(text) => {
            return Err(text);
        },
    };
    let ghost inputs = replay.inputs();
    let ghost start = game@;
    let ghost mut rolls: Seq<Seq<usize>> = Seq::empty();
    while !replay.is_finished()
        invariant
            replay.wf(),
            game@.wf(),
            replay.inputs() == inputs,
            inputs == decoded(recording@),
            start == old(game)@,
            rolls.len() == replay.frame(),
            replay.state(game@) == replay_upto(start, inputs, replay.frame(), rolls),
        decreases replay_length(inputs) - replay.frame(),
    {
        let ghost before = replay.state(game@);
        let ghost frame = replay.frame();
        replay.step(game);
        proof {
            let block = choose|block: Seq<usize>|
                block.len() == 4 && replay.state(game@) == #[trigger] replay_frame(
                    before,
                    inputs,
                    frame,
                    block,
                );
            lemma_replay_upto_prefix(start, inputs, frame, rolls, seq![block]);
            rolls = rolls + seq![block];
        }
    }
    proof {
        assert(replay_upto(start, inputs, replay.frame(), rolls).game == game@);
    }
    Ok(())
}

/// A run that is being captured: the records so far, the number of the
/// frame that comes next, and the input that waits for the next update.
pub struct Recorder {
    recording: Recording,
    frame_count: u64,
    pending: Buffer<Input>,
}

/// A capture as a mathematical value.
pub struct RecorderModel {
    pub recording: Seq<(u64, char)>,
    pub frame_count: int,
    pub pending: Option<Input>,
}

impl View for Recorder {
    type V = RecorderModel;

    closed spec fn view(&self) -> RecorderModel {
        RecorderModel {
            recording: self.recording@,
            frame_count: self.frame_count as int,
            pending: self.pending@,
        }
    }
}

impl RecorderModel {
    /// The capture's invariant: every character on record stands for an
    /// input, the ticks on record never fall, and none lies beyond the frame
    /// that comes next.
    pub open spec fn wf(self) -> bool {
        &&& 0 <= self.frame_count <= u64::MAX
        &&& forall|i: int|
            0 <= i < self.recording.len() ==> symbol_input((#[trigger] self.recording[i]).1)
                is Some && self.recording[i].0 <= self.frame_count
        &&& forall|i: int, j: int|
            0 <= i <= j < self.recording.len() ==> (#[trigger] self.recording[i]).0
                <= (#[trigger] self.recording[j]).0
    }

    /// An update keeps the capture's invariant, and a capture that has just
    /// quit can be replayed: it is not empty, its last record quits, and
    /// every character in it stands for an input.
    pub proof fn lemma_updated_wf(self)
        requires
            self.wf(),
            self.frame_count < u64::MAX,
        ensures
            self.updated().wf(),
            self.quits() ==> recording_error(self.updated().recording) is None,
    {
        let after = self.updated();
        if self.pending is Some {
            let input = self.pending.unwrap();
            let record = (self.frame_count as u64, input_symbol(input));
            assert(symbol_input(input_symbol(input)) == Some(input));
            assert forall|i: int| 0 <= i < after.recording.len() implies symbol_input(
                (#[trigger] after.recording[i]).1,
            ) is Some && after.recording[i].0 <= after.frame_count by {
                if i < self.recording.len() {
                    assert(after.recording[i] == self.recording[i]);
                }
            }
            assert forall|i: int, j: int| 0 <= i <= j < after.recording.len() implies (
            #[trigger] after.recording[i]).0 <= (#[trigger] after.recording[j]).0 by {
                if j < self.recording.len() {
                    assert(after.recording[i] == self.recording[i]);
                    assert(after.recording[j] == self.recording[j]);
                } else if i < self.recording.len() {
                    assert(after.recording[i] == self.recording[i]);
                }
            }
            if self.quits() {
                lemma_first_invalid(after.recording, 0);
                let k = first_invalid(after.recording, 0);
                if k < after.recording.len() {
                    assert(symbol_input(after.recording[k].1) is Some);
                }
            }
        }
    }

    /// The capture after an update: the input that waited is on record with
    /// the frame's number, and unless it quits the frame is counted.
    pub open spec fn updated(self) -> RecorderModel {
        match self.pending {
            Some(input) => RecorderModel {
                recording: self.recording.push((self.frame_count as u64, input_symbol(input))),
                frame_count: if input == Input::Quit {
                    self.frame_count
                } else {
                    self.frame_count + 1
                },
                pending: None,
            },
            None => RecorderModel { frame_count: self.frame_count + 1, ..self },
        }
    }

    /// The simulation before its update of this frame: with the input that
    /// waited applied.
    pub open spec fn steered(self, game: GameModel) -> GameModel {
        match self.pending {
            Some(input) => game.input(input),
            None => game,
        }
    }

    /// Whether the input that waits quits.
    pub open spec fn quits(self) -> bool {
        self.pending == Some(Input::Quit)
    }
}

impl Recorder {
    /// A capture that has not begun.
    pub fn new() -> (r: Recorder)
        ensures
            r@ == (RecorderModel { recording: Seq::empty(), frame_count: 0, pending: None }),
            r@.wf(),
    {
        Recorder { recording: Vec::new(), frame_count: 0, pending: Buffer::new() }
    }

    /// Notes an input for the next update; it replaces one that still
    /// waits.
    pub fn press(&mut self, input: Input)
        ensures
            final(self)@ == (RecorderModel { pending: Some(input), ..old(self)@ }),
            old(self)@.wf() ==> final(self)@.wf(),
    {
        self.pending.push(input);
    }

    /// One frame of a captured run: the input that waits is put on record
    /// and applied; unless it quits, the simulation is updated and the frame
    /// counted. Returns whether the input quit.
    pub fn update<RG: Simulator>(&mut self, game: &mut Game<RG>) -> (quit: bool)
        requires
            old(game)@.wf(),
            old(self)@.frame_count < u64::MAX,
        ensures
            final(game)@.wf(),
            final(self)@ == old(self)@.updated(),
            old(self)@.wf() ==> final(self)@.wf(),
            quit == old(self)@.quits(),
            quit && old(self)@.wf() ==> recording_error(final(self)@.recording) is None,
            quit ==> final(game)@ == old(game)@ && final(game).simulator() == old(
                game,
            ).simulator(),
            !quit ==> exists|rolls: Seq<usize>|
                rolls.len() == 4 && final(game)@ == #[trigger] old(self)@.steered(
                    old(game)@,
                ).updated(rolls),
    {
        proof {
            if self@.wf() {
                self@.lemma_updated_wf();
            }
        }
        match self.pending.pop() {
            Some(input) => {
                self.recording.push((self.frame_count, input.to_char()));
                if game.input(input) {
                    return true;
                }
            },
            None => {},
        }
        game.update();
        self.frame_count = self.frame_count + 1;
        false
    }

    /// The records so far.
    pub fn recording(&self) -> (r: &Recording)
        ensures
            r@ == self@.recording,
    {
        &self.recording
    }

    /// The records, when the capture is over.
    pub fn into_recording(self) -> (r: Recording)
        ensures
            r@ == self@.recording,
    {
        self.recording
    }

    /// The number of the frame that comes next.
    pub fn frame_count(&self) -> (n: u64)
        ensures
            n == self@.frame_count,
    {
        self.frame_count
    }
}

} // verus!
