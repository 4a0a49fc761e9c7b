//! The play loop: a state machine that starts a random board, steps the
//! game, lets the player restart or invert the board with the buttons,
//! and pauses once the board has died out.

pub mod counter;
pub mod life;

use vstd::prelude::*;
use nanorand::Pcg64;
use nanorand::Rng;
use crate::playfield::{alive_pair, dead_pair, fits_display, is_rendered_row, Playfield, RowWriter};
use counter::Counter;
use life::{life, is_binary, is_empty, is_next_generation};

verus! {

/// The software random number generator that seeds new boards.
#[verifier::external_type_specification]
#[verifier::external_body]
pub struct ExPcg64(Pcg64);

/// The generator that nanorand's `Pcg64::new_seed` makes from `seed`.
pub uninterp spec fn pcg64_seeded(seed: u128) -> Pcg64;

/// nanorand's `Pcg64::new_seed`: a generator with the given seed.
///
/// Trusted: `new_seed` is a `const fn` that only stores its argument (with
/// state and increment 0), so equal seeds give equal generators; what the
/// generator then draws is not stated.
#[verifier::external_body]
fn pcg64_new_seed(seed: u128) -> (rng: Pcg64)
    ensures
        rng == pcg64_seeded(seed),
{
    Pcg64::new_seed(seed)
}

/// nanorand's `Rng::generate::<bool>` for `Pcg64`: the next random bit.
///
/// Trusted: the bit depends on the generator's hidden state, so nothing is
/// stated of it.
#[verifier::external_body]
fn pcg64_bool(rng: &mut Pcg64) -> (b: bool) {
    rng.generate::<bool>()
}

/// `256` to the power `k`.
pub open spec fn pow256(k: nat) -> nat
    decreases k,
{
    if k == 0 {
        1
    } else {
        256 * pow256((k - 1) as nat)
    }
}

/// The number that `bytes` spell, least significant byte first.
pub open spec fn le_value(bytes: Seq<u8>) -> nat
    decreases bytes.len(),
{
    if bytes.len() == 0 {
        0
    } else {
        (bytes[0] + 256 * le_value(bytes.drop_first())) as nat
    }
}

proof fn lemma_pow256_grows(a: nat, b: nat)
    requires
        a <= b,
    ensures
        pow256(a) <= pow256(b),
    decreases b,
{
    if a < b {
        lemma_pow256_grows(a, (b - 1) as nat);
    }
}

/// The 16 seed bytes as one number, least significant byte first: what
/// nanorand's `Pcg64::reseed` reads them as on a little-endian machine such
/// as the nRF52.
pub fn seed_value(seed: [u8; 16]) -> (v: u128)
    ensures
        v == le_value(seed@),
{
    proof {
        reveal_with_fuel(pow256, 17);
        assert(pow256(16) == 0x1_0000_0000_0000_0000_0000_0000_0000_0000nat);
        assert(seed@.subrange(16, 16).len() == 0);
    }
    let mut v: u128 = 0;
    let mut i: usize = 16;
    while i > 0
        invariant
            0 <= i <= 16,
            v == le_value(seed@.subrange(i as int, 16)),
            v < pow256((16 - i) as nat),
            pow256(16) == 0x1_0000_0000_0000_0000_0000_0000_0000_0000nat,
        decreases i,
    {
        i = i - 1;
        let b = seed[i];
        proof {
            let tail = seed@.subrange(i as int, 16);
            assert(tail[0] == b);
            assert(tail.drop_first() =~= seed@.subrange(i + 1, 16));
            let k = (16 - i) as nat;
            assert(pow256(k) == 256 * pow256((k - 1) as nat));
            assert(v * 256 + b < 256 * pow256((k - 1) as nat)) by (nonlinear_arith)
                requires
                    v < pow256((k - 1) as nat),
                    b < 256,
            ;
            lemma_pow256_grows(k, 16);
        }
        v = v * 256 + b as u128;
    }
    assert(seed@.subrange(0, 16) =~= seed@);
    v
}

/// The generator for new boards, seeded with the given 16 bytes (in the
/// program, bytes read from the hardware generator): a generator seeded
/// with 1 and then reseeded with the bytes holds just the bytes' value as
/// its seed, so it is made from that value directly.
pub fn make_rng(seed: [u8; 16]) -> (rng: Pcg64)
    ensures
        rng == pcg64_seeded(le_value(seed@) as u128),
{
    let v = seed_value(seed);
    pcg64_new_seed(v)
}

/// Frames to stay paused after the board has died out.
pub const PAUSE_FRAMES: usize = 5;

/// Frames after a flip during which the flip button is ignored.
pub const FLIP_HOLDOFF: usize = 5;

/// Play states.
#[derive(Clone, Copy, Debug, PartialEq, Eq, Structural)]
pub enum State {
    /// State to start a new randomized board.
    Initing,
    /// State to wait `remaining` ticks before continuing.
    Paused { remaining: Counter },
    /// State to complement the board.
    Flipping,
    /// State to step the game. Will only accept the "flip"
    /// button if `last_flip` is 0.
    Running { last_flip: Counter },
}

/// What one tick does to the board.
pub enum BoardChange {
    /// Fill the board with random cells.
    Randomize,
    /// Advance the game by one generation.
    Step,
    /// Complement every cell.
    Flip,
    /// Leave the board as it is.
    Keep,
}

/// The state after one tick from `s`, where `done` says whether the board
/// is empty and `a`, `b` whether the buttons are held.
pub open spec fn next_state(s: State, done: bool, a: bool, b: bool) -> State {
    match s {
        State::Initing => State::Running { last_flip: Counter(0) },
        State::Running { last_flip } => {
            if done {
                State::Paused { remaining: Counter(PAUSE_FRAMES) }
            } else if a {
                State::Initing
            } else if b && last_flip.0 == 0 {
                State::Flipping
            } else {
                State::Running { last_flip: Counter(Counter::decremented(last_flip.0)) }
            }
        },
        State::Paused { remaining } => {
            if remaining.0 != 0 {
                State::Paused { remaining: Counter(Counter::decremented(remaining.0)) }
            } else {
                State::Initing
            }
        },
        State::Flipping => State::Running { last_flip: Counter(FLIP_HOLDOFF) },
    }
}

/// What the tick from `s` does to the board.
pub open spec fn board_change(s: State, done: bool, a: bool, b: bool) -> BoardChange {
    match s {
        State::Initing => BoardChange::Randomize,
        State::Running { last_flip } => {
            if done || a || (b && last_flip.0 == 0) {
                BoardChange::Keep
            } else {
                BoardChange::Step
            }
        },
        State::Paused { .. } => BoardChange::Keep,
        State::Flipping => BoardChange::Flip,
    }
}

/// `next` holds every cell of `prev` complemented: 0 becomes 1, any other
/// value 0.
pub open spec fn is_complement<const NR: usize, const NC: usize>(
    prev: [[u8; NC]; NR],
    next: [[u8; NC]; NR],
) -> bool {
    forall|r: int, c: int|
        0 <= r < NR && 0 <= c < NC ==> #[trigger] next[r][c] == (if prev[r][c] == 0 {
            1u8
        } else {
            0u8
        })
}

/// The state after one tick per input, each input being (board empty,
/// button A held, button B held) at that tick.
pub open spec fn states_after(s: State, inputs: Seq<(bool, bool, bool)>) -> State
    decreases inputs.len(),
{
    if inputs.len() == 0 {
        s
    } else {
        states_after(next_state(s, inputs[0].0, inputs[0].1, inputs[0].2), inputs.drop_first())
    }
}

/// Flipping the board twice gives back the board it started from.
pub proof fn lemma_flip_twice_restores<const NR: usize, const NC: usize>(
    g: [[u8; NC]; NR],
    h: [[u8; NC]; NR],
    k: [[u8; NC]; NR],
)
    requires
        is_binary(g),
        is_complement(g, h),
        is_complement(h, k),
    ensures
        k == g,
{
    assert forall|r: int| 0 <= r < NR implies #[trigger] k[r] == g[r] by {
        assert forall|c: int| 0 <= c < NC implies k[r][c] == g[r][c] by {
            assert(h[r][c] == (if g[r][c] == 0 { 1u8 } else { 0u8 }));
            assert(k[r][c] == (if h[r][c] == 0 { 1u8 } else { 0u8 }));
            assert(g[r][c] <= 1);
        }
        assert(k[r] =~= g[r]);
    }
    assert(k =~= g);
}

/// A paused state with `k` frames left.
pub open spec fn paused(k: int) -> State {
    State::Paused { remaining: Counter(k as usize) }
}

/// A running state with `k` frames of flip hold-off left.
pub open spec fn running(k: int) -> State {
    State::Running { last_flip: Counter(k as usize) }
}

/// A pause of `k` frames lasts whatever the buttons and the board do: it
/// is still a pause, with `k - j` frames left, after `j <= k` ticks, and
/// it gives way to a new board on tick `k + 1`.
pub proof fn lemma_pause_countdown(k: usize, inputs: Seq<(bool, bool, bool)>)
    requires
        inputs.len() <= k + 1,
    ensures
        inputs.len() <= k ==> states_after(paused(k as int), inputs) == paused(k - inputs.len()),
        inputs.len() == k + 1 ==> states_after(paused(k as int), inputs) is Initing,
    decreases inputs.len(),
{
    if inputs.len() > 0 {
        let step = next_state(paused(k as int), inputs[0].0, inputs[0].1, inputs[0].2);
        assert(states_after(paused(k as int), inputs) == states_after(step, inputs.drop_first()));
        if k > 0 {
            assert(step == paused(k - 1));
            lemma_pause_countdown((k - 1) as usize, inputs.drop_first());
        } else {
            assert(inputs.drop_first().len() == 0);
            assert(states_after(step, inputs.drop_first()) == step);
        }
    }
}

/// The board flips only from a running game whose hold-off has run out,
/// when button B alone is held and the board is not empty.
pub proof fn lemma_flip_needs_holdoff(s: State, done: bool, a: bool, b: bool)
    ensures
        (next_state(s, done, a, b) is Flipping) ==> (s is Running && s->last_flip.0 == 0 && b && !a
            && !done),
{
}

/// Holding button B alone on a live board while `n` frames of hold-off
/// remain: the game keeps running for `n` ticks, the hold-off counting
/// down, and flips on the tick after.
pub proof fn lemma_holding_flip_button(n: usize, inputs: Seq<(bool, bool, bool)>)
    requires
        inputs.len() <= n + 1,
        forall|i: int| 0 <= i < inputs.len() ==> #[trigger] inputs[i] == (false, false, true),
    ensures
        inputs.len() <= n ==> states_after(running(n as int), inputs) == running(n - inputs.len()),
        inputs.len() == n + 1 ==> states_after(running(n as int), inputs) is Flipping,
    decreases inputs.len(),
{
    if inputs.len() > 0 {
        assert(inputs[0] == (false, false, true));
        let step = next_state(running(n as int), false, false, true);
        assert(states_after(running(n as int), inputs) == states_after(step, inputs.drop_first()));
        if n > 0 {
            assert(step == running(n - 1));
            let rest = inputs.drop_first();
            assert forall|i: int| 0 <= i < rest.len() implies #[trigger] rest[i] == (
                false,
                false,
                true,
            ) by {
                assert(rest[i] == inputs[i + 1]);
            }
            lemma_holding_flip_button((n - 1) as usize, rest);
        } else {
            assert(inputs.drop_first().len() == 0);
            assert(states_after(step, inputs.drop_first()) == step);
        }
    }
}

/// A running game whose board has died out pauses for `PAUSE_FRAMES`
/// frames, whatever the buttons.
pub proof fn lemma_empty_board_pauses(k: usize, a: bool, b: bool)
    ensures
        next_state(running(k as int), true, a, b) == paused(PAUSE_FRAMES as int),
{
}

/// Button A restarts a running game whose board is not empty, whatever
/// button B does: the next state starts a new board, and this tick leaves
/// the board as it is.
pub proof fn lemma_button_a_restarts(k: usize, b: bool)
    ensures
        next_state(running(k as int), false, true, b) is Initing,
        board_change(running(k as int), false, true, b) is Keep,
{
}

/// A running tick on a live board with button A released that does not
/// flip (button B released, or the hold-off not yet run out) steps the
/// board one generation and counts the hold-off down by one, stopping at
/// zero, whether or not button B is held.
pub proof fn lemma_running_tick_steps(k: usize, b: bool)
    requires
        !(b && k == 0),
    ensures
        next_state(running(k as int), false, false, b) == running(if k > 0 { k - 1 } else { 0 }),
        board_change(running(k as int), false, false, b) is Step,
{
}

/// Button B alone on a live board with the hold-off run out flips the
/// board on the next tick: this tick keeps the board and enters `Flipping`,
/// and the tick from `Flipping` complements the board and restarts the
/// hold-off at `FLIP_HOLDOFF` frames, whatever the buttons.
pub proof fn lemma_button_b_flips(done: bool, a: bool, b: bool)
    ensures
        next_state(running(0), false, false, true) is Flipping,
        board_change(running(0), false, false, true) is Keep,
        next_state(State::Flipping, done, a, b) == running(FLIP_HOLDOFF as int),
        board_change(State::Flipping, done, a, b) is Flip,
{
}

/// A new game's first tick fills the board with random cells and starts
/// running with no hold-off, whatever the buttons and the old board.
pub proof fn lemma_new_game_randomizes(done: bool, a: bool, b: bool)
    ensures
        next_state(State::Initing, done, a, b) == running(0),
        board_change(State::Initing, done, a, b) is Randomize,
{
}

/// A board built from drawn bits has a live cell exactly where a bit is
/// true; so it is empty only when every bit drawn is false.
pub proof fn lemma_board_follows_draws<const NR: usize, const NC: usize>(
    draws: [[bool; NC]; NR],
    g: [[u8; NC]; NR],
)
    requires
        is_board_of(draws, g),
    ensures
        forall|r: int, c: int| 0 <= r < NR && 0 <= c < NC ==> (#[trigger] g[r][c] == 1 <==> draws[r][c]),
        is_binary(g),
        is_empty(g) <==> (forall|r: int, c: int| 0 <= r < NR && 0 <= c < NC ==> !#[trigger] draws[r][c]),
{
    assert forall|r: int, c: int| 0 <= r < NR && 0 <= c < NC implies #[trigger] g[r][c] <= 1 by {
        assert(g[r][c] == (if draws[r][c] { 1u8 } else { 0u8 }));
    }
    if is_empty(g) {
        assert forall|r: int, c: int| 0 <= r < NR && 0 <= c < NC implies !#[trigger] draws[r][c] by {
            assert(g[r][c] == 0);
        }
    }
    if forall|r: int, c: int| 0 <= r < NR && 0 <= c < NC ==> !#[trigger] draws[r][c] {
        assert forall|r: int, c: int| 0 <= r < NR && 0 <= c < NC implies #[trigger] g[r][c] == 0 by {
            assert(!draws[r][c]);
        }
    }
}

/// Every counter in the state is at most 5 (the longest pause and hold-off).
pub open spec fn is_bounded(s: State) -> bool {
    match s {
        State::Running { last_flip } => last_flip.0 <= FLIP_HOLDOFF,
        State::Paused { remaining } => remaining.0 <= PAUSE_FRAMES,
        _ => true,
    }
}

/// Ticks keep the counters bounded: from a bounded state (such as the
/// `Initing` that a new player starts in), every later state is bounded.
pub proof fn lemma_states_stay_bounded(s: State, inputs: Seq<(bool, bool, bool)>)
    requires
        is_bounded(s),
    ensures
        is_bounded(states_after(s, inputs)),
    decreases inputs.len(),
{
    if inputs.len() > 0 {
        lemma_states_stay_bounded(
            next_state(s, inputs[0].0, inputs[0].1, inputs[0].2),
            inputs.drop_first(),
        );
    }
}

/// While paused, a tick leaves the board as it is, whatever the buttons.
pub proof fn lemma_pause_keeps_board(k: usize, done: bool, a: bool, b: bool)
    ensures
        board_change(paused(k as int), done, a, b) is Keep,
{
}

/// How many ticks from `s`, with button A released, surely pass without
/// the board flipping.
pub open spec fn ticks_without_flip(s: State) -> int {
    match s {
        State::Running { last_flip } => if last_flip.0 <= PAUSE_FRAMES + 3 {
            last_flip.0 as int
        } else {
            PAUSE_FRAMES + 3
        },
        State::Paused { remaining } => remaining.0 + 2,
        State::Initing => 1,
        State::Flipping => FLIP_HOLDOFF as int + 1,
    }
}

/// With button A released, none of the first `ticks_without_flip(s)` ticks
/// flips the board, whatever button B and the board do. In particular a
/// running game with `k <= 5` frames of hold-off left does not flip for `k`
/// ticks: button B is ignored until the hold-off has run out.
pub proof fn lemma_no_flip_during_holdoff(s: State, inputs: Seq<(bool, bool, bool)>, j: int)
    requires
        inputs.len() <= ticks_without_flip(s),
        forall|i: int| 0 <= i < inputs.len() ==> !(#[trigger] inputs[i]).1,
        1 <= j <= inputs.len(),
    ensures
        !(states_after(s, inputs.take(j)) is Flipping),
    decreases inputs.len(),
{
    let s1 = next_state(s, inputs[0].0, inputs[0].1, inputs[0].2);
    assert(!inputs[0].1);
    assert(!(s1 is Flipping));
    assert(ticks_without_flip(s1) >= ticks_without_flip(s) - 1);
    let t = inputs.take(j);
    assert(t[0] == inputs[0]);
    assert(states_after(s, t) == states_after(s1, t.drop_first()));
    if j == 1 {
        assert(t.drop_first().len() == 0);
    } else {
        let rest = inputs.drop_first();
        assert forall|i: int| 0 <= i < rest.len() implies !(#[trigger] rest[i]).1 by {
            assert(rest[i] == inputs[i + 1]);
        }
        assert(t.drop_first() =~= rest.take(j - 1));
        lemma_no_flip_during_holdoff(s1, rest, j - 1);
    }
}

/// The game: the board being played, the playfield that shows it, the play
/// state and the generator for new boards.
pub struct Player<const NR: usize, const NC: usize, D> {
    playfield: Playfield<NR, NC, D>,
    current: [[u8; NC]; NR],
    state: State,
    rng: Pcg64,
    /// The bits drawn from the generator for the latest random board, one
    /// per cell.
    drawn: Ghost<[[bool; NC]; NR]>,
}

impl<const NR: usize, const NC: usize, D: RowWriter> Player<NR, NC, D> {
    /// The board being played.
    pub closed spec fn board(&self) -> [[u8; NC]; NR] {
        self.current
    }

    /// The play state.
    pub closed spec fn game_state(&self) -> State {
        self.state
    }

    /// The playfield that shows the board.
    pub closed spec fn field(&self) -> Playfield<NR, NC, D> {
        self.playfield
    }

    /// The frame that the playfield shows.
    pub open spec fn shown(&self) -> [[u8; NC]; NR] {
        self.field().shown()
    }

    /// The generator that seeds new boards.
    pub closed spec fn generator(&self) -> Pcg64 {
        self.rng
    }

    /// The bits that the generator returned for the latest random board, one
    /// per cell, in row-major order of drawing.
    pub closed spec fn drawn(&self) -> [[bool; NC]; NR] {
        self.drawn@
    }

    /// The board holds only 0s and 1s.
    pub open spec fn wf(&self) -> bool {
        is_binary(self.board())
    }

    /// A player about to start a new board, with an empty board so far.
    pub fn new(playfield: Playfield<NR, NC, D>, rng: Pcg64) -> (p: Self)
        ensures
            p.wf(),
            p.game_state() == State::Initing,
            is_empty(p.board()),
            p.field() == playfield,
            p.generator() == rng,
    {
        let state = State::Initing;
        Self {
            playfield,
            current: [[0u8; NC]; NR],
            state,
            rng,
            drawn: Ghost(vstd::pervasive::arbitrary()),
        }
    }

    /// One tick of the game with the buttons in the given positions: the
    /// decisions of a frame, before the playfield is drawn.
    pub fn advance(&mut self, button_a: bool, button_b: bool)
        requires
            old(self).wf(),
        ensures
            final(self).wf(),
            old(self).shown() == old(self).board() || old(self).game_state() is Initing
                ==> final(self).shown() == final(self).board(),
            final(self).field().screen() == old(self).field().screen(),
            final(self).field().rows_sent() == old(self).field().rows_sent(),
            !(board_change(
                old(self).game_state(),
                is_empty(old(self).board()),
                button_a,
                button_b,
            ) is Randomize) ==> final(self).generator() == old(self).generator(),
            final(self).game_state() == next_state(
                old(self).game_state(),
                is_empty(old(self).board()),
                button_a,
                button_b,
            ),
            ({
                let change = board_change(
                    old(self).game_state(),
                    is_empty(old(self).board()),
                    button_a,
                    button_b,
                );
                match change {
                    BoardChange::Randomize => final(self).shown() == final(self).board()
                        && is_board_of(final(self).drawn(), final(self).board()),
                    BoardChange::Step => is_next_generation(old(self).board(), final(self).board())
                        && final(self).shown() == final(self).board(),
                    BoardChange::Flip => is_complement(old(self).board(), final(self).board())
                        && final(self).shown() == final(self).board(),
                    BoardChange::Keep => final(self).board() == old(self).board()
                        && final(self).shown() == old(self).shown(),
                }
            }),
    {
        let next = match self.state {
            State::Initing => {
                self.randomize();
                State::Running { last_flip: Counter(0) }
            },
            State::Running { last_flip } => {
                if self.done() {
                    State::Paused { remaining: Counter(PAUSE_FRAMES) }
                } else if button_a {
                    State::Initing
                } else if button_b && last_flip.is_zero() {
                    State::Flipping
                } else {
                    life(&mut self.current);
                    self.playfield.update(&self.current);
                    State::Running { last_flip: last_flip.decr() }
                }
            },
            State::Paused { remaining } => {
                if !remaining.is_zero() {
                    State::Paused { remaining: remaining.decr() }
                } else {
                    State::Initing
                }
            },
            State::Flipping => {
                self.flip();
                State::Running { last_flip: Counter(FLIP_HOLDOFF) }
            },
        };
        self.state = next;
    }

    /// Draw the board's frame on the display.
    pub fn draw(&mut self)
        requires
            fits_display(NR as int),
            fits_display(NC as int),
        ensures
            final(self).wf() == old(self).wf(),
            final(self).board() == old(self).board(),
            final(self).game_state() == old(self).game_state(),
            final(self).shown() == old(self).shown(),
            final(self).field().screen().frames_begun() == old(self).field().screen().frames_begun()
                + 1,
            final(self).field().rows_sent().len() == 240,
            forall|py: int|
                0 <= py < 240 ==> is_rendered_row(
                    #[trigger] final(self).field().rows_sent()[py],
                    final(self).shown(),
                    py,
                    alive_pair(),
                    dead_pair(),
                ),
    {
        self.playfield.draw();
    }

    /// The play state.
    pub fn state(&self) -> (s: State)
        ensures
            s == self.game_state(),
    {
        self.state
    }

    /// True while the game is stepping generations.
    pub fn is_running(&self) -> (r: bool)
        ensures
            r == (self.game_state() is Running),
    {
        match self.state {
            State::Running { .. } => true,
            _ => false,
        }
    }

    /// The board being played.
    pub fn current(&self) -> (g: [[u8; NC]; NR])
        ensures
            g == self.board(),
    {
        self.current
    }

    /// The playfield that shows the board.
    pub fn playfield(&self) -> (pf: &Playfield<NR, NC, D>)
        ensures
            *pf == self.field(),
    {
        &self.playfield
    }

    /// Return `true` iff the grid contains no live cells.
    fn done(&self) -> (d: bool)
        ensures
            d == is_empty(self.current),
    {
        let mut r: usize = 0;
        while r < NR
            invariant
                0 <= r <= NR,
                forall|i: int, j: int| 0 <= i < r && 0 <= j < NC ==> #[trigger] self.current[i][j] == 0,
            decreases NR - r,
        {
            let line = self.current[r];
            let mut c: usize = 0;
            while c < NC
                invariant
                    0 <= r < NR,
                    0 <= c <= NC,
                    line == self.current[r as int],
                    forall|j: int| 0 <= j < c ==> #[trigger] line[j] == 0,
                decreases NC - c,
            {
                if line[c] != 0 {
                    assert(self.current[r as int][c as int] != 0);
                    return false;
                }
                c = c + 1;
            }
            r = r + 1;
        }
        true
    }

    /// Complement each cell in current and update playfield.
    fn flip(&mut self)
        ensures
            is_complement(old(self).current, final(self).current),
            final(self).rng == old(self).rng,
            final(self).playfield.shown() == final(self).current,
            final(self).playfield.screen() == old(self).playfield.screen(),
            final(self).playfield.rows_sent() == old(self).playfield.rows_sent(),
            final(self).state == old(self).state,
    {
        let ghost prev = self.current;
        let mut r: usize = 0;
        while r < NR
            invariant
                0 <= r <= NR,
                self.state == old(self).state,
                self.playfield == old(self).playfield,
                self.rng == old(self).rng,
                prev == old(self).current,
                forall|i: int, j: int|
                    0 <= i < r && 0 <= j < NC ==> #[trigger] self.current[i][j] == (if prev[i][j]
                        == 0 {
                        1u8
                    } else {
                        0u8
                    }),
                forall|i: int, j: int|
                    r <= i < NR && 0 <= j < NC ==> #[trigger] self.current[i][j] == prev[i][j],
            decreases NR - r,
        {
            let mut line = self.current[r];
            let mut c: usize = 0;
            while c < NC
                invariant
                    0 <= r < NR,
                    0 <= c <= NC,
                    forall|j: int|
                        0 <= j < c ==> #[trigger] line[j] == (if prev[r as int][j] == 0 {
                            1u8
                        } else {
                            0u8
                        }),
                    forall|j: int| c <= j < NC ==> #[trigger] line[j] == prev[r as int][j],
                decreases NC - c,
            {
                line[c] = if line[c] == 0 { 1 } else { 0 };
                c = c + 1;
            }
            self.current[r] = line;
            r = r + 1;
        }
        self.playfield.update(&self.current);
    }

    /// Randomize each cell in current and update playfield: draw one bit
    /// per cell, row by row, and build the board from the draws.
    fn randomize(&mut self)
        ensures
            is_binary(final(self).current),
            is_board_of(final(self).drawn@, final(self).current),
            final(self).playfield.shown() == final(self).current,
            final(self).playfield.screen() == old(self).playfield.screen(),
            final(self).playfield.rows_sent() == old(self).playfield.rows_sent(),
            final(self).state == old(self).state,
    {
        let mut draws = [[false; NC]; NR];
        let mut r: usize = 0;
        while r < NR
            invariant
                0 <= r <= NR,
                self.state == old(self).state,
                self.playfield == old(self).playfield,
            decreases NR - r,
        {
            let mut line = draws[r];
            let mut c: usize = 0;
            while c < NC
                invariant
                    0 <= r < NR,
                    0 <= c <= NC,
                    self.state == old(self).state,
                    self.playfield == old(self).playfield,
                decreases NC - c,
            {
                line[c] = pcg64_bool(&mut self.rng);
                c = c + 1;
            }
            draws[r] = line;
            r = r + 1;
        }
        self.current = board_from_draws(&draws);
        self.drawn = Ghost(draws);
        self.playfield.update(&self.current);
    }
}

/// The board whose cell (`r`, `c`) is 1 where `draws[r][c]` is true and 0
/// where it is false.
pub open spec fn is_board_of<const NR: usize, const NC: usize>(
    draws: [[bool; NC]; NR],
    g: [[u8; NC]; NR],
) -> bool {
    forall|r: int, c: int|
        0 <= r < NR && 0 <= c < NC ==> #[trigger] g[r][c] == (if draws[r][c] {
            1u8
        } else {
            0u8
        })
}

/// Build a board from one drawn bit per cell: a live cell where the bit is
/// true, a dead one where it is false.
pub fn board_from_draws<const NR: usize, const NC: usize>(draws: &[[bool; NC]; NR]) -> (g: [[u8; NC]; NR])
    ensures
        is_board_of(*draws, g),
        is_binary(g),
{
    let mut g = [[0u8; NC]; NR];
    let mut r: usize = 0;
    while r < NR
        invariant
            0 <= r <= NR,
            forall|i: int, j: int|
                0 <= i < r && 0 <= j < NC ==> #[trigger] g[i][j] == (if draws[i][j] {
                    1u8
                } else {
                    0u8
                }),
        decreases NR - r,
    {
        let bits = draws[r];
        let mut line = [0u8; NC];
        let mut c: usize = 0;
        while c < NC
            invariant
                0 <= r < NR,
                0 <= c <= NC,
                bits == draws[r as int],
                forall|j: int| 0 <= j < c ==> #[trigger] line[j] == (if bits[j] { 1u8 } else { 0u8 }),
            decreases NC - c,
        {
            line[c] = if bits[c] { 1 } else { 0 };
            c = c + 1;
        }
        g[r] = line;
        r = r + 1;
    }
    g
}

} // verus!
