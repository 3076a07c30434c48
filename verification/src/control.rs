//! What a player's key, the passing of time, or an automatic move does to a game. The
//! program around the library reads the keys, keeps the time and draws; these functions
//! decide.

use vstd::prelude::*;

use crate::ai::{lemma_full_line_count_bound, best_of, erase_line_count, eval, full_line_count, search_bounds, search_defined, search_is_defined};
use crate::ga::LINE_COUNT_MAX;
use crate::random::random_below;
use crate::game::{
    addressable, can_land, drop_row, fits, fits_at, free_at, hard_drop, held, hold, can_turn, turn_addressable, turn_left_shape, turn_right_shape,
    fix_block, landed, landing, lands, stamped, move_block, rotate_left, rotate_right, same_pieces, turn,
    turned_left, turned_right, Game, Position,
};

verus! {

/// A command: a player's key, or an automatic move.
#[derive(Clone, Copy)]
pub enum Input {
    Hold,
    HardDrop,
    Left,
    Right,
    Down,
    RotateLeft,
    RotateRight,
    /// A move by this many columns (see `shift`).
    Shift(isize),
}

/// What became of the game.
pub enum Outcome {
    /// The game goes on; no piece landed.
    Continue,
    /// The piece landed, the field then had this many full lines (rows 1 to 19), and the
    /// next piece fitted.
    Landed(usize),
    /// The piece landed and the next piece did not fit: the game is over.
    GameOver,
    /// The move cannot be carried out: a position it needs is out of reach, a piece
    /// dropped there would fall forever or land off the field, or no piece is left to deal.
    /// That command is not carried out: the game is left as the command found it.
    Fault,
}

/// One column left, but not left of column 0.
pub open spec fn left_of(pos: Position) -> Position {
    Position { x: if pos.x >= 1 { (pos.x - 1) as usize } else { pos.x }, y: pos.y }
}

/// One column right.
pub open spec fn right_of(pos: Position) -> Position {
    Position { x: (pos.x + 1) as usize, y: pos.y }
}

/// One row down.
pub open spec fn below(pos: Position) -> Position {
    Position { x: pos.x, y: (pos.y + 1) as usize }
}

/// `after` is `before` with the piece moved to `target` if it fits there.
pub open spec fn moved(before: &Game, after: &Game, target: Position) -> bool {
    &&& after.pos == (if free_at(before.grid(), target, before.block) { target } else { before.pos })
    &&& after.field == before.field
    &&& after.block == before.block
    &&& same_pieces(after, before)
}

/// `after` is `before`.
pub open spec fn unchanged(before: &Game, after: &Game) -> bool {
    &&& after.field == before.field
    &&& after.pos == before.pos
    &&& after.block == before.block
    &&& same_pieces(after, before)
}

/// `after` is `before` with the piece turned into `turned` where it fits (see `turn`).
pub open spec fn turned(before: &Game, after: &Game, turned: crate::block::BlockShape) -> bool {
    &&& (after.pos, after.block) == turn(before.grid(), before.pos, before.block, turned)
    &&& after.field == before.field
    &&& same_pieces(after, before)
}

/// The piece of `game` can be dropped and landed: the drop ends, the piece then lies on
/// the field, and a piece is left to deal.
pub open spec fn droppable(game: &Game) -> bool {
    &&& addressable(game.pos)
    &&& can_land(game.grid(), game.pos.x as int, game.pos.y as int, game.block)
    &&& fits(game.pos.x as int, drop_row(game.grid(), game.pos.x as int, game.pos.y as int, game.block), game.block)
    &&& game.next@.len() > 0
}

/// Where the piece of `game` comes to rest when dropped.
pub open spec fn drop_position(game: &Game) -> Position {
    Position { x: game.pos.x, y: drop_row(game.grid(), game.pos.x as int, game.pos.y as int, game.block) as usize }
}

/// `r` reports the landing of the piece of `before` at `at`, which leads to `after`.
pub open spec fn landing_outcome(before: &Game, after: &Game, at: Position, r: Outcome) -> bool {
    &&& r is Landed || r is GameOver
    &&& landed(before, after, at, r is Landed)
    &&& r matches Outcome::Landed(n) ==> n == full_line_count(stamped(before.grid(), at.x as int, at.y as int, before.block))
}

/// Lands the piece where it stands and reports it; the piece must lie on the field and a
/// piece must be left to deal.
fn land(game: &mut Game) -> (r: Outcome)
    requires
        fits(old(game).pos.x as int, old(game).pos.y as int, old(game).block),
        old(game).next@.len() > 0,
    ensures
        landing_outcome(old(game), final(game), old(game).pos, r),
{
    let mut probe = game.clone();
    fix_block(&mut probe);
    let lines = erase_line_count(&probe.field);
    match landing(game) {
        Ok(()) => Outcome::Landed(lines),
        Err(()) => Outcome::GameOver,
    }
}

/// Whether the piece can be dropped and landed (see `droppable`).
fn can_drop(game: &Game) -> (r: bool)
    ensures
        r == droppable(game),
{
    if game.next.len() == 0 || game.pos.x > usize::MAX - 3 || game.pos.y > usize::MAX - 3 {
        return false;
    }
    if !lands(&game.field, &game.pos, &game.block) {
        return false;
    }
    let rest = crate::game::ghost_pos(&game.field, &game.pos, &game.block);
    fits_at(&rest, &game.block)
}

/// Drops the piece and lands it (see `landed`).
pub fn drop_and_land(game: &mut Game) -> (r: Outcome)
    ensures
        droppable(old(game)) ==> landing_outcome(old(game), final(game), drop_position(old(game)), r),
        !droppable(old(game)) ==> r is Fault && unchanged(old(game), final(game)),
{
    if !can_drop(game) {
        return Outcome::Fault;
    }
    let ghost start = *game;
    hard_drop(game);
    proof {
        assert(game.pos == drop_position(&start));
    }
    land(game)
}

/// `after` and `r` are what carrying out `input` on `before` gives.
pub open spec fn applied(before: &Game, after: &Game, input: Input, r: Outcome) -> bool {
    match input {
        Input::Left => if addressable(left_of(before.pos)) {
            r is Continue && moved(before, after, left_of(before.pos))
        } else {
            r is Fault && unchanged(before, after)
        },
        Input::Right => if before.pos.x + 4 <= usize::MAX && before.pos.y + 3 <= usize::MAX {
            r is Continue && moved(before, after, right_of(before.pos))
        } else {
            r is Fault && unchanged(before, after)
        },
        Input::Down => if before.pos.x + 3 <= usize::MAX && before.pos.y + 4 <= usize::MAX {
            r is Continue && moved(before, after, below(before.pos))
        } else {
            r is Fault && unchanged(before, after)
        },
        Input::RotateLeft => if turn_addressable(before.grid(), before.pos, turned_left(before.block)) {
            r is Continue && turned(before, after, turned_left(before.block))
        } else {
            r is Fault && unchanged(before, after)
        },
        Input::RotateRight => if turn_addressable(before.grid(), before.pos, turned_right(before.block)) {
            r is Continue && turned(before, after, turned_right(before.block))
        } else {
            r is Fault && unchanged(before, after)
        },
        Input::Hold => if before.holded || before.hold is Some || before.next@.len() > 0 {
            r is Continue && held(before, after)
        } else {
            r is Fault && unchanged(before, after)
        },
        Input::Shift(dx) => if shift_ok(before.pos, dx as int) {
            r is Continue && moved(before, after, shift_target(before.pos, dx as int))
        } else {
            r is Fault && unchanged(before, after)
        },
        Input::HardDrop => if droppable(before) {
            landing_outcome(before, after, drop_position(before), r)
        } else {
            r is Fault && unchanged(before, after)
        },
    }
}

/// Carries out a player's command (see `applied`).
pub fn apply(game: &mut Game, input: Input) -> (r: Outcome)
    ensures
        applied(old(game), final(game), input, r),
{
    match input {
        Input::Left => {
            let new_pos = Position { x: if game.pos.x >= 1 { game.pos.x - 1 } else { game.pos.x }, y: game.pos.y };
            if new_pos.x > usize::MAX - 3 || new_pos.y > usize::MAX - 3 {
                return Outcome::Fault;
            }
            move_block(game, new_pos);
            Outcome::Continue
        },
        Input::Right => {
            if game.pos.x > usize::MAX - 4 || game.pos.y > usize::MAX - 3 {
                return Outcome::Fault;
            }
            let new_pos = Position { x: game.pos.x + 1, y: game.pos.y };
            move_block(game, new_pos);
            Outcome::Continue
        },
        Input::Down => {
            if game.pos.x > usize::MAX - 3 || game.pos.y > usize::MAX - 4 {
                return Outcome::Fault;
            }
            let new_pos = Position { x: game.pos.x, y: game.pos.y + 1 };
            move_block(game, new_pos);
            Outcome::Continue
        },
        Input::RotateLeft => {
            let turned = turn_left_shape(&game.block);
            if !can_turn(&game.field, &game.pos, &turned) {
                return Outcome::Fault;
            }
            rotate_left(game);
            Outcome::Continue
        },
        Input::RotateRight => {
            let turned = turn_right_shape(&game.block);
            if !can_turn(&game.field, &game.pos, &turned) {
                return Outcome::Fault;
            }
            rotate_right(game);
            Outcome::Continue
        },
        Input::Hold => {
            if !game.holded && game.hold.is_none() && game.next.len() == 0 {
                return Outcome::Fault;
            }
            hold(game);
            Outcome::Continue
        },
        Input::Shift(dx) => shift(game, dx),
        Input::HardDrop => drop_and_land(game),
    }
}

/// The passing of time: the piece moves one row down if it fits there; otherwise it lands
/// where it stands.
pub fn fall(game: &mut Game) -> (r: Outcome)
    ensures
        old(game).pos.x + 3 <= usize::MAX && old(game).pos.y + 4 <= usize::MAX
            && free_at(old(game).grid(), below(old(game).pos), old(game).block) ==> {
            &&& r is Continue
            &&& final(game).pos == below(old(game).pos)
            &&& final(game).field == old(game).field
            &&& final(game).block == old(game).block
            &&& same_pieces(final(game), old(game))
        },
        old(game).pos.x + 3 <= usize::MAX && old(game).pos.y + 4 <= usize::MAX
            && !free_at(old(game).grid(), below(old(game).pos), old(game).block) ==> if fits(
            old(game).pos.x as int,
            old(game).pos.y as int,
            old(game).block,
        ) && old(game).next@.len() > 0 {
            landing_outcome(old(game), final(game), old(game).pos, r)
        } else {
            r is Fault && unchanged(old(game), final(game))
        },
        !(old(game).pos.x + 3 <= usize::MAX && old(game).pos.y + 4 <= usize::MAX) ==> r is Fault
            && unchanged(old(game), final(game)),
{
    if game.pos.x > usize::MAX - 3 || game.pos.y > usize::MAX - 4 {
        return Outcome::Fault;
    }
    let new_pos = Position { x: game.pos.x, y: game.pos.y + 1 };
    if !crate::game::is_collision(&game.field, &new_pos, &game.block) {
        game.pos = new_pos;
        return Outcome::Continue;
    }
    if game.next.len() == 0 || !fits_at(&game.pos, &game.block) {
        return Outcome::Fault;
    }
    land(game)
}

/// A move by `dx` columns from `pos` stays within reach: the column reached is neither left
/// of 0 nor beyond the reach of `isize`, and the piece can be addressed there.
pub open spec fn shift_ok(pos: Position, dx: int) -> bool {
    &&& pos.x <= isize::MAX
    &&& 0 <= pos.x + dx <= isize::MAX
    &&& pos.x + dx + 3 <= usize::MAX
    &&& pos.y + 3 <= usize::MAX
}

/// `pos` moved by `dx` columns.
pub open spec fn shift_target(pos: Position, dx: int) -> Position {
    Position { x: (pos.x + dx) as usize, y: pos.y }
}

/// An automatic move to column `x + dx`, taken only if the piece fits there; a move out of
/// reach (see `shift_ok`) is a fault.
pub fn shift(game: &mut Game, dx: isize) -> (r: Outcome)
    ensures
        shift_ok(old(game).pos, dx as int) ==> r is Continue && moved(old(game), final(game), shift_target(old(game).pos, dx as int)),
        !shift_ok(old(game).pos, dx as int) ==> r is Fault && unchanged(old(game), final(game)),
{
    let x_limit: usize = isize::MAX as usize;
    if game.pos.x > x_limit || game.pos.y > usize::MAX - 3 {
        return Outcome::Fault;
    }
    let x = game.pos.x as isize;
    if dx < 0 && x + dx < 0 || dx > 0 && x > isize::MAX - dx {
        return Outcome::Fault;
    }
    let target: usize = if dx < 0 { (x + dx) as usize } else { game.pos.x + dx as usize };
    if target > usize::MAX - 3 {
        return Outcome::Fault;
    }
    let new_pos = Position { x: target, y: game.pos.y };
    move_block(game, new_pos);
    Outcome::Continue
}

/// One second less a tenth for every ten cleared lines, but never less than a tenth.
pub open spec fn fall_delay(lines: int) -> int {
    if (lines / 10) * 100 >= 1000 {
        100
    } else {
        1000 - (lines / 10) * 100
    }
}

/// The more lines are cleared, the faster the piece falls, between one second and a tenth
/// of a second.
pub proof fn lemma_fall_speeds_up(a: int, b: int)
    requires
        0 <= a <= b,
    ensures
        100 <= fall_delay(b) <= fall_delay(a) <= 1000,
{
    assert(a / 10 <= b / 10) by (nonlinear_arith)
        requires 0 <= a <= b;
    assert((a / 10) * 100 <= (b / 10) * 100) by (nonlinear_arith)
        requires a / 10 <= b / 10;
    assert(0 <= (a / 10) * 100) by (nonlinear_arith)
        requires 0 <= a;
}

/// How long, in milliseconds, the piece waits before it falls one row, once `lines` lines
/// have been cleared: one second, less a tenth for every ten lines, and never less than a
/// tenth.
pub fn fall_interval(lines: u64) -> (ms: u64)
    requires
        (lines / 10) * 100 <= u64::MAX,
    ensures
        ms == fall_delay(lines as int),
{
    match 1000u64.saturating_sub((lines / 10) * 100) {
        0 => 100,
        msec => msec,
    }
}

/// Step `i` of a run of `inputs` through the states `states` with answers `outs`: while
/// every earlier command answered `Continue`, command `i` is carried out; after that, the
/// state stays and the last answer is repeated.
pub open spec fn run_step(states: Seq<Game>, outs: Seq<Outcome>, inputs: Seq<Input>, i: int) -> bool {
    if i == 0 || outs[i - 1] is Continue {
        applied(&states[i], &states[i + 1], inputs[i], outs[i])
    } else {
        outs[i] == outs[i - 1] && unchanged(&states[i], &states[i + 1])
    }
}

/// `states` and `outs` record carrying out `inputs` in order from `before` to `after`,
/// stopping at the first command that does not answer `Continue`, whose answer is `r`.
pub open spec fn runs(before: &Game, after: &Game, inputs: Seq<Input>, r: Outcome, states: Seq<Game>, outs: Seq<Outcome>) -> bool {
    &&& states.len() == inputs.len() + 1
    &&& outs.len() == inputs.len()
    &&& states[0] == *before
    &&& states.last() == *after
    &&& forall|i: int| 0 <= i < inputs.len() ==> #[trigger] run_step(states, outs, inputs, i)
    &&& r == (if inputs.len() == 0 { Outcome::Continue } else { outs.last() })
}

/// `after` and `r` are what carrying out `inputs` in order on `before` gives: each command
/// is carried out while the ones before it answered `Continue`; after the first that
/// answers otherwise, the rest are skipped and its answer is the result.
pub open spec fn applied_all(before: &Game, after: &Game, inputs: Seq<Input>, r: Outcome) -> bool {
    exists|states: Seq<Game>, outs: Seq<Outcome>| #[trigger] runs(before, after, inputs, r, states, outs)
}

/// Carries out `inputs` in order, stopping at the first that does not answer `Continue`
/// (see `applied_all`).
pub fn apply_all(game: &mut Game, inputs: &Vec<Input>) -> (r: Outcome)
    ensures
        applied_all(old(game), final(game), inputs@, r),
{
    let ghost start: Game = *game;
    let ghost mut states: Seq<Game> = seq![start];
    let ghost mut outs: Seq<Outcome> = Seq::empty();
    let mut i: usize = 0;
    while i < inputs.len()
        invariant
            i <= inputs@.len(),
            start == *old(game),
            runs(&start, game, inputs@.take(i as int), Outcome::Continue, states, outs),
            forall|j: int| 0 <= j < outs.len() ==> #[trigger] outs[j] is Continue,
        decreases inputs@.len() - i,
    {
        let ghost before: Game = *game;
        let r = apply(game, inputs[i]);
        let ghost old_states = states;
        let ghost old_outs = outs;
        proof {
            states = states.push(*game);
            outs = outs.push(r);
            let s = inputs@.take(i + 1);
            assert forall|j: int| 0 <= j < s.len() implies #[trigger] run_step(states, outs, s, j) by {
                if j < i {
                    assert(run_step(old_states, old_outs, inputs@.take(i as int), j));
                    assert(s[j] == inputs@.take(i as int)[j]);
                } else {
                    assert(s[j] == inputs@[i as int]);
                    assert(states[j] == before);
                }
            }
            assert(runs(&start, game, s, r, states, outs));
        }
        if !matches!(r, Outcome::Continue) {
            proof {
                let n = inputs@.len();
                let rest = (n - i - 1) as nat;
                let fs = states + Seq::new(rest, |k: int| *game);
                let fo = outs + Seq::new(rest, |k: int| r);
                assert forall|j: int| 0 <= j < n implies #[trigger] run_step(fs, fo, inputs@, j) by {
                    if j <= i {
                        assert(run_step(states, outs, inputs@.take(i + 1), j));
                        assert(inputs@.take(i + 1)[j] == inputs@[j]);
                    } else {
                        assert(fo[j - 1] == r);
                        assert(fo[j] == r);
                        assert(fs[j] == *game);
                        assert(fs[j + 1] == *game);
                    }
                }
                assert(runs(&start, game, inputs@, r, fs, fo));
            }
            return r;
        }
        proof {
            assert forall|j: int| 0 <= j < outs.len() implies #[trigger] outs[j] is Continue by {
                if j < i {
                    assert(outs[j] == old_outs[j]);
                }
            }
        }
        i += 1;
    }
    proof {
        assert(inputs@.take(inputs@.len() as int) =~= inputs@);
        if inputs@.len() > 0 {
            assert(outs[outs.len() - 1] is Continue);
        }
    }
    Outcome::Continue
}

/// The commands of one automatic move: put the piece aside when `h` is 0, turn it clockwise
/// `k` times, move it by `dx` columns, drop it.
pub open spec fn auto_inputs(h: int, k: int, dx: int) -> Seq<Input> {
    (if h == 0 { seq![Input::Hold] } else { Seq::empty() })
        + Seq::new(k as nat, |i: int| Input::RotateRight)
        + seq![Input::Shift(dx as isize), Input::HardDrop]
}

/// One automatic move with the given choices (see `auto_inputs`).
pub fn auto_move(game: &mut Game, h: usize, k: usize, dx: isize) -> (r: Outcome)
    requires
        h < 5,
        k <= 3,
        -4 <= dx <= 5,
    ensures
        applied_all(old(game), final(game), auto_inputs(h as int, k as int, dx as int), r),
{
    let mut inputs: Vec<Input> = Vec::new();
    if h == 0 {
        inputs.push(Input::Hold);
    }
    let mut i: usize = 0;
    while i < k
        invariant
            i <= k,
            inputs@ == (if h == 0 { seq![Input::Hold] } else { Seq::empty() })
                + Seq::new(i as nat, |j: int| Input::RotateRight),
        decreases k - i,
    {
        inputs.push(Input::RotateRight);
        i += 1;
        assert(inputs@ =~= (if h == 0 { seq![Input::Hold] } else { Seq::empty() })
            + Seq::new(i as nat, |j: int| Input::RotateRight));
    }
    inputs.push(Input::Shift(dx));
    inputs.push(Input::HardDrop);
    assert(inputs@ =~= auto_inputs(h as int, k as int, dx as int));
    apply_all(game, &inputs)
}

/// One automatic move with random choices: put aside one time in five, zero to three
/// turns, a move by -4 to +5 columns, then a drop.
pub fn auto_step(game: &mut Game) -> (r: Outcome)
    ensures
        exists|h: int, k: int, dx: int| 0 <= h < 5 && 0 <= k <= 3 && -4 <= dx <= 5
            && #[trigger] applied_all(old(game), final(game), auto_inputs(h, k, dx), r),
{
    let h = random_below(5);
    let k = random_below(4);
    let d = random_below(10);
    let dx = d as isize - 4;
    let r = auto_move(game, h, k, dx);
    assert(applied_all(old(game), game, auto_inputs(h as int, k as int, dx as int), r));
    r
}

/// `after` and `r` are what one step of the tuning game gives on `before`: the search, then
/// the landing of the kept placement.
pub open spec fn learned(before: &Game, after: &Game, r: Outcome) -> bool {
    let e = best_of(before, 40);
    if search_bounds(before) && search_defined(before) && addressable(e.pos)
        && fits(e.pos.x as int, e.pos.y as int, e.block) && before.next@.len() > 0 {
        &&& r is Landed || r is GameOver
        &&& exists|mid: Game| {
            &&& mid.grid() == e.field
            &&& mid.pos == e.pos
            &&& mid.block == e.block
            &&& same_pieces(&mid, before)
            &&& #[trigger] landed(&mid, after, e.pos, r is Landed)
        }
        &&& r matches Outcome::Landed(n) ==> n == full_line_count(e.field)
    } else {
        r is Fault && unchanged(before, after)
    }
}

/// One step of the tuning game: search for the best placement (see `eval`), count the full
/// lines it makes, and land the piece there.
pub fn learning_step(game: &mut Game) -> (r: Outcome)
    ensures
        learned(old(game), final(game), r),
{
    let x_limit: usize = (isize::MAX - 16) as usize;
    if game.pos.x > x_limit || game.pos.y > usize::MAX - 16 {
        return Outcome::Fault;
    }
    if !search_is_defined(game) {
        return Outcome::Fault;
    }
    let elite = eval(game);
    if elite.pos.x > usize::MAX - 3 || elite.pos.y > usize::MAX - 3 || !fits_at(&elite.pos, &elite.block)
        || elite.next.len() == 0 {
        return Outcome::Fault;
    }
    let lines = erase_line_count(&elite.field);
    let ghost mid: Game = elite;
    *game = elite;
    let r = match landing(game) {
        Ok(()) => Outcome::Landed(lines),
        Err(()) => Outcome::GameOver,
    };
    assert(landed(&mid, game, mid.pos, r is Landed));
    r
}

/// The lines reported by the landings among `outs`.
pub open spec fn landed_lines(outs: Seq<Outcome>) -> int
    decreases outs.len(),
{
    if outs.len() == 0 {
        0
    } else {
        landed_lines(outs.drop_last()) + match outs.last() {
            Outcome::Landed(n) => n as int,
            _ => 0,
        }
    }
}

/// `states` and `outs` record a tuning game from `before` to `after`: tuning steps (see
/// `learned`) follow one another while each landed and fewer than `LINE_COUNT_MAX` lines
/// were reported, and at most `max_steps` of them; the game stops when the lines are
/// reached, a step did not land, or the steps run out. `result` is the lines reported, or
/// `None` when the last step was a fault.
pub open spec fn genome_run(
    before: &Game,
    after: &Game,
    max_steps: nat,
    result: Option<usize>,
    states: Seq<Game>,
    outs: Seq<Outcome>,
) -> bool {
    let n = outs.len();
    &&& states.len() == n + 1
    &&& states[0] == *before
    &&& states.last() == *after
    &&& n <= max_steps
    &&& forall|i: int| 0 <= i < n ==> #[trigger] learned(&states[i], &states[i + 1], outs[i])
    &&& forall|i: int| 0 <= i < n ==> #[trigger] landed_lines(outs.take(i)) < LINE_COUNT_MAX
    &&& forall|i: int| 0 <= i < n - 1 ==> #[trigger] outs[i] is Landed
    &&& n == max_steps || landed_lines(outs) >= LINE_COUNT_MAX || (n > 0 && !(outs[n - 1] is Landed))
    &&& result == (if n > 0 && outs[n - 1] is Fault { None } else { Some(landed_lines(outs) as usize) })
}

/// `after` and `result` are what a tuning game of at most `max_steps` steps gives on
/// `before` (see `genome_run`).
pub open spec fn played(before: &Game, after: &Game, max_steps: nat, result: Option<usize>) -> bool {
    exists|states: Seq<Game>, outs: Seq<Outcome>| #[trigger] genome_run(before, after, max_steps, result, states, outs)
}

/// Plays a tuning game: tuning steps until `LINE_COUNT_MAX` lines are reported, a new
/// piece does not fit, or `max_steps` steps were taken. Returns the lines reported, or
/// `None` when a step could not be carried out (see `played`).
pub fn play_genome(game: &mut Game, max_steps: usize) -> (result: Option<usize>)
    ensures
        played(old(game), final(game), max_steps as nat, result),
{
    let ghost start: Game = *game;
    let ghost mut states: Seq<Game> = seq![start];
    let ghost mut outs: Seq<Outcome> = Seq::empty();
    let mut lines: usize = 0;
    let mut steps: usize = 0;
    while lines < LINE_COUNT_MAX && steps < max_steps
        invariant
            start == *old(game),
            steps == outs.len(),
            steps <= max_steps,
            lines == landed_lines(outs),
            states.len() == outs.len() + 1,
            states[0] == start,
            states.last() == *game,
            forall|i: int| 0 <= i < outs.len() ==> #[trigger] learned(&states[i], &states[i + 1], outs[i]),
            forall|i: int| 0 <= i < outs.len() ==> #[trigger] landed_lines(outs.take(i)) < LINE_COUNT_MAX,
            forall|i: int| 0 <= i < outs.len() ==> #[trigger] outs[i] is Landed,
        decreases max_steps - steps,
    {
        let ghost before: Game = *game;
        let r = learning_step(game);
        let ghost old_states = states;
        let ghost old_outs = outs;
        proof {
            states = states.push(*game);
            outs = outs.push(r);
            assert(outs.drop_last() =~= old_outs);
            assert(outs.take(old_outs.len() as int) =~= old_outs);
            assert forall|i: int| 0 <= i < outs.len() implies #[trigger] learned(&states[i], &states[i + 1], outs[i]) by {
                if i < old_outs.len() {
                    assert(learned(&old_states[i], &old_states[i + 1], old_outs[i]));
                }
            }
            assert forall|i: int| 0 <= i < outs.len() implies #[trigger] landed_lines(outs.take(i)) < LINE_COUNT_MAX by {
                if i < old_outs.len() {
                    assert(outs.take(i) =~= old_outs.take(i));
                }
            }
            lemma_full_line_count_bound(best_of(&before, 40).field);
        }
        match r {
            Outcome::Landed(n) => {
                lines = lines + n;
            },
            Outcome::GameOver => {
                proof {
                    assert(genome_run(&start, game, max_steps as nat, Some(lines), states, outs));
                }
                return Some(lines);
            },
            Outcome::Fault => {
                proof {
                    assert(genome_run(&start, game, max_steps as nat, None, states, outs));
                }
                return None;
            },
            Outcome::Continue => {
                proof {
                    assert(false);
                }
                return None;
            },
        }
        steps += 1;
    }
    proof {
        assert(genome_run(&start, game, max_steps as nat, Some(lines), states, outs));
    }
    Some(lines)
}

/// The running line total once `outcome` is counted: a landing adds its lines; `None` when
/// the total would overflow.
pub fn count_lines(total: u64, outcome: &Outcome) -> (r: Option<u64>)
    ensures
        match *outcome {
            Outcome::Landed(n) => if total + n <= u64::MAX { r == Some((total + n) as u64) } else { r is None },
            _ => r == Some(total),
        },
{
    match outcome {
        Outcome::Landed(n) => total.checked_add(*n as u64),
        _ => Some(total),
    }
}

/// The line total adds up the lines of the landings and nothing else: it starts at 0, a
/// landing that reports `n` lines adds `n`, and any other answer adds nothing.
pub proof fn lemma_line_total_adds_up(outs: Seq<Outcome>, r: Outcome)
    ensures
        landed_lines(Seq::<Outcome>::empty()) == 0,
        r matches Outcome::Landed(n) ==> landed_lines(outs.push(r)) == landed_lines(outs) + n,
        !(r is Landed) ==> landed_lines(outs.push(r)) == landed_lines(outs),
{
    assert(outs.push(r).drop_last() =~= outs);
}

/// Landings that clear no line add nothing to the total, however many there are.
pub proof fn lemma_no_lines_no_total(outs: Seq<Outcome>)
    requires
        forall|i: int| 0 <= i < outs.len() ==> !(#[trigger] outs[i] matches Outcome::Landed(n) && n > 0),
    ensures
        landed_lines(outs) == 0,
    decreases outs.len(),
{
    if outs.len() > 0 {
        assert forall|i: int| 0 <= i < outs.drop_last().len() implies !(#[trigger] outs.drop_last()[i] matches Outcome::Landed(n) && n > 0) by {
            assert(outs.drop_last()[i] == outs[i]);
        }
        lemma_no_lines_no_total(outs.drop_last());
        assert(!(outs[outs.len() - 1] matches Outcome::Landed(n) && n > 0));
    }
}

/// A tuning game whose landings clear no line reports 0 lines (unless a step could not be
/// carried out), however many pieces landed.
pub proof fn lemma_run_without_lines_reports_zero(
    before: &Game,
    after: &Game,
    max_steps: nat,
    result: Option<usize>,
    states: Seq<Game>,
    outs: Seq<Outcome>,
)
    requires
        genome_run(before, after, max_steps, result, states, outs),
        forall|i: int| 0 <= i < outs.len() ==> !(#[trigger] outs[i] matches Outcome::Landed(n) && n > 0),
    ensures
        result is Some ==> result == Some(0usize),
{
    lemma_no_lines_no_total(outs);
}

} // verus!
