//! A placement search: try every turn and sideways shift of the falling piece, drop it,
//! and keep the placement that clears the most lines with the lowest stack.

use vstd::prelude::*;

use crate::block::BlockShape;
use crate::block_kind::NONE;
use crate::game::{
    addressable, can_land, drop_row, fits, fix_block, free_at, hard_drop, move_block,
    fits_at, lands, rotate_right, same_pieces, stamped, turn, turned_right, Field, Game, Grid, Position,
    FIELD_HEIGHT, FIELD_WIDTH, full_row, cleared, is_grid, lemma_cleared_has_no_full_row, has_gap,
};

verus! {

/// The number of full rows among rows 1 .. `n` - 1 of `g`.
pub open spec fn full_rows_above(g: Grid, n: int) -> nat
    decreases n,
{
    if n <= 1 {
        0
    } else {
        full_rows_above(g, n - 1) + if full_row(g[n - 1]) { 1nat } else { 0nat }
    }
}

/// The number of full rows among rows 1 to 19.
pub open spec fn full_line_count(g: Grid) -> nat {
    full_rows_above(g, FIELD_HEIGHT - 2)
}

/// Some playing cell (columns 2 to 12) of the row is filled.
pub open spec fn occupied_row(row: Seq<usize>) -> bool {
    exists|x: int| 2 <= x < FIELD_WIDTH - 2 && #[trigger] row[x] != NONE
}

/// The first row, from row `y` down to row 19, with a filled playing cell; 20 if none.
pub open spec fn first_occupied_row(g: Grid, y: int) -> int
    decreases FIELD_HEIGHT - 2 - y,
{
    if y < 0 || y >= FIELD_HEIGHT - 2 {
        FIELD_HEIGHT - 2
    } else if occupied_row(g[y]) {
        y
    } else {
        first_occupied_row(g, y + 1)
    }
}

/// The height of the stack: 21 less the first row, from row 1, with a filled playing cell;
/// 0 when rows 1 to 19 hold no filled playing cell.
pub open spec fn stack_height(g: Grid) -> int {
    if first_occupied_row(g, 1) < FIELD_HEIGHT - 2 {
        FIELD_HEIGHT - first_occupied_row(g, 1) - 1
    } else {
        0
    }
}

/// The number of full lines among rows 1 to 19.
pub fn erase_line_count(field: &Field) -> (count: usize)
    ensures
        count == full_line_count(field.deep_view()),
{
    let ghost g = field.deep_view();
    let mut count: usize = 0;
    let mut y: usize = 1;
    while y < FIELD_HEIGHT - 2
        invariant
            1 <= y <= FIELD_HEIGHT - 2,
            g == field.deep_view(),
            count == full_rows_above(g, y as int),
            count <= y,
        decreases FIELD_HEIGHT - 2 - y,
    {
        let mut can_erase = true;
        let mut x: usize = 2;
        while x < FIELD_WIDTH - 2
            invariant_except_break
                can_erase,
                forall|k: int| 2 <= k < x ==> g[y as int][k] != NONE,
            invariant
                1 <= y < FIELD_HEIGHT - 2,
                2 <= x <= FIELD_WIDTH - 2,
                g == field.deep_view(),
            ensures
                can_erase == full_row(g[y as int]),
            decreases FIELD_WIDTH - 2 - x,
        {
            if field[y][x] == NONE {
                assert(g[y as int][x as int] == NONE);
                can_erase = false;
                break;
            }
            x += 1;
        }
        if can_erase {
            count += 1;
        }
        y += 1;
    }
    count
}

/// The height of the stack (see `stack_height`): 0 when no block is there, and growing
/// as blocks pile up.
pub fn field_height_max(field: &Field) -> (height: usize)
    ensures
        height == stack_height(field.deep_view()),
{
    let ghost g = field.deep_view();
    let mut y: usize = 1;
    while y < FIELD_HEIGHT - 2
        invariant
            1 <= y,
            g == field.deep_view(),
            y <= FIELD_HEIGHT - 2,
            first_occupied_row(g, 1) == first_occupied_row(g, y as int),
        decreases FIELD_HEIGHT - 2 - y,
    {
        let mut x: usize = 2;
        while x < FIELD_WIDTH - 2
            invariant
                1 <= y < FIELD_HEIGHT - 2,
                2 <= x <= FIELD_WIDTH - 2,
                g == field.deep_view(),
                first_occupied_row(g, 1) == first_occupied_row(g, y as int),
                forall|k: int| 2 <= k < x ==> g[y as int][k] == NONE,
            decreases FIELD_WIDTH - 2 - x,
        {
            if field[y][x] != NONE {
                assert(g[y as int][x as int] != NONE);
                assert(occupied_row(g[y as int]));
                assert(first_occupied_row(g, y as int) == y as int);
                return FIELD_HEIGHT - y - 1;
            }
            x += 1;
        }
        assert(!occupied_row(g[y as int]));
        y += 1;
    }
    proof {
        assert(first_occupied_row(g, y as int) == FIELD_HEIGHT - 2);
    }
    0
}

/// The position and shape of the piece after `n` attempts to turn it clockwise.
pub open spec fn turned_times(g: Grid, pos: Position, block: BlockShape, n: nat) -> (Position, BlockShape)
    decreases n,
{
    if n == 0 {
        (pos, block)
    } else {
        let (p, b) = turned_times(g, pos, block, (n - 1) as nat);
        turn(g, p, b, turned_right(b))
    }
}

/// Column `x` moved by `dx`, but not left of column 0.
pub open spec fn shifted(x: int, dx: int) -> int {
    if x + dx <= 0 {
        0
    } else {
        x + dx
    }
}

/// Where the piece stands, and its shape, just before the drop of the trial that turns it
/// `r` + 1 times and then tries to move it to column `shifted(x, dx)`.
pub open spec fn trial_start(game: &Game, r: int, dx: int) -> (Position, BlockShape) {
    let g = game.grid();
    let (p, b) = turned_times(g, game.pos, game.block, (r + 1) as nat);
    let target = Position { x: shifted(p.x as int, dx) as usize, y: p.y };
    (if free_at(g, target, b) { target } else { p }, b)
}

/// The outcome of a trial: the field with the dropped piece painted in, where the piece
/// came to rest, its shape, the number of full lines and the height of the stack.
pub struct Trial {
    pub field: Grid,
    pub pos: Position,
    pub block: BlockShape,
    pub lines: int,
    pub height: int,
}

/// The trial that turns the piece `r` + 1 times, moves it by `dx` columns, drops it and
/// fixes it.
pub open spec fn trial(game: &Game, r: int, dx: int) -> Trial {
    let g = game.grid();
    let (p, b) = trial_start(game, r, dx);
    let y = drop_row(g, p.x as int, p.y as int, b);
    let f = stamped(g, p.x as int, y, b);
    Trial {
        field: f,
        pos: Position { x: p.x, y: y as usize },
        block: b,
        lines: full_line_count(f) as int,
        height: stack_height(f),
    }
}

/// The trial can be carried out: the piece comes to rest and lies on the field there.
pub open spec fn trial_defined(game: &Game, r: int, dx: int) -> bool {
    let g = game.grid();
    let (p, b) = trial_start(game, r, dx);
    &&& can_land(g, p.x as int, p.y as int, b)
    &&& fits(p.x as int, drop_row(g, p.x as int, p.y as int, b), b)
}

/// The trials in the order the search makes them: `i` / 10 + 1 turns, `i` % 10 - 4 columns.
pub open spec fn nth_trial(game: &Game, i: int) -> Trial {
    trial(game, i / 10, i % 10 - 4)
}

/// The placement kept after the first `n` trials. A trial replaces the kept one when it
/// clears at least as many lines and leaves the stack no higher; before any trial the
/// kept placement is the game as it stands, with no line and the greatest height.
pub open spec fn best_of(game: &Game, n: nat) -> Trial
    decreases n,
{
    if n == 0 {
        Trial { field: game.grid(), pos: game.pos, block: game.block, lines: 0, height: FIELD_HEIGHT as int }
    } else {
        let kept = best_of(game, (n - 1) as nat);
        let c = nth_trial(game, n - 1);
        if c.lines >= kept.lines && c.height <= kept.height {
            c
        } else {
            kept
        }
    }
}

/// The search can address every position it tries without overflow.
pub open spec fn search_bounds(game: &Game) -> bool {
    &&& game.pos.x + 16 <= isize::MAX
    &&& game.pos.y + 16 <= usize::MAX
}

/// Every trial of the search can be carried out.
pub open spec fn search_defined(game: &Game) -> bool {
    forall|r: int, dx: int| 0 <= r < 4 && -4 <= dx <= 5 ==> #[trigger] trial_defined(game, r, dx)
}

proof fn lemma_turned_times_bounds(g: Grid, pos: Position, block: BlockShape, n: nat)
    requires
        pos.x + n <= usize::MAX,
        pos.y + n <= usize::MAX,
    ensures
        turned_times(g, pos, block, n).0.x <= pos.x + n,
        turned_times(g, pos, block, n).0.y <= pos.y + n,
    decreases n,
{
    if n > 0 {
        lemma_turned_times_bounds(g, pos, block, (n - 1) as nat);
    }
}

proof fn lemma_trial_index(r: int, d: int)
    requires
        0 <= r < 4,
        0 <= d < 10,
    ensures
        (10 * r + d) / 10 == r,
        (10 * r + d) % 10 == d,
{
    assert((10 * r + d) / 10 == r) by (nonlinear_arith)
        requires 0 <= r < 4, 0 <= d < 10;
    assert((10 * r + d) % 10 == d) by (nonlinear_arith)
        requires 0 <= r < 4, 0 <= d < 10;
}

/// Tries every placement of the falling piece (one to four clockwise turns, then a move of
/// -4 to +5 columns, then a drop) and returns the game with the piece fixed in the
/// placement kept by `best_of`; the game itself when no trial is kept.
pub fn eval(game: &Game) -> (elite: Game)
    requires
        search_bounds(game),
        search_defined(game),
    ensures
        elite.grid() == best_of(game, 40).field,
        elite.pos == best_of(game, 40).pos,
        elite.block == best_of(game, 40).block,
        same_pieces(&elite, game),
{
    let ghost g0 = game.grid();
    let mut elite = game.clone();
    let mut elite_line: usize = 0;
    let mut elite_height: usize = FIELD_HEIGHT;
    let mut rotate_count: usize = 0;
    while rotate_count <= 3
        invariant
            rotate_count <= 4,
            g0 == game.grid(),
            search_bounds(game),
            search_defined(game),
            same_pieces(&elite, game),
            elite.grid() == best_of(game, (10 * rotate_count) as nat).field,
            elite.pos == best_of(game, (10 * rotate_count) as nat).pos,
            elite.block == best_of(game, (10 * rotate_count) as nat).block,
            elite_line == best_of(game, (10 * rotate_count) as nat).lines,
            elite_height == best_of(game, (10 * rotate_count) as nat).height,
        decreases 4 - rotate_count,
    {
        let mut g = game.clone();
        let mut t: usize = 0;
        while t <= rotate_count
            invariant
                rotate_count <= 3,
                t <= rotate_count + 1,
                g0 == game.grid(),
                search_bounds(game),
                g.field == game.field,
                same_pieces(&g, game),
                (g.pos, g.block) == turned_times(g0, game.pos, game.block, t as nat),
                g.pos.x <= game.pos.x + t,
                g.pos.y <= game.pos.y + t,
            decreases rotate_count + 1 - t,
        {
            proof {
                lemma_turned_times_bounds(g0, game.pos, game.block, (t + 1) as nat);
            }
            rotate_right(&mut g);
            t += 1;
        }
        let mut dx: isize = -4;
        while dx <= 5
            invariant
                rotate_count <= 3,
                -4 <= dx <= 6,
                g0 == game.grid(),
                search_bounds(game),
                search_defined(game),
                g.field == game.field,
                same_pieces(&g, game),
                (g.pos, g.block) == turned_times(g0, game.pos, game.block, (rotate_count + 1) as nat),
                g.pos.x <= game.pos.x + 4,
                g.pos.y <= game.pos.y + 4,
                same_pieces(&elite, game),
                elite.grid() == best_of(game, (10 * rotate_count + dx + 4) as nat).field,
                elite.pos == best_of(game, (10 * rotate_count + dx + 4) as nat).pos,
                elite.block == best_of(game, (10 * rotate_count + dx + 4) as nat).block,
                elite_line == best_of(game, (10 * rotate_count + dx + 4) as nat).lines,
                elite_height == best_of(game, (10 * rotate_count + dx + 4) as nat).height,
            decreases 6 - dx,
        {
            let ghost i = 10 * rotate_count + dx + 4;
            proof {
                lemma_trial_index(rotate_count as int, dx + 4);
                assert(trial_defined(game, rotate_count as int, dx as int));
            }
            let mut g2 = g.clone();
            let shifted_x = g2.pos.x as isize + dx;
            let new_pos = Position { x: if shifted_x <= 0 { 0 } else { shifted_x as usize }, y: g2.pos.y };
            assert(new_pos.x == shifted(g.pos.x as int, dx as int));
            move_block(&mut g2, new_pos);
            assert((g2.pos, g2.block) == trial_start(game, rotate_count as int, dx as int));
            hard_drop(&mut g2);
            fix_block(&mut g2);
            let line = erase_line_count(&g2.field);
            let height_max = field_height_max(&g2.field);
            proof {
                let c = trial(game, rotate_count as int, dx as int);
                assert(c == nth_trial(game, i));
                assert(g2.grid() == c.field);
            }
            if line >= elite_line && height_max <= elite_height {
                elite = g2;
                elite_line = line;
                elite_height = height_max;
            }
            dx += 1;
        }
        rotate_count += 1;
    }
    elite
}

/// Whether every trial of the search can be carried out (see `search_defined`).
pub fn search_is_defined(game: &Game) -> (r: bool)
    requires
        search_bounds(game),
    ensures
        r == search_defined(game),
{
    let ghost g0 = game.grid();
    let mut rotate_count: usize = 0;
    while rotate_count <= 3
        invariant
            rotate_count <= 4,
            g0 == game.grid(),
            search_bounds(game),
            forall|r: int, dx: int| 0 <= r < rotate_count && -4 <= dx <= 5 ==> #[trigger] trial_defined(game, r, dx),
        decreases 4 - rotate_count,
    {
        let mut g = game.clone();
        let mut t: usize = 0;
        while t <= rotate_count
            invariant
                rotate_count <= 3,
                t <= rotate_count + 1,
                g0 == game.grid(),
                search_bounds(game),
                g.field == game.field,
                (g.pos, g.block) == turned_times(g0, game.pos, game.block, t as nat),
                g.pos.x <= game.pos.x + t,
                g.pos.y <= game.pos.y + t,
            decreases rotate_count + 1 - t,
        {
            proof {
                lemma_turned_times_bounds(g0, game.pos, game.block, (t + 1) as nat);
            }
            rotate_right(&mut g);
            t += 1;
        }
        let mut dx: isize = -4;
        while dx <= 5
            invariant
                rotate_count <= 3,
                -4 <= dx <= 6,
                g0 == game.grid(),
                search_bounds(game),
                g.field == game.field,
                (g.pos, g.block) == turned_times(g0, game.pos, game.block, (rotate_count + 1) as nat),
                g.pos.x <= game.pos.x + 4,
                g.pos.y <= game.pos.y + 4,
                forall|r: int, d: int| (0 <= r < rotate_count && -4 <= d <= 5 || r == rotate_count && -4 <= d < dx)
                    ==> #[trigger] trial_defined(game, r, d),
            decreases 6 - dx,
        {
            let mut g2 = g.clone();
            let shifted_x = g2.pos.x as isize + dx;
            let new_pos = Position { x: if shifted_x <= 0 { 0 } else { shifted_x as usize }, y: g2.pos.y };
            move_block(&mut g2, new_pos);
            assert((g2.pos, g2.block) == trial_start(game, rotate_count as int, dx as int));
            if !lands(&g2.field, &g2.pos, &g2.block) {
                assert(!trial_defined(game, rotate_count as int, dx as int));
                return false;
            }
            hard_drop(&mut g2);
            if !fits_at(&g2.pos, &g2.block) {
                assert(!trial_defined(game, rotate_count as int, dx as int));
                return false;
            }
            assert(trial_defined(game, rotate_count as int, dx as int));
            dx += 1;
        }
        rotate_count += 1;
    }
    true
}

/// The search of `eval`, where it can be carried out; `None` where a trial cannot be
/// carried out or a position it tries is out of reach.
pub fn try_eval(game: &Game) -> (r: Option<Game>)
    ensures
        r is Some <==> search_bounds(game) && search_defined(game),
        r matches Some(elite) ==> {
            &&& elite.grid() == best_of(game, 40).field
            &&& elite.pos == best_of(game, 40).pos
            &&& elite.block == best_of(game, 40).block
            &&& same_pieces(&elite, game)
        },
{
    let x_limit: usize = (isize::MAX - 16) as usize;
    if game.pos.x > x_limit || game.pos.y > usize::MAX - 16 {
        return None;
    }
    if search_is_defined(game) {
        Some(eval(game))
    } else {
        None
    }
}

proof fn lemma_no_full_rows(g: Grid, n: int)
    requires
        forall|y: int| 1 <= y < n ==> !#[trigger] full_row(g[y]),
    ensures
        full_rows_above(g, n) == 0,
    decreases n,
{
    if n > 1 {
        lemma_no_full_rows(g, n - 1);
    }
}

/// Once the full lines are cleared, no full line is left, unless row 1 was full (row 1 is
/// never cleared).
pub proof fn lemma_clearing_leaves_no_full_line(g: Grid)
    requires
        is_grid(g),
        !full_row(g[1]),
    ensures
        full_line_count(cleared(g)) == 0,
{
    lemma_cleared_has_no_full_row(g);
    lemma_no_full_rows(cleared(g), FIELD_HEIGHT - 2);
}

/// The search never trades lines away: a later kept placement clears at least as many
/// lines as an earlier one, and leaves the stack no higher.
pub proof fn lemma_search_only_improves(game: &Game, m: nat, n: nat)
    requires
        m <= n,
    ensures
        best_of(game, n).lines >= best_of(game, m).lines,
        best_of(game, n).height <= best_of(game, m).height,
    decreases n,
{
    if m < n {
        lemma_search_only_improves(game, m, (n - 1) as nat);
    }
}

/// A field has at most 19 full lines among rows 1 to 19.
pub proof fn lemma_full_line_count_bound(g: Grid)
    ensures
        full_line_count(g) <= FIELD_HEIGHT - 3,
{
    lemma_full_rows_above_bound(g, FIELD_HEIGHT - 2);
}

proof fn lemma_full_rows_above_bound(g: Grid, n: int)
    ensures
        n >= 1 ==> full_rows_above(g, n) <= n - 1,
        n < 1 ==> full_rows_above(g, n) == 0,
    decreases n,
{
    if n > 1 {
        lemma_full_rows_above_bound(g, n - 1);
    }
}

proof fn lemma_first_occupied_row_range(g: Grid, y: int)
    requires
        0 <= y <= FIELD_HEIGHT - 2,
    ensures
        y <= first_occupied_row(g, y) <= FIELD_HEIGHT - 2,
    decreases FIELD_HEIGHT - 2 - y,
{
    if y < FIELD_HEIGHT - 2 && !occupied_row(g[y]) {
        lemma_first_occupied_row_range(g, y + 1);
    }
}

/// The height of a stack is between 0 and 20.
pub proof fn lemma_stack_height_range(g: Grid)
    ensures
        0 <= stack_height(g) <= FIELD_HEIGHT - 2,
{
    lemma_first_occupied_row_range(g, 1);
}

/// Once at least one trial was made, the kept placement is one of the trials made.
pub proof fn lemma_kept_is_a_trial(game: &Game, n: nat)
    requires
        n >= 1,
    ensures
        exists|j: int| 0 <= j < n && best_of(game, n) == #[trigger] nth_trial(game, j),
    decreases n,
{
    let c = nth_trial(game, n - 1);
    lemma_stack_height_range(c.field);
    if n > 1 {
        lemma_kept_is_a_trial(game, (n - 1) as nat);
        if !(c.lines >= best_of(game, (n - 1) as nat).lines && c.height <= best_of(game, (n - 1) as nat).height) {
            let j = choose|j: int| 0 <= j < n - 1 && best_of(game, (n - 1) as nat) == #[trigger] nth_trial(game, j);
            assert(best_of(game, n) == nth_trial(game, j));
        } else {
            assert(best_of(game, n) == nth_trial(game, n - 1));
        }
    } else {
        assert(best_of(game, 0).height == FIELD_HEIGHT);
        assert(best_of(game, 0).lines == 0);
        assert(c.height <= FIELD_HEIGHT - 2);
        assert(c.lines >= 0);
        assert(best_of(game, n) == nth_trial(game, 0));
    }
}

/// Every trial is scored by the field it leaves: the full lines and the stack height of
/// that field, with the dropped piece painted in.
pub proof fn lemma_trial_is_scored_by_its_field(game: &Game, i: int)
    ensures
        nth_trial(game, i).lines == full_line_count(nth_trial(game, i).field),
        nth_trial(game, i).height == stack_height(nth_trial(game, i).field),
{
}

/// The search keeps the lowest stack among the placements that clear as many lines: no
/// trial that clears at least as many full lines as the kept placement leaves a lower
/// stack.
pub proof fn lemma_kept_placement_is_lowest(game: &Game, i: int)
    requires
        0 <= i < 40,
    ensures
        full_line_count(nth_trial(game, i).field) >= full_line_count(best_of(game, 40).field)
            ==> stack_height(best_of(game, 40).field) <= stack_height(nth_trial(game, i).field),
{
    lemma_kept_is_a_trial(game, 40);
    let j = choose|j: int| 0 <= j < 40 && best_of(game, 40) == #[trigger] nth_trial(game, j);
    let best = best_of(game, 40);
    let kept = best_of(game, i as nat);
    let t = nth_trial(game, i);
    lemma_search_only_improves(game, i as nat, 40);
    lemma_search_only_improves(game, (i + 1) as nat, 40);
    assert(best_of(game, (i + 1) as nat) == (if t.lines >= kept.lines && t.height <= kept.height { t } else { kept }));
}

/// A field has no full line in rows 1 to 19 exactly when each of those rows has an empty
/// cell among columns 2 to 12.
pub proof fn lemma_no_full_line_means_a_gap_in_every_row(g: Grid)
    ensures
        full_line_count(g) == 0 <==> forall|y: int| 1 <= y < FIELD_HEIGHT - 2 ==> #[trigger] has_gap(g[y]),
{
    lemma_count_zero_iff(g, FIELD_HEIGHT - 2);
}

proof fn lemma_count_zero_iff(g: Grid, n: int)
    requires
        n <= FIELD_HEIGHT - 2,
    ensures
        full_rows_above(g, n) == 0 <==> forall|y: int| 1 <= y < n ==> #[trigger] has_gap(g[y]),
    decreases n,
{
    if n > 1 {
        lemma_count_zero_iff(g, n - 1);
        let y = n - 1;
        if full_row(g[y]) {
            assert(!has_gap(g[y]));
        } else {
            let x = choose|x: int| 2 <= x < FIELD_WIDTH - 2 && !(#[trigger] g[y][x] != NONE);
            assert(g[y][x] == NONE);
            assert(has_gap(g[y]));
        }
    }
}

} // verus!
