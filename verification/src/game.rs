//! The playing field, the falling piece and the rules that move it.

use std::collections::VecDeque;
use vstd::prelude::*;

use crate::block::{gen_block, is_bag, BlockShape, BLOCKS, BLOCK_SIZE};
use crate::block_kind::{GHOST, NONE, WALL as W};
use crate::random::random_below;

verus! {

/// Columns: eleven for play, a wall on each side, and a sentinel column beyond each wall.
pub const FIELD_WIDTH: usize = 11 + 2 + 2;
/// Rows: twenty for play, the floor, and a sentinel row below it.
pub const FIELD_HEIGHT: usize = 20 + 1 + 1;

/// `field[y][x]` is the colour of the cell in row `y` (counted from the top) and column `x`.
pub type Field = [[usize; FIELD_WIDTH]; FIELD_HEIGHT];

/// The position of a piece's top-left corner on the field.
#[derive(Clone, Copy)]
pub struct Position {
    pub x: usize,
    pub y: usize,
}

/// Where a new piece appears.
pub open spec fn spawn_position() -> Position {
    Position { x: 5, y: 0 }
}

impl Position {
    pub fn init() -> (p: Position)
        ensures
            p == spawn_position(),
    {
        Position { x: 5, y: 0 }
    }
}

/// How many of the coming pieces are shown.
pub const NEXT_LENGTH: usize = 3;

/// The state of a game.
pub struct Game {
    pub field: Field,
    /// Where the falling piece stands.
    pub pos: Position,
    /// The falling piece.
    pub block: BlockShape,
    /// The piece put aside, if any.
    pub hold: Option<BlockShape>,
    /// Whether a piece was already put aside since the last landing.
    pub holded: bool,
    /// The coming pieces.
    pub next: VecDeque<BlockShape>,
    /// The rest of the current bag, which refills `next`.
    pub next_buf: VecDeque<BlockShape>,
}

/// The empty field: walls left and right, a floor, and the sentinels around them.
pub const DEFAULT_FIELD: Field = [
    [0, W, 0, 0, 0, 0, 0, 0, 0, 0, 0, 0, 0, W, 0],
    [0, W, 0, 0, 0, 0, 0, 0, 0, 0, 0, 0, 0, W, 0],
    [0, W, 0, 0, 0, 0, 0, 0, 0, 0, 0, 0, 0, W, 0],
    [0, W, 0, 0, 0, 0, 0, 0, 0, 0, 0, 0, 0, W, 0],
    [0, W, 0, 0, 0, 0, 0, 0, 0, 0, 0, 0, 0, W, 0],
    [0, W, 0, 0, 0, 0, 0, 0, 0, 0, 0, 0, 0, W, 0],
    [0, W, 0, 0, 0, 0, 0, 0, 0, 0, 0, 0, 0, W, 0],
    [0, W, 0, 0, 0, 0, 0, 0, 0, 0, 0, 0, 0, W, 0],
    [0, W, 0, 0, 0, 0, 0, 0, 0, 0, 0, 0, 0, W, 0],
    [0, W, 0, 0, 0, 0, 0, 0, 0, 0, 0, 0, 0, W, 0],
    [0, W, 0, 0, 0, 0, 0, 0, 0, 0, 0, 0, 0, W, 0],
    [0, W, 0, 0, 0, 0, 0, 0, 0, 0, 0, 0, 0, W, 0],
    [0, W, 0, 0, 0, 0, 0, 0, 0, 0, 0, 0, 0, W, 0],
    [0, W, 0, 0, 0, 0, 0, 0, 0, 0, 0, 0, 0, W, 0],
    [0, W, 0, 0, 0, 0, 0, 0, 0, 0, 0, 0, 0, W, 0],
    [0, W, 0, 0, 0, 0, 0, 0, 0, 0, 0, 0, 0, W, 0],
    [0, W, 0, 0, 0, 0, 0, 0, 0, 0, 0, 0, 0, W, 0],
    [0, W, 0, 0, 0, 0, 0, 0, 0, 0, 0, 0, 0, W, 0],
    [0, W, 0, 0, 0, 0, 0, 0, 0, 0, 0, 0, 0, W, 0],
    [0, W, 0, 0, 0, 0, 0, 0, 0, 0, 0, 0, 0, W, 0],
    [0, W, W, W, W, W, W, W, W, W, W, W, W, W, 0],
    [0, 0, 0, 0, 0, 0, 0, 0, 0, 0, 0, 0, 0, 0, 0],
];

/// The field as rows of colours.
pub type Grid = Seq<Seq<usize>>;

/// Row `r`, column `c` lies on the field.
pub open spec fn on_field(r: int, c: int) -> bool {
    0 <= r < FIELD_HEIGHT && 0 <= c < FIELD_WIDTH
}

/// The cell at row `by`, column `bx` of piece `b`, placed with its corner at (`x`, `y`),
/// is filled and lies on an occupied cell of `g`.
pub open spec fn cell_hits(g: Grid, x: int, y: int, b: BlockShape, by: int, bx: int) -> bool {
    &&& b[by][bx] != NONE
    &&& on_field(by + y, bx + x)
    &&& g[by + y][bx + x] != NONE
}

/// Piece `b` placed with its corner at (`x`, `y`) overlaps an occupied cell of `g`.
/// Cells of the piece that fall off the field do not count.
pub open spec fn overlaps(g: Grid, x: int, y: int, b: BlockShape) -> bool {
    exists|by: int, bx: int| 0 <= by < 4 && 0 <= bx < 4 && #[trigger] cell_hits(g, x, y, b, by, bx)
}

/// The cells of a piece at `pos` can be addressed without overflow.
pub open spec fn addressable(pos: Position) -> bool {
    &&& pos.x + 3 <= usize::MAX
    &&& pos.y + 3 <= usize::MAX
}

/// Every filled cell of piece `b`, placed with its corner at (`x`, `y`), lies on the field.
pub open spec fn fits(x: int, y: int, b: BlockShape) -> bool {
    forall|by: int, bx: int| 0 <= by < 4 && 0 <= bx < 4 && #[trigger] b[by][bx] != NONE
        ==> on_field(by + y, bx + x)
}

/// `g` with the filled cells of piece `b`, placed with its corner at (`x`, `y`), painted
/// in the piece's colours.
pub open spec fn stamped(g: Grid, x: int, y: int, b: BlockShape) -> Grid {
    Seq::new(g.len(), |r: int| Seq::new(g[r].len(), |c: int|
        if 0 <= r - y < 4 && 0 <= c - x < 4 && b[r - y][c - x] != NONE {
            b[r - y][c - x]
        } else {
            g[r][c]
        }))
}

/// `g` with the filled cells of piece `b`, placed with its corner at (`x`, `y`), painted
/// as the drop preview.
pub open spec fn shadowed(g: Grid, x: int, y: int, b: BlockShape) -> Grid {
    Seq::new(g.len(), |r: int| Seq::new(g[r].len(), |c: int|
        if 0 <= r - y < 4 && 0 <= c - x < 4 && b[r - y][c - x] != NONE {
            GHOST
        } else {
            g[r][c]
        }))
}

/// Dropped from row `y0` in column `x`, piece `b` meets an occupied cell somewhere below.
pub open spec fn can_land(g: Grid, x: int, y0: int, b: BlockShape) -> bool {
    exists|w: int| y0 < w && #[trigger] overlaps(g, x, w, b)
}

/// Dropped from row `y0` in column `x`, piece `b` comes to rest in row `y`: every row
/// from `y0 + 1` to `y` is free, row `y + 1` is not.
pub open spec fn rests_at(g: Grid, x: int, y0: int, y: int, b: BlockShape) -> bool {
    &&& y0 <= y
    &&& overlaps(g, x, y + 1, b)
    &&& forall|k: int| y0 < k <= y ==> !#[trigger] overlaps(g, x, k, b)
}

/// The row in which piece `b`, dropped from row `y0` in column `x`, comes to rest.
pub open spec fn drop_row(g: Grid, x: int, y0: int, b: BlockShape) -> int {
    choose|y: int| rests_at(g, x, y0, y, b)
}

/// A piece rests in at most one row.
pub proof fn lemma_rest_row_unique(g: Grid, x: int, y0: int, y1: int, y2: int, b: BlockShape)
    requires
        rests_at(g, x, y0, y1, b),
        rests_at(g, x, y0, y2, b),
    ensures
        y1 == y2,
{
    if y1 < y2 {
        assert(!overlaps(g, x, y1 + 1, b));
    } else if y2 < y1 {
        assert(!overlaps(g, x, y2 + 1, b));
    }
}

/// The row found by a drop is the row named by `drop_row`.
pub proof fn lemma_drop_row(g: Grid, x: int, y0: int, y: int, b: BlockShape)
    requires
        rests_at(g, x, y0, y, b),
    ensures
        drop_row(g, x, y0, b) == y,
{
    lemma_rest_row_unique(g, x, y0, drop_row(g, x, y0, b), y, b);
}

/// An overlap only happens in a row whose cells can be reached from the field.
proof fn lemma_overlap_row_bound(g: Grid, x: int, y: int, b: BlockShape)
    requires
        overlaps(g, x, y, b),
    ensures
        y < FIELD_HEIGHT,
{
    let (by, bx) = choose|by: int, bx: int| 0 <= by < 4 && 0 <= bx < 4 && #[trigger] cell_hits(g, x, y, b, by, bx);
}

/// Whether piece `block` at `pos` overlaps an occupied cell of `field`.
pub fn is_collision(field: &Field, pos: &Position, block: &BlockShape) -> (r: bool)
    requires
        addressable(*pos),
    ensures
        r == overlaps(field.deep_view(), pos.x as int, pos.y as int, *block),
{
    let ghost g = field.deep_view();
    let ghost px = pos.x as int;
    let ghost py = pos.y as int;
    let mut y: usize = 0;
    while y < BLOCK_SIZE
        invariant
            y <= 4,
            addressable(*pos),
            g == field.deep_view(),
            px == pos.x,
            py == pos.y,
            forall|by: int, bx: int| 0 <= by < y && 0 <= bx < 4 ==> !#[trigger] cell_hits(g, px, py, *block, by, bx),
        decreases 4 - y,
    {
        let mut x: usize = 0;
        while x < BLOCK_SIZE
            invariant
                y < 4,
                x <= 4,
                addressable(*pos),
                g == field.deep_view(),
                px == pos.x,
                py == pos.y,
                forall|by: int, bx: int| 0 <= by < y && 0 <= bx < 4 ==> !#[trigger] cell_hits(g, px, py, *block, by, bx),
                forall|bx: int| 0 <= bx < x ==> !#[trigger] cell_hits(g, px, py, *block, y as int, bx),
            decreases 4 - x,
        {
            if y + pos.y < FIELD_HEIGHT && x + pos.x < FIELD_WIDTH {
                if field[y + pos.y][x + pos.x] != NONE && block[y][x] != NONE {
                    assert(cell_hits(g, px, py, *block, y as int, x as int));
                    return true;
                }
            }
            x += 1;
        }
        y += 1;
    }
    false
}

impl Game {
    /// The field as rows of colours.
    pub open spec fn grid(&self) -> Grid {
        self.field.deep_view()
    }
}

/// `a` and `b` agree on the pieces other than the falling one.
pub open spec fn same_pieces(a: &Game, b: &Game) -> bool {
    &&& a.hold == b.hold
    &&& a.holded == b.holded
    &&& a.next@ == b.next@
    &&& a.next_buf@ == b.next_buf@
}

/// Moves the piece to `new_pos` if it fits there, else leaves it where it is.
pub fn move_block(game: &mut Game, new_pos: Position)
    requires
        addressable(new_pos),
    ensures
        final(game).pos == (if overlaps(old(game).grid(), new_pos.x as int, new_pos.y as int, old(game).block) {
            old(game).pos
        } else {
            new_pos
        }),
        final(game).field == old(game).field,
        final(game).block == old(game).block,
        same_pieces(final(game), old(game)),
{
    if !is_collision(&game.field, &new_pos, &game.block) {
        game.pos = new_pos;
    }
}

/// The colour a painted cell takes: the piece's own, or the drop-preview colour.
pub open spec fn painted(g: Grid, x: int, y: int, b: BlockShape, ghost: bool) -> Grid {
    if ghost {
        shadowed(g, x, y, b)
    } else {
        stamped(g, x, y, b)
    }
}

/// Paints the filled cells of `block` at `pos` into `field`: in the piece's colours, or
/// as the drop preview when `ghost` is set.
fn paint(field: &mut Field, pos: Position, block: BlockShape, ghost: bool)
    requires
        fits(pos.x as int, pos.y as int, block),
    ensures
        final(field).deep_view() == painted(old(field).deep_view(), pos.x as int, pos.y as int, block, ghost),
{
    let ghost g0 = field.deep_view();
    let ghost px = pos.x as int;
    let ghost py = pos.y as int;
    let mut y: usize = 0;
    while y < BLOCK_SIZE
        invariant
            y <= 4,
            px == pos.x,
            py == pos.y,
            g0 == old(field).deep_view(),
            fits(px, py, block),
            forall|r: int, c: int| 0 <= r < FIELD_HEIGHT && 0 <= c < FIELD_WIDTH ==> #[trigger] field[r][c] == (
                if 0 <= r - py < y && 0 <= c - px < 4 && block[r - py][c - px] != NONE {
                    if ghost { GHOST } else { block[r - py][c - px] }
                } else {
                    g0[r][c]
                }),
        decreases 4 - y,
    {
        let mut x: usize = 0;
        while x < BLOCK_SIZE
            invariant
                y < 4,
                x <= 4,
                px == pos.x,
                py == pos.y,
                g0 == old(field).deep_view(),
                fits(px, py, block),
                forall|r: int, c: int| 0 <= r < FIELD_HEIGHT && 0 <= c < FIELD_WIDTH ==> #[trigger] field[r][c] == (
                    if (0 <= r - py < y && 0 <= c - px < 4 || r - py == y && 0 <= c - px < x)
                        && block[r - py][c - px] != NONE {
                        if ghost { GHOST } else { block[r - py][c - px] }
                    } else {
                        g0[r][c]
                    }),
            decreases 4 - x,
        {
            if block[y][x] != NONE {
                assert(block[y as int][x as int] != NONE);
                let v = if ghost { GHOST } else { block[y][x] };
                field[y + pos.y][x + pos.x] = v;
            }
            x += 1;
        }
        y += 1;
    }
    if ghost {
        assert(field.deep_view() =~~= shadowed(g0, px, py, block));
    } else {
        assert(field.deep_view() =~~= stamped(g0, px, py, block));
    }
}

/// Paints the falling piece into the field where it stands.
pub fn fix_block(game: &mut Game)
    requires
        fits(old(game).pos.x as int, old(game).pos.y as int, old(game).block),
    ensures
        final(game).grid() == stamped(old(game).grid(), old(game).pos.x as int, old(game).pos.y as int, old(game).block),
        final(game).pos == old(game).pos,
        final(game).block == old(game).block,
        same_pieces(final(game), old(game)),
{
    let pos = game.pos;
    let block = game.block;
    paint(&mut game.field, pos, block, false);
}

/// Where piece `block` at `pos` comes to rest when dropped straight down: the lowest
/// row reached through free rows only.
pub fn ghost_pos(field: &Field, pos: &Position, block: &BlockShape) -> (r: Position)
    requires
        addressable(*pos),
        can_land(field.deep_view(), pos.x as int, pos.y as int, *block),
    ensures
        r.x == pos.x,
        rests_at(field.deep_view(), pos.x as int, pos.y as int, r.y as int, *block),
        r.y == drop_row(field.deep_view(), pos.x as int, pos.y as int, *block),
{
    let ghost g = field.deep_view();
    let ghost x = pos.x as int;
    let ghost y0 = pos.y as int;
    let ghost w = choose|w: int| y0 < w && #[trigger] overlaps(g, x, w, *block);
    proof {
        lemma_overlap_row_bound(g, x, w, *block);
    }
    let mut ghost_pos = *pos;
    loop
        invariant
            g == field.deep_view(),
            x == pos.x,
            ghost_pos.x == pos.x,
            addressable(*pos),
            y0 <= ghost_pos.y < w < FIELD_HEIGHT,
            overlaps(g, x, w, *block),
            forall|k: int| y0 < k <= ghost_pos.y ==> !#[trigger] overlaps(g, x, k, *block),
        ensures
            ghost_pos.x == pos.x,
            rests_at(g, x, y0, ghost_pos.y as int, *block),
        decreases w - ghost_pos.y,
    {
        let new_pos = Position { x: ghost_pos.x, y: ghost_pos.y + 1 };
        if is_collision(field, &new_pos, block) {
            break;
        }
        ghost_pos.y += 1;
    }
    proof {
        lemma_drop_row(g, x, y0, ghost_pos.y as int, *block);
    }
    ghost_pos
}

/// Drops the piece straight down as far as it goes.
pub fn hard_drop(game: &mut Game)
    requires
        addressable(old(game).pos),
        can_land(old(game).grid(), old(game).pos.x as int, old(game).pos.y as int, old(game).block),
    ensures
        final(game).pos.x == old(game).pos.x,
        rests_at(old(game).grid(), old(game).pos.x as int, old(game).pos.y as int, final(game).pos.y as int, old(game).block),
        final(game).pos.y == drop_row(old(game).grid(), old(game).pos.x as int, old(game).pos.y as int, old(game).block),
        final(game).field == old(game).field,
        final(game).block == old(game).block,
        same_pieces(final(game), old(game)),
{
    let ghost g = game.grid();
    let ghost x = game.pos.x as int;
    let ghost y0 = game.pos.y as int;
    let ghost w = choose|w: int| y0 < w && #[trigger] overlaps(g, x, w, game.block);
    proof {
        lemma_overlap_row_bound(g, x, w, game.block);
    }
    loop
        invariant
            g == game.grid(),
            x == game.pos.x,
            game.field == old(game).field,
            game.block == old(game).block,
            same_pieces(game, old(game)),
            game.pos.x == old(game).pos.x,
            y0 == old(game).pos.y,
            addressable(old(game).pos),
            y0 <= game.pos.y < w < FIELD_HEIGHT,
            overlaps(g, x, w, game.block),
            forall|k: int| y0 < k <= game.pos.y ==> !#[trigger] overlaps(g, x, k, game.block),
        ensures
            game.field == old(game).field,
            game.block == old(game).block,
            same_pieces(game, old(game)),
            game.pos.x == old(game).pos.x,
            game.pos.y < FIELD_HEIGHT,
            rests_at(g, x, y0, game.pos.y as int, game.block),
        decreases w - game.pos.y,
    {
        let new_pos = Position { x: game.pos.x, y: game.pos.y + 1 };
        if is_collision(&game.field, &new_pos, &game.block) {
            break;
        }
        game.pos.y = game.pos.y + 1;
    }
    let new_pos = game.pos;
    move_block(game, new_pos);
    proof {
        lemma_drop_row(g, x, y0, game.pos.y as int, game.block);
    }
}

/// Every playing cell (columns 2 to 12) of the row is filled.
pub open spec fn full_row(row: Seq<usize>) -> bool {
    forall|x: int| 2 <= x < FIELD_WIDTH - 2 ==> #[trigger] row[x] != NONE
}

/// The row has an empty cell among columns 2 to 12.
pub open spec fn has_gap(row: Seq<usize>) -> bool {
    exists|x: int| 2 <= x < FIELD_WIDTH - 2 && #[trigger] row[x] == NONE
}

/// Keeps the rows that are not full.
pub open spec fn not_full() -> spec_fn(Seq<usize>) -> bool {
    |row: Seq<usize>| !full_row(row)
}

/// The rows among 2 .. `y` - 1 of `g` that are not full, in order.
pub open spec fn kept_rows(g: Grid, y: int) -> Grid {
    if y <= 2 {
        Seq::empty()
    } else {
        g.subrange(2, y).filter(not_full())
    }
}

/// Rows 1 .. `y` - 1 of `g` once those among 2 .. `y` - 1 that are full have been taken out:
/// the rows left, pushed to the bottom, with copies of row 1 filling the top.
pub open spec fn cleared_rows(g: Grid, y: int) -> Grid {
    if y <= 1 {
        Seq::empty()
    } else {
        Seq::new((y - 1 - kept_rows(g, y).len()) as nat, |i: int| g[1]) + kept_rows(g, y)
    }
}

/// The field once its full lines are cleared: a full row among rows 2 to 19 is taken out
/// and every row above it moves down by one, row 1 staying where it is (so it also fills
/// the row below it); rows 0, 20 and 21 are left alone, and so is a full row 1.
pub open spec fn cleared(g: Grid) -> Grid {
    g.subrange(0, 1) + cleared_rows(g, FIELD_HEIGHT - 2) + g.subrange(FIELD_HEIGHT - 2, FIELD_HEIGHT as int)
}

proof fn lemma_kept_rows_step(g: Grid, y: int)
    requires
        2 <= y < g.len(),
    ensures
        kept_rows(g, y + 1) == (if full_row(g[y]) { kept_rows(g, y) } else { kept_rows(g, y).push(g[y]) }),
        kept_rows(g, y).len() <= y - 2,
{
    reveal(Seq::filter);
    let s = g.subrange(2, y + 1);
    assert(s.drop_last() =~= g.subrange(2, y));
    assert(s.last() == g[y]);
    if y == 2 {
        assert(g.subrange(2, 2).filter(not_full()) =~= Seq::<Seq<usize>>::empty());
    }
    g.subrange(2, y).lemma_filter_len(not_full());
}

/// Whether row `y` of `field` is full.
fn row_is_full(field: &Field, y: usize) -> (r: bool)
    requires
        y < FIELD_HEIGHT,
    ensures
        r == full_row(field.deep_view()[y as int]),
{
    let mut x: usize = 2;
    while x < FIELD_WIDTH - 2
        invariant
            y < FIELD_HEIGHT,
            2 <= x <= FIELD_WIDTH - 2,
            forall|k: int| 2 <= k < x ==> field.deep_view()[y as int][k] != NONE,
        decreases FIELD_WIDTH - 2 - x,
    {
        if field[y][x] == 0 {
            assert(field.deep_view()[y as int][x as int] == NONE);
            return false;
        }
        x += 1;
    }
    true
}

/// Moves rows 1 .. `y` - 1 down by one row; row 1 is left as it was.
fn shift_down(field: &mut Field, y: usize)
    requires
        y < FIELD_HEIGHT,
    ensures
        forall|r: int| 0 <= r < FIELD_HEIGHT ==> #[trigger] final(field)[r] == (
            if 2 <= r <= y { old(field)[r - 1] } else { old(field)[r] }),
{
    let ghost pre = *field;
    let mut y2: usize = y;
    while y2 >= 2
        invariant
            y < FIELD_HEIGHT,
            y2 <= y,
            y2 == y || y2 >= 1,
            forall|r: int| 0 <= r < FIELD_HEIGHT ==> #[trigger] field[r] == (
                if y2 < r <= y { pre[r - 1] } else { pre[r] }),
        decreases y2,
    {
        let row = field[y2 - 1];
        field[y2] = row;
        y2 -= 1;
    }
}

/// Clears the full lines of the field (see `cleared`).
pub fn erase_line(field: &mut Field)
    ensures
        final(field).deep_view() == cleared(old(field).deep_view()),
{
    let ghost g0 = field.deep_view();
    let mut y: usize = 1;
    while y < FIELD_HEIGHT - 2
        invariant
            1 <= y <= FIELD_HEIGHT - 2,
            g0 == old(field).deep_view(),
            field.deep_view()[0] == g0[0],
            field.deep_view()[1] == g0[1],
            forall|r: int| y <= r < FIELD_HEIGHT ==> #[trigger] field.deep_view()[r] == g0[r],
            field.deep_view().subrange(1, y as int) == cleared_rows(g0, y as int),
        decreases FIELD_HEIGHT - 2 - y,
    {
        let ghost before = field.deep_view();
        let can_erase = row_is_full(field, y);
        if can_erase {
            let ghost pre = *field;
            shift_down(field, y);
            assert forall|r: int| 0 <= r < FIELD_HEIGHT implies #[trigger] field.deep_view()[r] == (
                if 2 <= r <= y { before[r - 1] } else { before[r] }) by {
                assert(field[r] == (if 2 <= r <= y { pre[r - 1] } else { pre[r] }));
            }
        }
        proof {
            let after = field.deep_view();
            if y >= 2 {
                lemma_kept_rows_step(g0, y as int);
                let k = kept_rows(g0, y as int);
                if can_erase {
                    assert(forall|r: int| 2 <= r <= y ==> after[r] == before[r - 1]);
                    assert(after.subrange(1, y + 1) =~= seq![g0[1]] + before.subrange(1, y as int));
                    assert(cleared_rows(g0, y + 1) =~= seq![g0[1]] + cleared_rows(g0, y as int));
                } else {
                    assert(after.subrange(1, y + 1) =~= before.subrange(1, y as int).push(g0[y as int]));
                    assert(cleared_rows(g0, y + 1) =~= cleared_rows(g0, y as int).push(g0[y as int]));
                }
            } else {
                assert(kept_rows(g0, 2) =~= Seq::<Seq<usize>>::empty());
                assert(after.subrange(1, 2) =~= cleared_rows(g0, 2));
            }
        }
        y += 1;
    }
    assert(field.deep_view() =~= cleared(g0));
}

/// `s` turned a quarter clockwise: cell (`y`, `x`) takes cell (3 - `x`, `y`).
pub open spec fn turned_right(s: BlockShape) -> BlockShape {
    [
        [s[3][0], s[2][0], s[1][0], s[0][0]],
        [s[3][1], s[2][1], s[1][1], s[0][1]],
        [s[3][2], s[2][2], s[1][2], s[0][2]],
        [s[3][3], s[2][3], s[1][3], s[0][3]],
    ]
}

/// `s` turned a quarter anticlockwise: cell (`y`, `x`) takes cell (`x`, 3 - `y`).
pub open spec fn turned_left(s: BlockShape) -> BlockShape {
    [
        [s[0][3], s[1][3], s[2][3], s[3][3]],
        [s[0][2], s[1][2], s[2][2], s[3][2]],
        [s[0][1], s[1][1], s[2][1], s[3][1]],
        [s[0][0], s[1][0], s[2][0], s[3][0]],
    ]
}

/// The positions one cell up (not above row 0), right, down and left (not left of column
/// 0) of `pos`, in the order in which a blocked turn tries them.
pub open spec fn kick_candidates(pos: Position) -> Seq<Position> {
    seq![
        Position { x: pos.x, y: if pos.y >= 1 { (pos.y - 1) as usize } else { pos.y } },
        Position { x: (pos.x + 1) as usize, y: pos.y },
        Position { x: pos.x, y: (pos.y + 1) as usize },
        Position { x: if pos.x >= 1 { (pos.x - 1) as usize } else { pos.x }, y: pos.y },
    ]
}

/// Piece `b` at `p` overlaps nothing on `g`.
pub open spec fn free_at(g: Grid, p: Position, b: BlockShape) -> bool {
    !overlaps(g, p.x as int, p.y as int, b)
}

/// The first of the four neighbouring positions of `pos` where piece `b` is free, if any.
pub open spec fn kick(g: Grid, pos: Position, b: BlockShape) -> Option<Position> {
    let c = kick_candidates(pos);
    if free_at(g, c[0], b) {
        Some(c[0])
    } else if free_at(g, c[1], b) {
        Some(c[1])
    } else if free_at(g, c[2], b) {
        Some(c[2])
    } else if free_at(g, c[3], b) {
        Some(c[3])
    } else {
        None
    }
}

/// The search for a neighbouring position can be carried out without overflow: the four
/// candidates can be formed, and each candidate that is tried can be addressed (the one
/// right of `pos` is tried only when the one above is blocked, the one below only when
/// those two are).
pub open spec fn kick_addressable(g: Grid, pos: Position, b: BlockShape) -> bool {
    let c = kick_candidates(pos);
    &&& addressable(pos)
    &&& pos.x + 1 <= usize::MAX
    &&& pos.y + 1 <= usize::MAX
    &&& !free_at(g, c[0], b) ==> addressable(c[1])
    &&& !free_at(g, c[0], b) && !free_at(g, c[1], b) ==> addressable(c[2])
}

/// A turn into `turned` can be carried out without overflow: the piece can be addressed
/// where it is and, when it does not fit there, the search for a neighbouring position can
/// be carried out.
pub open spec fn turn_addressable(g: Grid, pos: Position, turned: BlockShape) -> bool {
    &&& addressable(pos)
    &&& !free_at(g, pos, turned) ==> kick_addressable(g, pos, turned)
}

/// Where a turned piece may stand when it does not fit where the piece was: the first of
/// the cells above, right of, below and left of `pos` where it fits.
pub fn super_rotation(field: &Field, pos: &Position, block: &BlockShape) -> (r: Result<Position, ()>)
    requires
        kick_addressable(field.deep_view(), *pos, *block),
    ensures
        r matches Ok(p) ==> kick(field.deep_view(), *pos, *block) == Some(p),
        r is Err ==> kick(field.deep_view(), *pos, *block) is None,
{
    let ghost c = kick_candidates(*pos);
    let up = Position { x: pos.x, y: if pos.y >= 1 { pos.y - 1 } else { pos.y } };
    if !is_collision(field, &up, block) {
        assert(up == c[0]);
        return Ok(up);
    }
    let right = Position { x: pos.x + 1, y: pos.y };
    if !is_collision(field, &right, block) {
        assert(right == c[1]);
        return Ok(right);
    }
    let down = Position { x: pos.x, y: pos.y + 1 };
    if !is_collision(field, &down, block) {
        assert(down == c[2]);
        return Ok(down);
    }
    let left = Position { x: if pos.x >= 1 { pos.x - 1 } else { pos.x }, y: pos.y };
    if !is_collision(field, &left, block) {
        assert(left == c[3]);
        return Ok(left);
    }
    assert(up == c[0] && right == c[1] && down == c[2] && left == c[3]);
    Err(())
}

/// Where the piece stands, and what it is, after an attempt to turn it into `turned`:
/// in place if it fits, else at the first neighbouring position where it fits, else the
/// attempt changes nothing.
pub open spec fn turn(g: Grid, pos: Position, block: BlockShape, turned: BlockShape) -> (Position, BlockShape) {
    if free_at(g, pos, turned) {
        (pos, turned)
    } else {
        match kick(g, pos, turned) {
            Some(p) => (p, turned),
            None => (pos, block),
        }
    }
}

/// `block` turned a quarter anticlockwise.
pub fn turn_left_shape(block: &BlockShape) -> (new_shape: BlockShape)
    ensures
        new_shape == turned_left(*block),
{
    let mut new_shape: BlockShape = [[0; 4]; 4];
    let mut y: usize = 0;
    while y < BLOCK_SIZE
        invariant
            y <= 4,
            forall|i: int, j: int| 0 <= i < 4 && 0 <= j < y ==> #[trigger] new_shape[i][j] == block[j][3 - i],
        decreases 4 - y,
    {
        let mut x: usize = 0;
        while x < BLOCK_SIZE
            invariant
                y < 4,
                x <= 4,
                forall|i: int, j: int| 0 <= i < 4 && 0 <= j < 4 && (j < y || j == y && 3 - i < x)
                    ==> #[trigger] new_shape[i][j] == block[j][3 - i],
            decreases 4 - x,
        {
            new_shape[4 - 1 - x][y] = block[y][x];
            x += 1;
        }
        y += 1;
    }
    let ghost t = turned_left(*block);
    assert forall|i: int| 0 <= i < 4 implies new_shape[i] =~= t[i] by {}
    assert(new_shape =~= t);
    new_shape
}

/// `block` turned a quarter clockwise.
pub fn turn_right_shape(block: &BlockShape) -> (new_shape: BlockShape)
    ensures
        new_shape == turned_right(*block),
{
    let mut new_shape: BlockShape = [[0; 4]; 4];
    let mut y: usize = 0;
    while y < BLOCK_SIZE
        invariant
            y <= 4,
            forall|i: int, j: int| 0 <= i < y && 0 <= j < 4 ==> #[trigger] new_shape[i][j] == block[3 - j][i],
        decreases 4 - y,
    {
        let mut x: usize = 0;
        while x < BLOCK_SIZE
            invariant
                y < 4,
                x <= 4,
                forall|i: int, j: int| 0 <= i < 4 && 0 <= j < 4 && (i < y || i == y && j < x)
                    ==> #[trigger] new_shape[i][j] == block[3 - j][i],
            decreases 4 - x,
        {
            new_shape[y][x] = block[4 - 1 - x][y];
            x += 1;
        }
        y += 1;
    }
    let ghost t = turned_right(*block);
    assert forall|i: int| 0 <= i < 4 implies new_shape[i] =~= t[i] by {}
    assert(new_shape =~= t);
    new_shape
}

/// Turns the piece a quarter anticlockwise, if it fits (see `turn`).
pub fn rotate_left(game: &mut Game)
    requires
        turn_addressable(old(game).grid(), old(game).pos, turned_left(old(game).block)),
    ensures
        (final(game).pos, final(game).block) == turn(old(game).grid(), old(game).pos, old(game).block, turned_left(old(game).block)),
        final(game).field == old(game).field,
        same_pieces(final(game), old(game)),
{
    let new_shape = turn_left_shape(&game.block);
    if !is_collision(&game.field, &game.pos, &new_shape) {
        game.block = new_shape;
    } else if let Ok(new_pos) = super_rotation(&game.field, &game.pos, &new_shape) {
        game.pos = new_pos;
        game.block = new_shape;
    }
}

/// Turns the piece a quarter clockwise, if it fits (see `turn`).
pub fn rotate_right(game: &mut Game)
    requires
        turn_addressable(old(game).grid(), old(game).pos, turned_right(old(game).block)),
    ensures
        (final(game).pos, final(game).block) == turn(old(game).grid(), old(game).pos, old(game).block, turned_right(old(game).block)),
        final(game).field == old(game).field,
        same_pieces(final(game), old(game)),
{
    let new_shape = turn_right_shape(&game.block);
    if !is_collision(&game.field, &game.pos, &new_shape) {
        game.block = new_shape;
    } else if let Ok(new_pos) = super_rotation(&game.field, &game.pos, &new_shape) {
        game.pos = new_pos;
        game.block = new_shape;
    }
}

/// Whether a turn into `turned` can be carried out without overflow (see
/// `turn_addressable`).
pub fn can_turn(field: &Field, pos: &Position, turned: &BlockShape) -> (r: bool)
    ensures
        r == turn_addressable(field.deep_view(), *pos, *turned),
{
    if pos.x > usize::MAX - 3 || pos.y > usize::MAX - 3 {
        return false;
    }
    if !is_collision(field, pos, turned) {
        return true;
    }
    let ghost c = kick_candidates(*pos);
    let up = Position { x: pos.x, y: if pos.y >= 1 { pos.y - 1 } else { pos.y } };
    assert(up == c[0]);
    if !is_collision(field, &up, turned) {
        return true;
    }
    if pos.x > usize::MAX - 4 {
        return false;
    }
    let right = Position { x: pos.x + 1, y: pos.y };
    assert(right == c[1]);
    if !is_collision(field, &right, turned) {
        return true;
    }
    pos.y <= usize::MAX - 4
}

/// `after` shows the next piece dealt from `before`: it stands at the spawn position, it
/// was the first coming piece, the coming pieces move up by one and the last place is
/// refilled from the rest of the bag, or, when the bag is used up, from a new bag whose
/// other six pieces become the rest of the bag.
pub open spec fn dealt(before: &Game, after: &Game) -> bool {
    &&& after.pos == spawn_position()
    &&& after.block == before.next@[0]
    &&& after.next@.len() == before.next@.len()
    &&& after.next@.drop_last() == before.next@.drop_first()
    &&& if before.next_buf@.len() > 0 {
        &&& after.next@.last() == before.next_buf@[0]
        &&& after.next_buf@ == before.next_buf@.drop_first()
    } else {
        is_bag(seq![after.next@.last()] + after.next_buf@)
    }
}

/// Deals the next piece (see `dealt`); fails when it does not fit where it appears.
pub fn spawn_block(game: &mut Game) -> (r: Result<(), ()>)
    requires
        old(game).next@.len() > 0,
    ensures
        dealt(old(game), final(game)),
        r is Err <==> !free_at(final(game).grid(), spawn_position(), final(game).block),
        final(game).field == old(game).field,
        final(game).hold == old(game).hold,
        final(game).holded == old(game).holded,
{
    game.pos = Position::init();
    game.block = game.next.pop_front().unwrap();
    if let Some(next) = game.next_buf.pop_front() {
        game.next.push_back(next);
    } else {
        game.next_buf = gen_block();
        let ghost bag = game.next_buf@;
        let first = game.next_buf.pop_front().unwrap();
        game.next.push_back(first);
        proof {
            assert(seq![first] + game.next_buf@ =~= bag);
        }
    }
    proof {
        assert(game.next@.drop_last() =~= old(game).next@.drop_first());
    }
    if is_collision(&game.field, &game.pos, &game.block) {
        Err(())
    } else {
        Ok(())
    }
}

/// `after` is `before` once the falling piece was put aside (see `hold`).
pub open spec fn held(before: &Game, after: &Game) -> bool {
    if before.holded {
        &&& after.field == before.field
        &&& after.pos == before.pos
        &&& after.block == before.block
        &&& same_pieces(after, before)
    } else {
        &&& after.holded
        &&& after.field == before.field
        &&& after.hold == Some(before.block)
        &&& match before.hold {
            Some(h) => {
                &&& after.block == h
                &&& after.pos == spawn_position()
                &&& after.next@ == before.next@
                &&& after.next_buf@ == before.next_buf@
            },
            None => dealt(before, after),
        }
    }
}

/// Puts the falling piece aside. The first time, the next piece is dealt in its place;
/// later, it swaps places with the piece put aside, which starts again from the spawn
/// position. Only once per piece: when a piece was already put aside since the last
/// landing, nothing changes.
pub fn hold(game: &mut Game)
    requires
        !old(game).holded && old(game).hold is None ==> old(game).next@.len() > 0,
    ensures
        held(old(game), final(game)),
{
    if game.holded {
        return;
    }
    if let Some(mut hold) = game.hold {
        std::mem::swap(&mut hold, &mut game.block);
        game.hold = Some(hold);
        game.pos = Position::init();
    } else {
        game.hold = Some(game.block);
        let _ = spawn_block(game);
    }
    game.holded = true;
}

/// `after` is `before` once its piece, standing at `at`, has landed (see `landing`);
/// `ok` tells whether the next piece fitted.
pub open spec fn landed(before: &Game, after: &Game, at: Position, ok: bool) -> bool {
    &&& after.grid() == cleared(stamped(before.grid(), at.x as int, at.y as int, before.block))
    &&& dealt(before, after)
    &&& after.hold == before.hold
    &&& !ok <==> !free_at(after.grid(), spawn_position(), after.block)
    &&& after.holded == (if ok { false } else { before.holded })
}

/// What happens when the piece lands: it is painted into the field, full lines are
/// cleared, and the next piece is dealt. Fails when the new piece does not fit; otherwise
/// a piece may be put aside again.
pub fn landing(game: &mut Game) -> (r: Result<(), ()>)
    requires
        fits(old(game).pos.x as int, old(game).pos.y as int, old(game).block),
        old(game).next@.len() > 0,
    ensures
        landed(old(game), final(game), old(game).pos, r is Ok),
{
    fix_block(game);
    erase_line(&mut game.field);
    spawn_block(game)?;
    game.holded = false;
    Ok(())
}

/// The field can be drawn: the piece lies on the field, dropping it ends, and it lies on
/// the field where it comes to rest.
pub open spec fn renderable(game: &Game) -> bool {
    &&& addressable(game.pos)
    &&& fits(game.pos.x as int, game.pos.y as int, game.block)
    &&& can_land(game.grid(), game.pos.x as int, game.pos.y as int, game.block)
    &&& fits(game.pos.x as int, drop_row(game.grid(), game.pos.x as int, game.pos.y as int, game.block), game.block)
}

/// The drawn field: the falling piece painted where it stands, then the drop preview
/// painted where it would come to rest. `None` when it cannot be drawn (see `renderable`).
pub fn render_field(game: &Game) -> (buf: Option<Field>)
    ensures
        buf is Some <==> renderable(game),
        buf matches Some(b) ==> b.deep_view() == shadowed(
            stamped(game.grid(), game.pos.x as int, game.pos.y as int, game.block),
            game.pos.x as int,
            drop_row(game.grid(), game.pos.x as int, game.pos.y as int, game.block),
            game.block,
        ),
{
    if game.pos.x > usize::MAX - 3 || game.pos.y > usize::MAX - 3 {
        return None;
    }
    if !fits_at(&game.pos, &game.block) || !lands(&game.field, &game.pos, &game.block) {
        return None;
    }
    let ghost_pos = ghost_pos(&game.field, &game.pos, &game.block);
    if !fits_at(&ghost_pos, &game.block) {
        return None;
    }
    let mut field_buf: Field = game.field;
    paint(&mut field_buf, game.pos, game.block, false);
    paint(&mut field_buf, ghost_pos, game.block, true);
    Some(field_buf)
}

impl Game {
    /// A new game: the empty field, two fresh bags, and the first piece of the first bag
    /// dealt.
    pub fn new() -> (game: Game)
        ensures
            game.field == DEFAULT_FIELD,
            game.pos == spawn_position(),
            game.hold is None,
            !game.holded,
            game.next@.len() == 7,
            is_bag(seq![game.block] + game.next@.take(6)),
            is_bag(seq![game.next@[6]] + game.next_buf@),
    {
        let k = random_below(7);
        let mut game = Game {
            field: DEFAULT_FIELD,
            pos: Position::init(),
            block: BLOCKS[k],
            hold: None,
            holded: false,
            next: gen_block(),
            next_buf: gen_block(),
        };
        let ghost first = game.next@;
        let ghost second = game.next_buf@;
        let _ = spawn_block(&mut game);
        proof {
            assert(seq![game.block] + game.next@.take(6) =~= first);
            assert(seq![game.next@[6]] + game.next_buf@ =~= second);
        }
        game
    }
}

/// A copy of the coming pieces.
fn copy_queue(q: &VecDeque<BlockShape>) -> (r: VecDeque<BlockShape>)
    ensures
        r@ == q@,
{
    let mut r: VecDeque<BlockShape> = VecDeque::new();
    let mut i: usize = 0;
    while i < q.len()
        invariant
            i <= q@.len(),
            r@ == q@.take(i as int),
        decreases q@.len() - i,
    {
        let b = q[i];
        r.push_back(b);
        i += 1;
        assert(r@ =~= q@.take(i as int));
    }
    assert(q@.take(q@.len() as int) =~= q@);
    r
}

impl Clone for Game {
    fn clone(&self) -> (r: Game)
        ensures
            r.field == self.field,
            r.pos == self.pos,
            r.block == self.block,
            same_pieces(&r, self),
    {
        Game {
            field: self.field,
            pos: self.pos,
            block: self.block,
            hold: self.hold,
            holded: self.holded,
            next: copy_queue(&self.next),
            next_buf: copy_queue(&self.next_buf),
        }
    }
}

/// Whether every filled cell of `block` at `pos` lies on the field.
pub fn fits_at(pos: &Position, block: &BlockShape) -> (r: bool)
    requires
        addressable(*pos),
    ensures
        r == fits(pos.x as int, pos.y as int, *block),
{
    let mut y: usize = 0;
    while y < BLOCK_SIZE
        invariant
            y <= 4,
            addressable(*pos),
            forall|by: int, bx: int| 0 <= by < y && 0 <= bx < 4 && #[trigger] block[by][bx] != NONE
                ==> on_field(by + pos.y, bx + pos.x),
        decreases 4 - y,
    {
        let mut x: usize = 0;
        while x < BLOCK_SIZE
            invariant
                y < 4,
                x <= 4,
                addressable(*pos),
                forall|by: int, bx: int| 0 <= by < y && 0 <= bx < 4 && #[trigger] block[by][bx] != NONE
                    ==> on_field(by + pos.y, bx + pos.x),
                forall|bx: int| 0 <= bx < x && #[trigger] block[y as int][bx] != NONE
                    ==> on_field(y + pos.y, bx + pos.x),
            decreases 4 - x,
        {
            if block[y][x] != NONE && !(y + pos.y < FIELD_HEIGHT && x + pos.x < FIELD_WIDTH) {
                assert(block[y as int][x as int] != NONE);
                return false;
            }
            x += 1;
        }
        y += 1;
    }
    true
}

/// Whether `block`, dropped from `pos`, meets an occupied cell somewhere below.
pub fn lands(field: &Field, pos: &Position, block: &BlockShape) -> (r: bool)
    requires
        addressable(*pos),
    ensures
        r == can_land(field.deep_view(), pos.x as int, pos.y as int, *block),
{
    let ghost g = field.deep_view();
    if pos.y >= FIELD_HEIGHT - 1 {
        proof {
            assert forall|w: int| pos.y < w implies !#[trigger] overlaps(g, pos.x as int, w, *block) by {
                if overlaps(g, pos.x as int, w, *block) {
                    lemma_overlap_row_bound(g, pos.x as int, w, *block);
                }
            }
        }
        return false;
    }
    let mut w: usize = pos.y + 1;
    while w < FIELD_HEIGHT
        invariant
            pos.y < w <= FIELD_HEIGHT,
            addressable(*pos),
            g == field.deep_view(),
            forall|k: int| pos.y < k < w ==> !#[trigger] overlaps(g, pos.x as int, k, *block),
        decreases FIELD_HEIGHT - w,
    {
        let p = Position { x: pos.x, y: w };
        if is_collision(field, &p, block) {
            return true;
        }
        w += 1;
    }
    proof {
        assert forall|k: int| pos.y < k implies !#[trigger] overlaps(g, pos.x as int, k, *block) by {
            if overlaps(g, pos.x as int, k, *block) {
                lemma_overlap_row_bound(g, pos.x as int, k, *block);
            }
        }
    }
    false
}

/// `g` has the shape of a field: 22 rows of 15 cells.
pub open spec fn is_grid(g: Grid) -> bool {
    &&& g.len() == FIELD_HEIGHT
    &&& forall|r: int| 0 <= r < FIELD_HEIGHT ==> #[trigger] g[r].len() == FIELD_WIDTH
}

/// Turning a piece clockwise and then anticlockwise, or the other way round, gives the
/// piece back.
pub proof fn lemma_turns_undo(s: BlockShape)
    ensures
        turned_left(turned_right(s)) == s,
        turned_right(turned_left(s)) == s,
{
    let a = turned_left(turned_right(s));
    let b = turned_right(turned_left(s));
    assert forall|i: int| 0 <= i < 4 implies a[i] =~= s[i] && b[i] =~= s[i] by {}
    assert(a =~= s);
    assert(b =~= s);
}

/// Four clockwise turns give the piece back.
pub proof fn lemma_four_turns(s: BlockShape)
    ensures
        turned_right(turned_right(turned_right(turned_right(s)))) == s,
{
    let a = turned_right(turned_right(turned_right(turned_right(s))));
    assert forall|i: int| 0 <= i < 4 implies a[i] =~= s[i] by {}
    assert(a =~= s);
}

/// A piece painted into the field blocks the very place where it was painted, as soon as
/// it has a filled cell.
pub proof fn lemma_fixed_piece_blocks(g: Grid, x: int, y: int, b: BlockShape, by: int, bx: int)
    requires
        is_grid(g),
        fits(x, y, b),
        0 <= by < 4,
        0 <= bx < 4,
        b[by][bx] != NONE,
    ensures
        overlaps(stamped(g, x, y, b), x, y, b),
{
    assert(cell_hits(stamped(g, x, y, b), x, y, b, by, bx));
}

/// A move never puts a free piece onto the stack: `move_block` takes the target only where
/// the piece is free.
pub proof fn lemma_move_keeps_piece_free(g: Grid, pos: Position, target: Position, b: BlockShape)
    requires
        free_at(g, pos, b),
    ensures
        free_at(g, if overlaps(g, target.x as int, target.y as int, b) { pos } else { target }, b),
{
}

/// A turn never puts a free piece onto the stack.
pub proof fn lemma_turn_keeps_piece_free(g: Grid, pos: Position, b: BlockShape, t: BlockShape)
    requires
        free_at(g, pos, b),
    ensures
        free_at(g, turn(g, pos, b, t).0, turn(g, pos, b, t).1),
{
}

/// A drop never puts a free piece onto the stack.
pub proof fn lemma_drop_keeps_piece_free(g: Grid, x: int, y0: int, y: int, b: BlockShape)
    requires
        !overlaps(g, x, y0, b),
        rests_at(g, x, y0, y, b),
    ensures
        !overlaps(g, x, y, b),
{
}

/// Once a piece was put aside, putting aside again before it lands changes nothing.
pub proof fn lemma_hold_once_per_piece(a: &Game, b: &Game, c: &Game)
    requires
        held(a, b),
        held(b, c),
    ensures
        c.field == b.field,
        c.pos == b.pos,
        c.block == b.block,
        same_pieces(c, b),
{
}

/// Dealing keeps the number of coming pieces.
pub proof fn lemma_deal_keeps_queue_length(before: &Game, after: &Game)
    requires
        dealt(before, after),
    ensures
        after.next@.len() == before.next@.len(),
{
}

proof fn lemma_filter_keeps_all(s: Grid)
    requires
        forall|i: int| 0 <= i < s.len() ==> !full_row(#[trigger] s[i]),
    ensures
        s.filter(not_full()) == s,
    decreases s.len(),
{
    reveal(Seq::filter);
    if s.len() > 0 {
        lemma_filter_keeps_all(s.drop_last());
        assert(s.drop_last().push(s.last()) =~= s);
    }
}

/// The rows of the cleared field, row 1 to row 19: copies of row 1 on top of the rows of
/// 2 to 19 that were not full.
proof fn lemma_cleared_row(g: Grid, y: int)
    requires
        is_grid(g),
        1 <= y < FIELD_HEIGHT - 2,
    ensures
        cleared(g).len() == FIELD_HEIGHT,
        cleared(g)[y] == g[1] || (exists|j: int| 2 <= j < FIELD_HEIGHT - 2 && cleared(g)[y] == #[trigger] g[j]
            && !full_row(g[j])),
{
    broadcast use vstd::seq_lib::group_filter_ensures;
    let c = cleared(g);
    let s = g.subrange(2, 20);
    let k = kept_rows(g, FIELD_HEIGHT - 2);
    s.lemma_filter_len(not_full());
    let n = (19 - k.len()) as nat;
    if y - 1 >= n {
        let i = y - 1 - n;
        assert(c[y] == k[i]);
        s.lemma_filter_pred(not_full(), i);
        assert(k.contains(k[i]));
        s.lemma_filter_contains_rev(not_full(), k[i]);
        let j = choose|j: int| 0 <= j < s.len() && s[j] == k[i];
        assert(s[j] == g[j + 2]);
    }
}

/// After clearing, rows 1 to 19 hold no full line, unless row 1 was full (row 1 is never
/// cleared).
pub proof fn lemma_cleared_has_no_full_row(g: Grid)
    requires
        is_grid(g),
        !full_row(g[1]),
    ensures
        forall|y: int| 1 <= y < FIELD_HEIGHT - 2 ==> !#[trigger] full_row(cleared(g)[y]),
{
    assert forall|y: int| 1 <= y < FIELD_HEIGHT - 2 implies !#[trigger] full_row(cleared(g)[y]) by {
        lemma_cleared_row(g, y);
    }
}

/// Clearing a field whose rows 2 to 19 hold no full line changes nothing.
pub proof fn lemma_clearing_without_full_lines_changes_nothing(g: Grid)
    requires
        is_grid(g),
        forall|y: int| 2 <= y < FIELD_HEIGHT - 2 ==> !#[trigger] full_row(g[y]),
    ensures
        cleared(g) == g,
{
    let s = g.subrange(2, 20);
    assert forall|i: int| 0 <= i < s.len() implies !full_row(#[trigger] s[i]) by {
        assert(s[i] == g[i + 2]);
    }
    lemma_filter_keeps_all(s);
    assert(kept_rows(g, FIELD_HEIGHT - 2) == s);
    assert(cleared_rows(g, FIELD_HEIGHT - 2) =~= seq![g[1]] + s);
    assert(cleared(g) =~= g);
}

/// Clearing twice clears no more than clearing once, as long as row 1 is not full.
pub proof fn lemma_clearing_twice_is_clearing_once(g: Grid)
    requires
        is_grid(g),
        !full_row(g[1]),
    ensures
        cleared(cleared(g)) == cleared(g),
{
    let c = cleared(g);
    lemma_cleared_row(g, 1);
    assert forall|r: int| 0 <= r < FIELD_HEIGHT implies #[trigger] c[r].len() == FIELD_WIDTH by {
        if 1 <= r < FIELD_HEIGHT - 2 {
            lemma_cleared_row(g, r);
        }
    }
    lemma_cleared_has_no_full_row(g);
    lemma_clearing_without_full_lines_changes_nothing(c);
}

/// Clearing keeps the walls and the floor: rows 0, 20 and 21 stay as they were, and when
/// columns 1 and 13 of rows 0 to 19 and columns 1 to 13 of row 20 are filled, they still are.
pub proof fn lemma_clearing_keeps_walls(g: Grid)
    requires
        is_grid(g),
        forall|r: int| 0 <= r < FIELD_HEIGHT - 2 ==> #[trigger] g[r][1] != NONE && g[r][FIELD_WIDTH - 2] != NONE,
        forall|c: int| 1 <= c < FIELD_WIDTH - 1 ==> #[trigger] g[FIELD_HEIGHT - 2][c] != NONE,
    ensures
        cleared(g)[0] == g[0],
        cleared(g)[FIELD_HEIGHT - 2] == g[FIELD_HEIGHT - 2],
        cleared(g)[FIELD_HEIGHT - 1] == g[FIELD_HEIGHT - 1],
        forall|r: int| 0 <= r < FIELD_HEIGHT - 2 ==> #[trigger] cleared(g)[r][1] != NONE
            && cleared(g)[r][FIELD_WIDTH - 2] != NONE,
        forall|c: int| 1 <= c < FIELD_WIDTH - 1 ==> #[trigger] cleared(g)[FIELD_HEIGHT - 2][c] != NONE,
{
    let c = cleared(g);
    lemma_cleared_row(g, 1);
    assert forall|r: int| 0 <= r < FIELD_HEIGHT - 2 implies #[trigger] c[r][1] != NONE
        && c[r][FIELD_WIDTH - 2] != NONE by {
        if 1 <= r {
            lemma_cleared_row(g, r);
        }
    }
}

/// A clockwise turn followed by an anticlockwise one gives back the piece and its place,
/// when the piece fits both ways where it stands.
pub proof fn lemma_turn_right_then_left(g: Grid, pos: Position, b: BlockShape)
    requires
        free_at(g, pos, b),
        free_at(g, pos, turned_right(b)),
    ensures
        ({
            let (p1, b1) = turn(g, pos, b, turned_right(b));
            turn(g, p1, b1, turned_left(b1)) == (pos, b)
        }),
{
    lemma_turns_undo(b);
}

/// Four clockwise turns give back the piece and its place, when the piece fits in all four
/// orientations where it stands.
pub proof fn lemma_four_turns_in_place(g: Grid, pos: Position, b: BlockShape)
    requires
        free_at(g, pos, turned_right(b)),
        free_at(g, pos, turned_right(turned_right(b))),
        free_at(g, pos, turned_right(turned_right(turned_right(b)))),
        free_at(g, pos, turned_right(turned_right(turned_right(turned_right(b))))),
    ensures
        ({
            let (p1, b1) = turn(g, pos, b, turned_right(b));
            let (p2, b2) = turn(g, p1, b1, turned_right(b1));
            let (p3, b3) = turn(g, p2, b2, turned_right(b2));
            turn(g, p3, b3, turned_right(b3)) == (pos, b)
        }),
{
    lemma_four_turns(b);
}

/// A row among rows 2 to 19 with an empty playing cell is never cleared: it is still among
/// rows 1 to 19 of the cleared field.
pub proof fn lemma_row_with_gap_is_kept(g: Grid, y: int)
    requires
        is_grid(g),
        2 <= y < FIELD_HEIGHT - 2,
        has_gap(g[y]),
    ensures
        cleared(g).subrange(1, FIELD_HEIGHT - 2).contains(g[y]),
{
    broadcast use vstd::seq_lib::group_filter_ensures;
    let s = g.subrange(2, 20);
    let x = choose|x: int| 2 <= x < FIELD_WIDTH - 2 && #[trigger] g[y][x] == NONE;
    assert(s[y - 2] == g[y]);
    assert(!full_row(g[y]));
    s.lemma_filter_contains(not_full(), y - 2);
    let k = kept_rows(g, FIELD_HEIGHT - 2);
    let i = choose|i: int| 0 <= i < k.len() && k[i] == g[y];
    s.lemma_filter_len(not_full());
    let n = 19 - k.len();
    let c = cleared(g);
    assert(c[1 + n + i] == k[i]);
    assert(c.subrange(1, FIELD_HEIGHT - 2)[n + i] == g[y]);
}

/// When each of rows 2 to 19 has an empty playing cell, clearing changes nothing.
pub proof fn lemma_rows_with_gaps_stay(g: Grid)
    requires
        is_grid(g),
        forall|y: int| 2 <= y < FIELD_HEIGHT - 2 ==> #[trigger] has_gap(g[y]),
    ensures
        cleared(g) == g,
{
    assert forall|y: int| 2 <= y < FIELD_HEIGHT - 2 implies !#[trigger] full_row(g[y]) by {
        assert(has_gap(g[y]));
        let x = choose|x: int| 2 <= x < FIELD_WIDTH - 2 && #[trigger] g[y][x] == NONE;
    }
    lemma_clearing_without_full_lines_changes_nothing(g);
}

/// A clockwise quarter turn of the 4 by 4 box: cell (`y`, `x`) of the turned piece is cell
/// (3 - `x`, `y`) of the piece; anticlockwise, it is cell (`x`, 3 - `y`).
pub proof fn lemma_turn_cells(s: BlockShape, y: int, x: int)
    requires
        0 <= y < 4,
        0 <= x < 4,
    ensures
        turned_right(s)[y][x] == s[3 - x][y],
        turned_left(s)[y][x] == s[x][3 - y],
{
}

/// The kick tries up, right, down, then left: blocked in place and above, right of and
/// below its place, a turned piece that fits one column to the left goes there.
pub proof fn lemma_kick_left_last(g: Grid, pos: Position, b: BlockShape)
    requires
        pos.x >= 1,
        pos.x + 1 <= usize::MAX,
        pos.y + 1 <= usize::MAX,
        overlaps(g, pos.x as int, if pos.y >= 1 { pos.y - 1 } else { pos.y as int }, b),
        overlaps(g, pos.x + 1, pos.y as int, b),
        overlaps(g, pos.x as int, pos.y + 1, b),
        !overlaps(g, pos.x - 1, pos.y as int, b),
    ensures
        kick(g, pos, b) == Some(Position { x: (pos.x - 1) as usize, y: pos.y }),
{
}

/// The kick takes the first free one of up, right, down and left, in that order, and finds
/// none only when all four are blocked.
pub proof fn lemma_kick_order(g: Grid, pos: Position, b: BlockShape)
    requires
        pos.x + 1 <= usize::MAX,
        pos.y + 1 <= usize::MAX,
    ensures
        ({
            let up = Position { x: pos.x, y: if pos.y >= 1 { (pos.y - 1) as usize } else { pos.y } };
            let right = Position { x: (pos.x + 1) as usize, y: pos.y };
            let down = Position { x: pos.x, y: (pos.y + 1) as usize };
            let left = Position { x: if pos.x >= 1 { (pos.x - 1) as usize } else { pos.x }, y: pos.y };
            &&& !overlaps(g, up.x as int, up.y as int, b) ==> kick(g, pos, b) == Some(up)
            &&& overlaps(g, up.x as int, up.y as int, b) && !overlaps(g, right.x as int, right.y as int, b)
                ==> kick(g, pos, b) == Some(right)
            &&& overlaps(g, up.x as int, up.y as int, b) && overlaps(g, right.x as int, right.y as int, b)
                && !overlaps(g, down.x as int, down.y as int, b) ==> kick(g, pos, b) == Some(down)
            &&& overlaps(g, up.x as int, up.y as int, b) && overlaps(g, right.x as int, right.y as int, b)
                && overlaps(g, down.x as int, down.y as int, b) && !overlaps(g, left.x as int, left.y as int, b)
                ==> kick(g, pos, b) == Some(left)
            &&& kick(g, pos, b) is None <==> overlaps(g, up.x as int, up.y as int, b)
                && overlaps(g, right.x as int, right.y as int, b) && overlaps(g, down.x as int, down.y as int, b)
                && overlaps(g, left.x as int, left.y as int, b)
        }),
{
}

} // verus!
