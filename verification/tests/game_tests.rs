use std::collections::VecDeque;

use tetris::block::{bag_of, gen_block, BlockShape, BLOCKS};
use tetris::block_kind::{GHOST, I, NONE, O, T, WALL};
use tetris::game::{
    erase_line, fits_at, fix_block, ghost_pos, hard_drop, hold, is_collision, landing, lands,
    move_block, render_field, rotate_left, rotate_right, spawn_block, super_rotation, Field,
    Game, Position, DEFAULT_FIELD, FIELD_HEIGHT, FIELD_WIDTH, NEXT_LENGTH,
};

const I_SHAPE: usize = 0;
const O_SHAPE: usize = 1;
const S_SHAPE: usize = 2;
const T_SHAPE: usize = 6;

fn game_with(block: BlockShape, next: Vec<BlockShape>, next_buf: Vec<BlockShape>) -> Game {
    Game {
        field: DEFAULT_FIELD,
        pos: Position::init(),
        block,
        hold: None,
        holded: false,
        next: VecDeque::from(next),
        next_buf: VecDeque::from(next_buf),
    }
}

fn full_row_field(rows: &[usize]) -> Field {
    let mut field = DEFAULT_FIELD;
    for &y in rows {
        for x in 2..FIELD_WIDTH - 2 {
            field[y][x] = T;
        }
    }
    field
}

#[test]
fn position_init_is_spawn_point() {
    let p = Position::init();
    assert_eq!((p.x, p.y), (5, 0));
}

#[test]
fn default_field_has_walls_and_floor() {
    assert_eq!(FIELD_WIDTH, 15);
    assert_eq!(FIELD_HEIGHT, 22);
    assert_eq!(NEXT_LENGTH, 3);
    for y in 0..=20 {
        assert_eq!(DEFAULT_FIELD[y][1], WALL);
        assert_eq!(DEFAULT_FIELD[y][13], WALL);
        assert_eq!(DEFAULT_FIELD[y][0], NONE);
        assert_eq!(DEFAULT_FIELD[y][14], NONE);
    }
    for x in 1..=13 {
        assert_eq!(DEFAULT_FIELD[20][x], WALL);
    }
    for x in 0..15 {
        assert_eq!(DEFAULT_FIELD[21][x], NONE);
    }
    for y in 0..20 {
        for x in 2..13 {
            assert_eq!(DEFAULT_FIELD[y][x], NONE);
        }
    }
}

#[test]
fn collision_with_walls_floor_and_stack() {
    let o = BLOCKS[O_SHAPE];
    // The O piece fills box columns 1 and 2, rows 1 and 2.
    assert!(!is_collision(&DEFAULT_FIELD, &Position { x: 5, y: 0 }, &o));
    assert!(is_collision(&DEFAULT_FIELD, &Position { x: 0, y: 0 }, &o));
    assert!(!is_collision(&DEFAULT_FIELD, &Position { x: 1, y: 0 }, &o));
    assert!(is_collision(&DEFAULT_FIELD, &Position { x: 11, y: 0 }, &o));
    assert!(!is_collision(&DEFAULT_FIELD, &Position { x: 10, y: 0 }, &o));
    assert!(is_collision(&DEFAULT_FIELD, &Position { x: 5, y: 18 }, &o));
    assert!(!is_collision(&DEFAULT_FIELD, &Position { x: 5, y: 17 }, &o));
    let mut field = DEFAULT_FIELD;
    field[10][7] = T;
    assert!(is_collision(&field, &Position { x: 5, y: 8 }, &o));
    assert!(!is_collision(&field, &Position { x: 5, y: 10 }, &o));
    // Cells that fall off the field do not count.
    assert!(!is_collision(&DEFAULT_FIELD, &Position { x: 20, y: 30 }, &o));
}

#[test]
fn move_block_moves_only_where_free() {
    let mut game = game_with(BLOCKS[O_SHAPE], vec![BLOCKS[I_SHAPE]], vec![]);
    move_block(&mut game, Position { x: 4, y: 0 });
    assert_eq!((game.pos.x, game.pos.y), (4, 0));
    move_block(&mut game, Position { x: 0, y: 0 });
    assert_eq!((game.pos.x, game.pos.y), (4, 0));
    move_block(&mut game, Position { x: 4, y: 17 });
    assert_eq!((game.pos.x, game.pos.y), (4, 17));
    move_block(&mut game, Position { x: 4, y: 18 });
    assert_eq!((game.pos.x, game.pos.y), (4, 17));
}

#[test]
fn fix_block_paints_the_piece() {
    let mut game = game_with(BLOCKS[T_SHAPE], vec![], vec![]);
    game.pos = Position { x: 3, y: 10 };
    fix_block(&mut game);
    // T: row 1 column 1, row 2 columns 0 to 2.
    assert_eq!(game.field[11][4], T);
    assert_eq!(game.field[12][3], T);
    assert_eq!(game.field[12][4], T);
    assert_eq!(game.field[12][5], T);
    assert_eq!(game.field[11][3], NONE);
    assert_eq!(game.field[11][5], NONE);
    let mut painted = 0;
    for y in 0..20 {
        for x in 2..13 {
            if game.field[y][x] != NONE {
                painted += 1;
            }
        }
    }
    assert_eq!(painted, 4);
    assert_eq!((game.pos.x, game.pos.y), (3, 10));
}

#[test]
fn erase_line_removes_a_full_bottom_row() {
    let mut field = full_row_field(&[19]);
    field[18][4] = O;
    field[17][6] = I;
    erase_line(&mut field);
    assert_eq!(field[19][4], O);
    assert_eq!(field[18][6], I);
    assert_eq!(field[17][6], NONE);
    for x in 2..13 {
        if x != 4 {
            assert_eq!(field[19][x], NONE);
        }
    }
    assert_eq!(field[20], DEFAULT_FIELD[20]);
    assert_eq!(field[21], DEFAULT_FIELD[21]);
}

#[test]
fn erase_line_removes_several_rows() {
    let mut field = full_row_field(&[19, 17]);
    field[18][3] = S_SHAPE + 3;
    field[16][9] = I;
    erase_line(&mut field);
    assert_eq!(field[19][3], S_SHAPE + 3);
    assert_eq!(field[18][9], I);
    for y in 2..18 {
        for x in 2..13 {
            assert_eq!(field[y][x], NONE);
        }
    }
}

#[test]
fn erase_line_keeps_a_full_row_one_and_copies_it_down() {
    let mut field = full_row_field(&[1, 19]);
    erase_line(&mut field);
    // Row 1 is never cleared, and the rows above a cleared row (row 1 among them) move
    // down, so row 1 now also stands in row 2.
    for x in 2..13 {
        assert_eq!(field[1][x], T);
        assert_eq!(field[2][x], T);
        assert_eq!(field[19][x], NONE);
    }
}

#[test]
fn erase_line_leaves_other_fields_alone() {
    let mut field = DEFAULT_FIELD;
    field[19][2] = I;
    field[0][5] = O;
    let before = field;
    erase_line(&mut field);
    assert_eq!(field, before);
}

#[test]
fn turning_the_i_piece() {
    let mut game = game_with(BLOCKS[I_SHAPE], vec![], vec![]);
    rotate_right(&mut game);
    let vertical: BlockShape = [[0, I, 0, 0], [0, I, 0, 0], [0, I, 0, 0], [0, I, 0, 0]];
    assert_eq!(game.block, vertical);
    assert_eq!((game.pos.x, game.pos.y), (5, 0));
    rotate_left(&mut game);
    assert_eq!(game.block, BLOCKS[I_SHAPE]);
    rotate_left(&mut game);
    let left: BlockShape = [[0, 0, I, 0], [0, 0, I, 0], [0, 0, I, 0], [0, 0, I, 0]];
    assert_eq!(game.block, left);
}

#[test]
fn four_turns_give_the_piece_back() {
    for k in 0..7 {
        let mut game = game_with(BLOCKS[k], vec![], vec![]);
        game.pos = Position { x: 5, y: 5 };
        for _ in 0..4 {
            rotate_right(&mut game);
        }
        assert_eq!(game.block, BLOCKS[k]);
        rotate_right(&mut game);
        rotate_left(&mut game);
        assert_eq!(game.block, BLOCKS[k]);
        assert_eq!((game.pos.x, game.pos.y), (5, 5));
    }
}

#[test]
fn blocked_turn_kicks_up_first() {
    // The I piece lies on the floor; turned upright it would reach into the floor.
    let mut game = game_with(BLOCKS[I_SHAPE], vec![], vec![]);
    game.pos = Position { x: 5, y: 17 };
    rotate_right(&mut game);
    let vertical: BlockShape = [[0, I, 0, 0], [0, I, 0, 0], [0, I, 0, 0], [0, I, 0, 0]];
    assert_eq!(game.block, vertical);
    // Rows 17..=20 would hit the floor; one row up fits.
    assert_eq!((game.pos.x, game.pos.y), (5, 16));
}

#[test]
fn super_rotation_tries_up_right_down_left() {
    let vertical: BlockShape = [[0, 0, I, 0], [0, 0, I, 0], [0, 0, I, 0], [0, 0, I, 0]];
    let mut field = DEFAULT_FIELD;
    // Block up and right: the up position overlaps row 4, the right one column 8.
    field[4][7] = T;
    field[6][8] = T;
    let r = super_rotation(&field, &Position { x: 5, y: 5 }, &vertical);
    assert!(matches!(r, Ok(p) if p.x == 5 && p.y == 6));
    // Everything blocked: no position.
    let mut walled = DEFAULT_FIELD;
    for y in 0..20 {
        for x in 2..13 {
            walled[y][x] = T;
        }
    }
    assert!(super_rotation(&walled, &Position { x: 5, y: 5 }, &vertical).is_err());
    // At row 0 the "up" candidate is the position itself.
    let free = super_rotation(&DEFAULT_FIELD, &Position { x: 5, y: 0 }, &vertical);
    assert!(matches!(free, Ok(p) if p.x == 5 && p.y == 0));
}

#[test]
fn blocked_turn_with_no_room_changes_nothing() {
    let mut game = game_with(BLOCKS[I_SHAPE], vec![], vec![]);
    for y in 0..20 {
        for x in 2..13 {
            if y != 2 {
                game.field[y][x] = T;
            }
        }
    }
    game.pos = Position { x: 5, y: 0 };
    rotate_right(&mut game);
    assert_eq!(game.block, BLOCKS[I_SHAPE]);
    assert_eq!((game.pos.x, game.pos.y), (5, 0));
}

#[test]
fn hard_drop_lands_on_the_floor_and_on_the_stack() {
    let mut game = game_with(BLOCKS[I_SHAPE], vec![], vec![]);
    hard_drop(&mut game);
    // The I piece lies in row 2 of its box; row 19 is the lowest free row.
    assert_eq!((game.pos.x, game.pos.y), (5, 17));
    let mut game = game_with(BLOCKS[O_SHAPE], vec![], vec![]);
    game.field[12][6] = T;
    hard_drop(&mut game);
    assert_eq!((game.pos.x, game.pos.y), (5, 9));
}

#[test]
fn ghost_position_is_where_a_hard_drop_ends() {
    let mut game = game_with(BLOCKS[S_SHAPE], vec![], vec![]);
    game.field[15][5] = T;
    game.pos = Position { x: 4, y: 2 };
    let ghost = ghost_pos(&game.field, &game.pos, &game.block);
    hard_drop(&mut game);
    assert_eq!((ghost.x, ghost.y), (game.pos.x, game.pos.y));
}

#[test]
fn lands_and_fits_at() {
    let o = BLOCKS[O_SHAPE];
    assert!(lands(&DEFAULT_FIELD, &Position { x: 5, y: 0 }, &o));
    // Beside the walls, in the sentinel column, nothing ever stops the piece.
    let single: BlockShape = [[I, 0, 0, 0], [0, 0, 0, 0], [0, 0, 0, 0], [0, 0, 0, 0]];
    assert!(!lands(&DEFAULT_FIELD, &Position { x: 14, y: 0 }, &single));
    assert!(!lands(&DEFAULT_FIELD, &Position { x: 5, y: 25 }, &o));
    assert!(fits_at(&Position { x: 5, y: 0 }, &o));
    assert!(fits_at(&Position { x: 12, y: 19 }, &o));
    assert!(!fits_at(&Position { x: 12, y: 20 }, &o));
    assert!(!fits_at(&Position { x: 14, y: 0 }, &o));
}

#[test]
fn spawn_block_takes_from_next_and_refills_from_the_bag() {
    let mut game = game_with(
        BLOCKS[O_SHAPE],
        vec![BLOCKS[I_SHAPE], BLOCKS[S_SHAPE]],
        vec![BLOCKS[T_SHAPE]],
    );
    game.pos = Position { x: 2, y: 9 };
    assert!(spawn_block(&mut game).is_ok());
    assert_eq!(game.block, BLOCKS[I_SHAPE]);
    assert_eq!((game.pos.x, game.pos.y), (5, 0));
    assert_eq!(Vec::from(game.next.clone()), vec![BLOCKS[S_SHAPE], BLOCKS[T_SHAPE]]);
    assert!(game.next_buf.is_empty());
    // The bag is used up: a new one is dealt, its first piece joins the queue.
    assert!(spawn_block(&mut game).is_ok());
    assert_eq!(game.block, BLOCKS[S_SHAPE]);
    assert_eq!(game.next.len(), 2);
    assert_eq!(game.next[0], BLOCKS[T_SHAPE]);
    assert_eq!(game.next_buf.len(), 6);
    let mut bag: Vec<BlockShape> = vec![game.next[1]];
    bag.extend(game.next_buf.iter().copied());
    for k in 0..7 {
        assert!(bag.contains(&BLOCKS[k]));
    }
}

#[test]
fn spawn_block_fails_when_the_new_piece_does_not_fit() {
    let mut game = game_with(BLOCKS[O_SHAPE], vec![BLOCKS[I_SHAPE]], vec![BLOCKS[O_SHAPE]]);
    game.field[2][7] = T;
    assert!(spawn_block(&mut game).is_err());
    assert_eq!(game.block, BLOCKS[I_SHAPE]);
}

#[test]
fn hold_puts_aside_then_swaps_once_per_piece() {
    let mut game = game_with(
        BLOCKS[T_SHAPE],
        vec![BLOCKS[I_SHAPE], BLOCKS[O_SHAPE]],
        vec![BLOCKS[S_SHAPE]],
    );
    hold(&mut game);
    assert_eq!(game.hold, Some(BLOCKS[T_SHAPE]));
    assert_eq!(game.block, BLOCKS[I_SHAPE]);
    assert!(game.holded);
    // A second hold for the same piece changes nothing.
    game.pos = Position { x: 3, y: 4 };
    hold(&mut game);
    assert_eq!(game.hold, Some(BLOCKS[T_SHAPE]));
    assert_eq!(game.block, BLOCKS[I_SHAPE]);
    assert_eq!((game.pos.x, game.pos.y), (3, 4));
    // After a landing, a hold swaps the pieces.
    game.holded = false;
    hold(&mut game);
    assert_eq!(game.hold, Some(BLOCKS[I_SHAPE]));
    assert_eq!(game.block, BLOCKS[T_SHAPE]);
    assert_eq!((game.pos.x, game.pos.y), (5, 0));
    assert!(game.holded);
    assert_eq!(game.next.len(), 2);
}

#[test]
fn landing_fixes_clears_and_deals() {
    let mut game = game_with(BLOCKS[I_SHAPE], vec![BLOCKS[O_SHAPE]], vec![BLOCKS[T_SHAPE]]);
    for x in 2..13 {
        if !(5..=8).contains(&x) {
            game.field[19][x] = T;
        }
    }
    game.field[18][2] = O;
    game.holded = true;
    hard_drop(&mut game);
    assert!(landing(&mut game).is_ok());
    // Row 19 was completed and cleared; row 18 moved down.
    assert_eq!(game.field[19][2], O);
    for x in 3..13 {
        assert_eq!(game.field[19][x], NONE);
    }
    assert_eq!(game.block, BLOCKS[O_SHAPE]);
    assert!(!game.holded);
    assert_eq!(Vec::from(game.next.clone()), vec![BLOCKS[T_SHAPE]]);
}

#[test]
fn landing_reports_a_blocked_spawn() {
    let mut game = game_with(BLOCKS[O_SHAPE], vec![BLOCKS[O_SHAPE]], vec![BLOCKS[O_SHAPE]]);
    game.holded = true;
    // The piece lands where the next one appears.
    game.pos = Position { x: 5, y: 0 };
    assert!(landing(&mut game).is_err());
    assert!(game.holded);
}

#[test]
fn render_field_shows_piece_and_preview() {
    let game = game_with(BLOCKS[O_SHAPE], vec![], vec![]);
    let buf = render_field(&game).unwrap();
    assert_eq!(buf[1][6], O);
    assert_eq!(buf[2][7], O);
    assert_eq!(buf[18][6], GHOST);
    assert_eq!(buf[19][7], GHOST);
    assert_eq!(buf[10][6], NONE);
    // A piece in the sentinel column never lands: nothing can be drawn.
    let mut lost = game_with(BLOCKS[O_SHAPE], vec![], vec![]);
    lost.block = [[I, 0, 0, 0], [0, 0, 0, 0], [0, 0, 0, 0], [0, 0, 0, 0]];
    lost.pos = Position { x: 14, y: 0 };
    assert!(render_field(&lost).is_none());
}

#[test]
fn render_field_preview_covers_a_piece_at_rest() {
    let mut game = game_with(BLOCKS[O_SHAPE], vec![], vec![]);
    game.pos = Position { x: 5, y: 17 };
    let buf = render_field(&game).unwrap();
    assert_eq!(buf[18][6], GHOST);
    assert_eq!(buf[19][7], GHOST);
}

#[test]
fn new_game_deals_from_two_bags() {
    let game = Game::new();
    assert_eq!(game.field, DEFAULT_FIELD);
    assert_eq!((game.pos.x, game.pos.y), (5, 0));
    assert!(game.hold.is_none());
    assert!(!game.holded);
    assert_eq!(game.next.len(), 7);
    assert_eq!(game.next_buf.len(), 6);
    let mut first: Vec<BlockShape> = vec![game.block];
    first.extend(game.next.iter().take(6).copied());
    let mut second: Vec<BlockShape> = vec![game.next[6]];
    second.extend(game.next_buf.iter().copied());
    for k in 0..7 {
        assert!(first.contains(&BLOCKS[k]));
        assert!(second.contains(&BLOCKS[k]));
    }
}

#[test]
fn bags_hold_each_piece_once_in_varying_order() {
    let mut orders = Vec::new();
    for _ in 0..30 {
        let bag: Vec<BlockShape> = Vec::from(gen_block());
        assert_eq!(bag.len(), 7);
        for k in 0..7 {
            assert_eq!(bag.iter().filter(|b| **b == BLOCKS[k]).count(), 1);
        }
        orders.push(bag);
    }
    let sorted: Vec<BlockShape> = BLOCKS.to_vec();
    assert!(orders.iter().any(|b| *b != sorted));
}

#[test]
fn clone_copies_the_whole_game() {
    let game = game_with(BLOCKS[T_SHAPE], vec![BLOCKS[I_SHAPE]], vec![BLOCKS[O_SHAPE]]);
    let copy = game.clone();
    assert_eq!(copy.field, game.field);
    assert_eq!(copy.block, game.block);
    assert_eq!(copy.next, game.next);
    assert_eq!(copy.next_buf, game.next_buf);
}

#[test]
fn bag_of_deals_the_named_pieces_in_order() {
    let bag: Vec<BlockShape> = Vec::from(bag_of(&vec![6, 5, 4, 3, 2, 1, 0]));
    let mut expected: Vec<BlockShape> = BLOCKS.to_vec();
    expected.reverse();
    assert_eq!(bag, expected);
    let repeated: Vec<BlockShape> = Vec::from(bag_of(&vec![1, 1, 1, 1, 1, 1, 1]));
    assert!(repeated.iter().all(|b| *b == BLOCKS[1]));
}
