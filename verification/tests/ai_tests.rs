use std::collections::VecDeque;

use tetris::ai::{erase_line_count, eval, field_height_max, search_is_defined, try_eval};
use tetris::block::{BlockShape, BLOCKS};
use tetris::block_kind::{I, NONE, T};
use tetris::ga::{gene, GenomeKind, GenoSeq, LINE_COUNT_MAX, POPULATION};
use tetris::game::{erase_line, Game, Position, DEFAULT_FIELD, FIELD_WIDTH};

fn game_with(block: BlockShape) -> Game {
    Game {
        field: DEFAULT_FIELD,
        pos: Position::init(),
        block,
        hold: None,
        holded: false,
        next: VecDeque::from(vec![BLOCKS[1]]),
        next_buf: VecDeque::from(vec![BLOCKS[2]]),
    }
}

#[test]
fn erase_line_count_counts_full_rows_one_to_nineteen() {
    let mut field = DEFAULT_FIELD;
    assert_eq!(erase_line_count(&field), 0);
    for &y in &[1usize, 7, 19] {
        for x in 2..FIELD_WIDTH - 2 {
            field[y][x] = T;
        }
    }
    // Row 0 is never counted.
    for x in 2..FIELD_WIDTH - 2 {
        field[0][x] = T;
    }
    field[12][3] = T;
    assert_eq!(erase_line_count(&field), 3);
    field[7][12] = NONE;
    assert_eq!(erase_line_count(&field), 2);
}

#[test]
fn field_height_max_measures_from_the_top_filled_row() {
    let mut field = DEFAULT_FIELD;
    field[19][2] = T;
    assert_eq!(field_height_max(&field), 2);
    field[15][12] = T;
    assert_eq!(field_height_max(&field), 6);
    field[1][7] = T;
    assert_eq!(field_height_max(&field), 20);
}

#[test]
fn eval_on_an_empty_field_lays_the_i_piece_flat() {
    let game = game_with(BLOCKS[0]);
    let elite = eval(&game);
    assert_eq!(elite.block, BLOCKS[0]);
    assert_eq!((elite.pos.x, elite.pos.y), (5, 17));
    for x in 2..13 {
        let expected = if (5..=8).contains(&x) { I } else { NONE };
        assert_eq!(elite.field[19][x], expected);
    }
    assert_eq!(elite.next, game.next);
    assert_eq!(elite.next_buf, game.next_buf);
    assert!(elite.hold.is_none());
}

#[test]
fn eval_completes_a_line_when_it_can() {
    let mut game = game_with(BLOCKS[0]);
    for x in 6..13 {
        game.field[19][x] = T;
    }
    let elite = eval(&game);
    assert_eq!((elite.pos.x, elite.pos.y), (2, 17));
    assert_eq!(elite.block, BLOCKS[0]);
    assert_eq!(erase_line_count(&elite.field), 1);
    // The search never trades lines away: nothing better than one line was possible,
    // and the kept placement has it.
    let mut cleared = elite.field;
    erase_line(&mut cleared);
    assert_eq!(erase_line_count(&cleared), 0);
}

#[test]
fn try_eval_agrees_with_eval_and_refuses_what_cannot_be_searched() {
    let game = game_with(BLOCKS[6]);
    assert!(search_is_defined(&game));
    let a = try_eval(&game).unwrap();
    let b = eval(&game);
    assert_eq!(a.field, b.field);
    assert_eq!((a.pos.x, a.pos.y), (b.pos.x, b.pos.y));
    assert_eq!(a.block, b.block);
    // A piece in the sentinel column beyond the right wall never lands.
    let mut lost = game_with([[I, 0, 0, 0], [0, 0, 0, 0], [0, 0, 0, 0], [0, 0, 0, 0]]);
    lost.pos = Position { x: 20, y: 0 };
    assert!(!search_is_defined(&lost));
    assert!(try_eval(&lost).is_none());
    // Positions out of reach are refused.
    let mut far = game_with(BLOCKS[1]);
    far.pos = Position { x: usize::MAX - 2, y: 0 };
    assert!(try_eval(&far).is_none());
}

#[test]
fn genes_are_read_by_kind() {
    let geno: GenoSeq = [10, 20, 30, 40];
    assert_eq!(gene(&geno, GenomeKind::Line), 10);
    assert_eq!(gene(&geno, GenomeKind::HeightMax), 20);
    assert_eq!(gene(&geno, GenomeKind::HeightDiff), 30);
    assert_eq!(gene(&geno, GenomeKind::DeadSpace), 40);
    assert_eq!(POPULATION, 10);
    assert_eq!(LINE_COUNT_MAX, 256);
}

#[test]
fn field_height_max_is_zero_on_an_empty_field() {
    assert_eq!(field_height_max(&DEFAULT_FIELD), 0);
    // A block in row 0 alone does not count either.
    let mut field = DEFAULT_FIELD;
    field[0][6] = T;
    assert_eq!(field_height_max(&field), 0);
}

#[test]
fn clearing_twice_is_clearing_once_and_keeps_the_walls() {
    let mut field = DEFAULT_FIELD;
    for &y in &[19usize, 16] {
        for x in 2..FIELD_WIDTH - 2 {
            field[y][x] = T;
        }
    }
    field[18][4] = I;
    field[15][9] = I;
    erase_line(&mut field);
    assert_eq!(erase_line_count(&field), 0);
    let once = field;
    erase_line(&mut field);
    assert_eq!(field, once);
    for y in 0..20 {
        assert_ne!(field[y][1], NONE);
        assert_ne!(field[y][13], NONE);
    }
    for x in 1..14 {
        assert_ne!(field[20][x], NONE);
    }
    assert_eq!(field[0], DEFAULT_FIELD[0]);
    assert_eq!(field[21], DEFAULT_FIELD[21]);
}
