use spacetimedb::{Identity, ReducerContext};
use tetris_server::bricks::NUM_BRICKS;
use tetris_server::reducers::{
    board_row, cell_rows, drop, drop_admits, game_is_empty, game_is_full, move_down,
    move_down_admits, move_left, move_left_admits, move_right, move_right_admits, prepare_board,
    rotate_left, rotate_right, turn_admits, GAME_NR_OF_PLAYERS,
};
use tetris_server::tetris::Board;

fn stored(piece: u8, variant: u8, pos: (u8, u8)) -> Board {
    let mut b = Board {
        board_id: 1,
        cells: [[0; 10]; 20],
        selected_piece: piece,
        selected_piece_variant: variant,
        next_piece: 1,
        next_piece_variant: 2,
        position: pos,
        ghost_y: 0,
        score: 4,
        lines: 0,
    };
    b.apply_piece();
    b
}

#[test]
fn a_game_is_full_with_four_players() {
    assert_eq!(GAME_NR_OF_PLAYERS, 4);
    assert!(game_is_full(4));
    assert!(!game_is_full(3));
    assert!(!game_is_full(5));
}

#[test]
fn move_left_step_repaints_the_piece() {
    let mut b = stored(3, 0, (4, 1));
    assert!(move_left(&mut b));
    assert_eq!(b.position, (3, 1));
    assert_eq!(b.cells[0][3], 4);
    assert_eq!(b.cells[0][4], 4);
    assert_eq!(b.cells[0][5], 0);
    assert_eq!(b.cells[1][5], 0);
}

#[test]
fn move_right_step_refused_at_the_wall() {
    let mut b = stored(3, 0, (8, 1));
    assert!(!move_right(&mut b));
    assert_eq!(b.position, (8, 1));
}

#[test]
fn move_down_step_moves_the_piece() {
    let ctx = ReducerContext::__dummy();
    let mut b = stored(3, 0, (4, 1));
    assert!(move_down(&mut b, &ctx));
    assert_eq!(b.position, (4, 2));
    assert_eq!(b.cells[0][4], 0);
    assert_eq!(b.cells[2][4], 4);
}

#[test]
fn move_down_step_locks_clears_and_spawns() {
    let ctx = ReducerContext::__dummy();
    let mut b = stored(3, 0, (0, 19));
    // bottom two rows are full but for the square's columns
    for y in 18..20 {
        for x in 2..10 {
            b.cells[y][x] = 2;
        }
    }
    assert!(!b.clone().move_down());
    let next = b.next_piece;
    let next_variant = b.next_piece_variant;
    assert!(move_down(&mut b, &ctx));
    assert_eq!(b.lines, 2);
    assert_eq!(b.score, 8);
    assert_eq!(b.selected_piece, next);
    assert_eq!(b.selected_piece_variant, next_variant);
    assert!(b.next_piece < NUM_BRICKS);
    assert_eq!(b.position.1, 1);
    for y in 2..20 {
        assert_eq!(b.cells[y], [0; 10]);
    }
}

#[test]
fn drop_step_paints_the_piece_on_its_landing_row() {
    let mut b = stored(0, 0, (5, 1));
    b.ghost_y = 20;
    drop(&mut b);
    assert_eq!(b.position, (5, 20));
    assert_eq!(b.cells[19][4..8], [1, 1, 1, 1]);
    assert_eq!(b.cells[0], [0; 10]);
}

#[test]
fn rotation_steps_repaint_the_piece() {
    let mut b = stored(0, 0, (5, 1));
    rotate_right(&mut b);
    assert_eq!(b.selected_piece_variant, 1);
    for y in 0..4 {
        assert_eq!(b.cells[y][6], 1);
    }
    assert_eq!(b.cells[0][4], 0);
    rotate_left(&mut b);
    assert_eq!(b.selected_piece_variant, 0);
    assert_eq!(b.cells[0][4..8], [1, 1, 1, 1]);
    assert_eq!(b.cells[1][6], 0);
}

#[test]
fn prepare_board_paints_the_first_piece() {
    let ctx = ReducerContext::__dummy();
    let b = prepare_board(&ctx);
    let filled: usize = b.cells.iter().map(|r| r.iter().filter(|&&c| c != 0).count()).sum();
    assert_eq!(filled, 4);
    assert!(b.is_wf());
}

#[test]
fn new_rows_load_back_the_board() {
    let ctx = ReducerContext::__dummy();
    let b = prepare_board(&ctx);
    let mut bd = board_row(&b, Identity::ONE);
    assert_eq!(bd.id, 0);
    assert_eq!(bd.owner, Identity::ONE);
    assert_eq!((bd.pos_x, bd.pos_y), b.position);
    bd.id = 7;
    let mut cells = cell_rows(&b, 7);
    assert_eq!(cells.len(), 200);
    assert_eq!((cells[13].x, cells[13].y, cells[13].board_id), (3, 1, 7));
    cells.reverse();
    let loaded = Board::from_tables(&bd, &cells);
    assert_eq!(loaded.cells, b.cells);
    assert_eq!(loaded.board_id, 7);
    assert_eq!(loaded.selected_piece, b.selected_piece);
    assert_eq!(loaded.selected_piece_variant, b.selected_piece_variant);
    assert_eq!(loaded.next_piece, b.next_piece);
    assert_eq!(loaded.next_piece_variant, b.next_piece_variant);
    assert_eq!(loaded.position, b.position);
    assert_eq!(loaded.ghost_y, b.ghost_y);
    assert_eq!(loaded.score, b.score);
    assert_eq!(loaded.lines, b.lines);
}

#[test]
fn stored_next_rotation_survives_a_tick() {
    let ctx = ReducerContext::__dummy();
    let mut b = stored(3, 0, (0, 19));
    b.score = 4;
    let mut bd = board_row(&b, Identity::ONE);
    bd.id = 1;
    b.board_id = 1;
    let cells = cell_rows(&b, 1);
    move_down(&mut b, &ctx);
    assert_eq!(b.position.1, 1);
    assert_eq!(b.lines, 0);
    let (bd2, _) = b.to_tables(&bd, &cells);
    assert_eq!(bd2.next_piece, b.next_piece);
    assert_eq!(bd2.next_piece_variant, b.next_piece_variant);
}

#[test]
fn tick_runs_with_a_far_landing_row_and_unknown_next_piece() {
    let ctx = ReducerContext::__dummy();
    let mut b = stored(3, 0, (4, 5));
    b.ghost_y = 45;
    b.next_piece = 9;
    assert!(move_down_admits(&b));
    assert!(move_down(&mut b, &ctx));
    assert_eq!(b.position, (4, 6));
    assert_eq!(b.ghost_y, 45);
}

#[test]
fn tick_refused_when_locking_needs_an_unknown_next_piece() {
    let mut b = stored(3, 0, (4, 19));
    b.next_piece = 9;
    assert!(!move_down_admits(&b));
    b.next_piece = 2;
    assert!(move_down_admits(&b));
    b.score = u32::MAX - 3;
    assert!(!move_down_admits(&b));
}

#[test]
fn step_guards_follow_the_signed_byte_limits() {
    let b = stored(0, 0, (5, 1));
    assert!(move_left_admits(&b));
    assert!(move_right_admits(&b));
    assert!(turn_admits(&b, 1));
    assert!(turn_admits(&b, 3));
    assert!(drop_admits(&b));
    let mut far = stored(0, 0, (5, 1));
    far.position = (126, 1);
    // the horizontal I reaches two columns right: 126 + 2 overflows a signed byte
    assert!(!move_left_admits(&far));
    far.selected_piece = 9;
    assert!(!move_right_admits(&far));
    assert!(!drop_admits(&far));
}

#[test]
fn refused_left_move_step_keeps_the_stored_board() {
    let mut b = stored(0, 0, (1, 1));
    let before = b.clone();
    assert!(!move_left(&mut b));
    assert_eq!(b.position, before.position);
    // the step took the piece off; the reducer does not store it
    b.apply_piece();
    assert_eq!(b.cells, before.cells);
}

#[test]
fn games_end_when_empty() {
    assert!(game_is_empty(0));
    assert!(!game_is_empty(1));
}
