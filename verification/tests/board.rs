use spacetimedb::{Identity, ReducerContext};
use tetris_server::bricks::{I, L, NUM_BRICKS, NUM_VARIANTS, O, O_INDEX, T};
use tetris_server::tables::{BoardData, Cell};
use tetris_server::tetris::{Board, HEIGHT, WIDTH};

fn board(piece: u8, variant: u8, pos: (u8, u8)) -> Board {
    Board {
        board_id: 1,
        cells: [[0; 10]; 20],
        selected_piece: piece,
        selected_piece_variant: variant,
        next_piece: 5,
        next_piece_variant: 2,
        position: pos,
        ghost_y: 0,
        score: 0,
        lines: 0,
    }
}

fn painted_cells(b: &Board) -> Vec<(usize, usize, u8)> {
    let mut v = Vec::new();
    for y in 0..20 {
        for x in 0..10 {
            if b.cells[y][x] != 0 {
                v.push((x, y, b.cells[y][x]));
            }
        }
    }
    v
}

#[test]
fn get_piece_reads_the_shape_table() {
    let b = board(0, 0, (5, 1));
    assert_eq!(b.get_piece(), I[0]);
    assert_eq!(b.get_piece(), [(-1, -1), (0, -1), (1, -1), (2, -1)]);
    let b = board(2, 3, (5, 1));
    assert_eq!(b.get_piece(), L[3]);
    assert_eq!(b.get_next_piece(), T[2]);
}

#[test]
fn piece_fits_bounds_reports_each_side() {
    let mut b = board(0, 0, (5, 1));
    assert_eq!(b.piece_fits_bounds((0, 0), &I[0]), (false, true, false, true));
    assert_eq!(b.piece_fits_bounds((5, 1), &I[0]), (true, true, true, true));
    assert_eq!(b.piece_fits_bounds((8, 1), &I[0]), (true, false, true, true));
    assert_eq!(b.piece_fits_bounds((5, 20), &I[0]), (true, true, true, true));
    assert_eq!(b.piece_fits_bounds((5, 21), &I[0]), (true, true, true, false));
    assert_eq!(b.piece_fits_bounds((5, 0), &I[1]), (true, true, false, true));
}

#[test]
fn piece_fits_bounds_reads_large_positions_as_signed() {
    let mut b = board(0, 0, (5, 1));
    // 255 reads as -1, so the piece sticks out on the left.
    assert_eq!(b.piece_fits_bounds((255, 1), &I[0]), (false, true, true, true));
    // 200 reads as -56.
    assert_eq!(b.piece_fits_bounds((5, 200), &I[0]), (true, true, false, true));
}

#[test]
fn piece_doesnt_collide_sees_filled_cells() {
    let mut b = board(0, 0, (5, 1));
    b.cells[0][5] = 3;
    assert!(!b.piece_doesnt_collide((5, 1), &I[0]));
    assert!(b.piece_doesnt_collide((5, 2), &I[0]));
    // cells off the board never collide
    assert!(b.piece_doesnt_collide((0, 0), &I[0]));
}

#[test]
fn place_piece_paints_only_cells_on_the_board() {
    let mut b = board(0, 0, (5, 1));
    b.place_piece((5, 1), &I[0], 1);
    assert_eq!(painted_cells(&b), vec![(4, 0, 1), (5, 0, 1), (6, 0, 1), (7, 0, 1)]);
    let mut b = board(0, 0, (5, 1));
    b.place_piece((0, 1), &I[0], 7);
    assert_eq!(painted_cells(&b), vec![(0, 0, 7), (1, 0, 7), (2, 0, 7)]);
}

#[test]
fn apply_paints_piece_index_plus_one_and_unapply_clears() {
    let mut b = board(3, 0, (4, 1));
    let before = b.clone();
    b.apply_piece();
    assert_eq!(painted_cells(&b), vec![(4, 0, 4), (5, 0, 4), (4, 1, 4), (5, 1, 4)]);
    b.unapply_piece();
    assert_eq!(b.cells, before.cells);
}

#[test]
fn unapply_then_apply_gives_back_a_stored_board() {
    let mut b = board(5, 1, (3, 4));
    b.cells[19] = [1, 2, 3, 4, 5, 6, 7, 1, 2, 0];
    b.apply_piece();
    let stored = b.clone();
    b.unapply_piece();
    b.apply_piece();
    assert_eq!(b.cells, stored.cells);
}

#[test]
fn move_left_moves_and_updates_the_landing_row() {
    let mut b = board(0, 0, (5, 1));
    assert!(b.move_left());
    assert_eq!(b.position, (4, 1));
    assert_eq!(b.ghost_y, 20);
}

#[test]
fn move_left_refused_at_the_wall() {
    let mut b = board(0, 0, (1, 1));
    let before = b.clone();
    assert!(!b.move_left());
    assert_eq!(b.position, before.position);
    assert_eq!(b.ghost_y, before.ghost_y);
    let mut b = board(0, 3, (0, 1));
    assert!(!b.move_left());
    assert_eq!(b.position, (0, 1));
}

#[test]
fn move_left_refused_by_a_filled_cell() {
    let mut b = board(0, 0, (5, 1));
    b.cells[0][3] = 2;
    assert!(!b.move_left());
    assert_eq!(b.position, (5, 1));
}

#[test]
fn move_right_moves_until_the_wall() {
    let mut b = board(0, 0, (6, 1));
    assert!(b.move_right());
    assert_eq!(b.position, (7, 1));
    assert_eq!(b.ghost_y, 20);
    assert!(!b.move_right());
    assert_eq!(b.position, (7, 1));
}

#[test]
fn move_left_then_right_comes_back() {
    let mut b = board(5, 0, (5, 3));
    b.cells[10][2] = 1;
    assert!(b.move_left());
    assert!(b.move_right());
    assert_eq!(b.position, (5, 3));
    // T in rotation 0 reaches one row below its position: lands at row 18.
    assert_eq!(b.ghost_y, 19);
}

#[test]
fn move_down_keeps_the_landing_row() {
    let mut b = board(0, 0, (5, 1));
    b.ghost_y = 7;
    assert!(b.move_down());
    assert_eq!(b.position, (5, 2));
    assert_eq!(b.ghost_y, 7);
}

#[test]
fn move_down_refused_at_the_bottom_and_on_filled_cells() {
    let mut b = board(0, 0, (5, 20));
    assert!(!b.move_down());
    assert_eq!(b.position, (5, 20));
    let mut b = board(0, 0, (5, 5));
    b.cells[5][6] = 1;
    assert!(!b.move_down());
    assert_eq!(b.position, (5, 5));
}

#[test]
fn drop_lands_and_rests() {
    let mut b = board(0, 0, (5, 1));
    assert!(b.move_left());
    assert!(b.move_right());
    assert_eq!(b.ghost_y, 20);
    assert!(b.drop());
    assert_eq!(b.position, (5, 20));
    assert_eq!(b.ghost_y, 20);
    assert!(!b.move_down());
}

#[test]
fn drop_lands_on_filled_cells() {
    let mut b = board(3, 0, (4, 1));
    b.cells[10][5] = 2;
    assert!(b.move_right());
    assert!(b.move_left());
    // the square covers columns 4 and 5 and rows y - 1 and y
    assert_eq!(b.ghost_y, 9);
    assert!(b.drop());
    assert_eq!(b.position, (4, 9));
    assert!(!b.move_down());
}

#[test]
fn drop_refused_when_landing_row_not_below() {
    let mut b = board(0, 0, (5, 4));
    b.ghost_y = 4;
    let before = b.clone();
    assert!(!b.drop());
    assert_eq!(b.position, before.position);
    assert_eq!(b.ghost_y, 4);
}

#[test]
fn rotate_right_turns_and_computes_the_landing_row() {
    let mut b = board(0, 0, (5, 1));
    b.rotate_right();
    assert_eq!(b.selected_piece_variant, 1);
    assert_eq!(b.position, (5, 1));
    assert_eq!(b.ghost_y, 17);
}

#[test]
fn rotate_pushes_the_piece_inside_the_board() {
    let mut b = board(0, 1, (8, 1));
    b.rotate_right();
    assert_eq!(b.selected_piece_variant, 2);
    assert_eq!(b.position, (7, 1));
    let mut b = board(0, 3, (0, 1));
    b.rotate_right();
    assert_eq!(b.selected_piece_variant, 0);
    assert_eq!(b.position, (1, 1));
}

#[test]
fn rotate_left_turns_back() {
    let mut b = board(4, 0, (5, 5));
    b.rotate_left();
    assert_eq!(b.selected_piece_variant, 3);
    b.rotate_right();
    assert_eq!(b.selected_piece_variant, 0);
    assert_eq!(b.selected_piece, 4);
}

#[test]
fn the_square_does_not_rotate() {
    let mut b = board(O_INDEX, 0, (4, 5));
    b.ghost_y = 3;
    b.rotate_right();
    b.rotate_left();
    assert_eq!(b.selected_piece_variant, 0);
    assert_eq!(b.position, (4, 5));
    assert_eq!(b.ghost_y, 3);
    assert_eq!(b.get_piece(), O[0]);
}

#[test]
fn detect_lines_clears_full_rows() {
    let mut b = board(0, 0, (5, 1));
    b.cells[19] = [1; 10];
    b.cells[18] = [2, 0, 2, 0, 2, 0, 2, 0, 2, 0];
    b.cells[17] = [3; 10];
    b.cells[16] = [0, 0, 0, 0, 0, 0, 0, 0, 0, 4];
    b.score = 10;
    b.lines = 5;
    assert!(b.detect_lines());
    assert_eq!(b.score, 14);
    assert_eq!(b.lines, 7);
    assert_eq!(b.cells[19], [2, 0, 2, 0, 2, 0, 2, 0, 2, 0]);
    assert_eq!(b.cells[18], [0, 0, 0, 0, 0, 0, 0, 0, 0, 4]);
    for y in 0..18 {
        assert_eq!(b.cells[y], [0; 10]);
    }
    // no full row is left
    let before = b.cells;
    assert!(!b.detect_lines());
    assert_eq!(b.cells, before);
    assert_eq!(b.score, 18);
    assert_eq!(b.lines, 7);
}

#[test]
fn detect_lines_without_full_rows_only_scores() {
    let mut b = board(0, 0, (5, 1));
    b.cells[19] = [1, 1, 1, 1, 1, 1, 1, 1, 1, 0];
    let before = b.cells;
    assert!(!b.detect_lines());
    assert_eq!(b.score, 4);
    assert_eq!(b.lines, 0);
    assert_eq!(b.cells, before);
}

#[test]
fn place_new_piece_on_first_spawn_uses_the_draws() {
    let mut b = board(0, 0, (0, 0));
    assert!(b.place_new_piece(2, 1, O_INDEX, 2));
    assert_eq!(b.selected_piece, 2);
    assert_eq!(b.selected_piece_variant, 1);
    assert_eq!(b.next_piece, O_INDEX);
    assert_eq!(b.next_piece_variant, 0);
    assert_eq!(b.position, (5, 1));
    assert_eq!(b.ghost_y, 18);
}

#[test]
fn place_new_piece_later_takes_the_next_piece() {
    let mut b = board(0, 0, (0, 0));
    b.score = 4;
    b.next_piece = 6;
    b.next_piece_variant = 3;
    assert!(b.place_new_piece(1, 1, 4, 2));
    assert_eq!(b.selected_piece, 6);
    assert_eq!(b.selected_piece_variant, 3);
    assert_eq!(b.next_piece, 4);
    assert_eq!(b.next_piece_variant, 2);
    assert_eq!(b.position, (5, 1));
}

#[test]
fn place_new_piece_reports_an_overlap() {
    let mut b = board(0, 0, (0, 0));
    b.cells[0][5] = 1;
    assert!(!b.place_new_piece(O_INDEX, 0, 1, 0));
    assert_eq!(b.position, (5, 1));
    // the landing row is the one above the overlap
    assert_eq!(b.ghost_y, 0);
}

#[test]
fn square_spawn_ignores_the_rotation_draw() {
    let mut b = board(0, 0, (0, 0));
    assert!(b.place_new_piece(O_INDEX, 3, 0, 1));
    assert_eq!(b.selected_piece_variant, 0);
    assert_eq!(b.next_piece_variant, 1);
}

#[test]
fn new_board_draws_pieces_in_range() {
    let ctx = ReducerContext::__dummy();
    let b = Board::new(&ctx);
    assert!(b.selected_piece < NUM_BRICKS);
    assert!(b.selected_piece_variant < NUM_VARIANTS);
    assert!(b.next_piece < NUM_BRICKS);
    assert!(b.next_piece_variant < NUM_VARIANTS);
    if b.selected_piece == O_INDEX {
        assert_eq!(b.selected_piece_variant, 0);
    }
    if b.next_piece == O_INDEX {
        assert_eq!(b.next_piece_variant, 0);
    }
    assert_eq!(b.position.1, 1);
    assert_eq!(b.score, 0);
    assert_eq!(painted_cells(&b), vec![]);
    assert!(b.is_wf());
}

#[test]
fn random_piece_after_scoring_takes_the_next_piece() {
    let ctx = ReducerContext::__dummy();
    let mut b = board(0, 0, (0, 0));
    b.score = 8;
    b.next_piece = 2;
    b.next_piece_variant = 1;
    assert!(b.random_piece(&ctx));
    assert_eq!(b.selected_piece, 2);
    assert_eq!(b.selected_piece_variant, 1);
    assert!(b.next_piece < NUM_BRICKS);
    assert!(b.next_piece_variant < NUM_VARIANTS);
}

#[test]
fn board_iter_lists_cells_row_by_row() {
    let mut b = board(0, 0, (5, 1));
    b.cells[3][7] = 6;
    let all = b.board_iter();
    assert_eq!(all.len(), (WIDTH as usize) * (HEIGHT as usize));
    assert_eq!(all[0], (0, 0, 0));
    assert_eq!(all[37], (7, 3, 6));
    assert_eq!(all[199], (9, 19, 0));
}

#[test]
fn line_numbers_iter_counts_rows() {
    let b = board(0, 0, (5, 1));
    let rows = b.line_numbers_iter();
    assert_eq!(rows, (0..20u8).collect::<Vec<u8>>());
}

#[test]
fn is_wf_checks_pieces_and_positions() {
    assert!(board(6, 3, (19, 39)).is_wf());
    assert!(!board(7, 0, (5, 1)).is_wf());
    assert!(!board(0, 4, (5, 1)).is_wf());
    assert!(!board(0, 0, (20, 1)).is_wf());
    assert!(!board(0, 0, (5, 40)).is_wf());
}

fn data(id: u32) -> BoardData {
    BoardData {
        id,
        owner: Identity::ZERO,
        selected_piece: 1,
        selected_piece_variant: 2,
        next_piece: 3,
        next_piece_variant: 0,
        pos_x: 4,
        pos_y: 5,
        ghost_y: 17,
        score: 40,
        lines: 2,
    }
}

#[test]
fn from_tables_reads_rows_last_write_wins() {
    let cells = vec![
        Cell { id: 1, board_id: 9, x: 2, y: 3, value: 5 },
        Cell { id: 2, board_id: 9, x: 9, y: 19, value: 1 },
        Cell { id: 3, board_id: 9, x: 2, y: 3, value: 7 },
    ];
    let b = Board::from_tables(&data(9), &cells);
    assert_eq!(b.board_id, 9);
    assert_eq!(b.selected_piece, 1);
    assert_eq!(b.selected_piece_variant, 2);
    assert_eq!(b.next_piece, 3);
    assert_eq!(b.next_piece_variant, 0);
    assert_eq!(b.position, (4, 5));
    assert_eq!(b.ghost_y, 17);
    assert_eq!(b.score, 40);
    assert_eq!(b.lines, 2);
    assert_eq!(painted_cells(&b), vec![(2, 3, 7), (9, 19, 1)]);
}

#[test]
fn to_tables_reports_changed_rows_and_stores_the_board_state() {
    let mut b = board(6, 1, (3, 8));
    b.next_piece = 2;
    b.next_piece_variant = 3;
    b.ghost_y = 12;
    b.score = 16;
    b.lines = 1;
    b.cells[0][0] = 4;
    let cells = vec![
        Cell { id: 1, board_id: 9, x: 0, y: 0, value: 0 },
        Cell { id: 2, board_id: 9, x: 1, y: 0, value: 0 },
        Cell { id: 3, board_id: 9, x: 2, y: 0, value: 5 },
    ];
    let (bd, changed) = b.to_tables(&data(9), &cells);
    assert_eq!(bd.id, 9);
    assert_eq!(bd.owner, Identity::ZERO);
    assert_eq!(bd.selected_piece, 6);
    assert_eq!(bd.selected_piece_variant, 1);
    assert_eq!(bd.next_piece, 2);
    assert_eq!(bd.next_piece_variant, 3);
    assert_eq!((bd.pos_x, bd.pos_y), (3, 8));
    assert_eq!(bd.ghost_y, 12);
    assert_eq!(bd.score, 16);
    assert_eq!(bd.lines, 1);
    assert_eq!(changed.len(), 2);
    assert_eq!((changed[0].id, changed[0].x, changed[0].y, changed[0].value), (1, 0, 0, 4));
    assert_eq!((changed[1].id, changed[1].x, changed[1].y, changed[1].value), (3, 2, 0, 0));
}

#[test]
fn stored_board_loads_back() {
    let mut b = board(2, 2, (6, 9));
    b.cells[19] = [1, 2, 3, 0, 0, 0, 7, 7, 7, 7];
    b.cells[4][4] = 5;
    let mut rows: Vec<Cell> = Vec::new();
    let mut id = 1;
    for y in (0..20u8).rev() {
        for x in 0..10u8 {
            rows.push(Cell { id, board_id: 1, x, y, value: 0 });
            id += 1;
        }
    }
    let (bd, changed) = b.to_tables(&data(1), &rows);
    for c in changed {
        let r = rows.iter_mut().find(|r| r.id == c.id).unwrap();
        *r = c;
    }
    let loaded = Board::from_tables(&bd, &rows);
    assert_eq!(loaded.board_id, 1);
    assert_eq!(loaded.cells, b.cells);
    assert_eq!(loaded.position, b.position);
    assert_eq!(loaded.selected_piece, b.selected_piece);
    assert_eq!(loaded.selected_piece_variant, b.selected_piece_variant);
    assert_eq!(loaded.next_piece, b.next_piece);
    assert_eq!(loaded.next_piece_variant, b.next_piece_variant);
    assert_eq!(loaded.ghost_y, b.ghost_y);
    assert_eq!(loaded.score, b.score);
    assert_eq!(loaded.lines, b.lines);
}

#[test]
fn full_row_count_counts_full_rows() {
    let mut b = board(0, 0, (5, 1));
    assert_eq!(b.full_row_count(), 0);
    b.cells[19] = [1; 10];
    b.cells[7] = [2; 10];
    b.cells[8] = [2, 2, 2, 2, 2, 2, 2, 2, 2, 0];
    assert_eq!(b.full_row_count(), 2);
    assert!(b.detect_lines());
    assert_eq!(b.lines, 2);
    assert_eq!(b.full_row_count(), 0);
}

#[test]
fn moving_down_keeps_the_landing_row() {
    let mut b = board(4, 1, (5, 1));
    b.cells[12][6] = 3;
    assert!(b.move_left());
    assert!(b.move_right());
    // S in rotation 1 covers column 6 down to row y + 1
    assert_eq!(b.ghost_y, 10);
    assert!(b.move_down());
    assert!(b.move_down());
    assert_eq!(b.ghost_y, 10);
    assert!(b.drop());
    assert_eq!(b.position, (5, 10));
    assert!(!b.move_down());
}

#[test]
fn move_right_wraps_the_column_as_a_signed_byte() {
    // the vertical I sits one column right of its position: from column 254
    // (read as -2) it moves to 255 (read as -1), putting it in column 0
    let mut b = board(0, 1, (254, 5));
    assert!(b.move_right());
    assert_eq!(b.position, (255, 5));
    assert_eq!(b.ghost_y, 17);
    assert!(!b.is_wf());
}

#[test]
fn drop_refused_leaves_any_board_alone() {
    let mut b = board(9, 7, (200, 90));
    b.ghost_y = 45;
    let before = b.clone();
    assert!(!b.drop());
    assert_eq!(b.position, before.position);
    assert_eq!(b.ghost_y, 45);
}

#[test]
fn rotate_pushes_a_far_piece_back_onto_the_board() {
    let mut b = board(2, 0, (30, 5));
    b.rotate_right();
    assert_eq!(b.selected_piece_variant, 1);
    // L in rotation 1 reaches one column right of its position
    assert_eq!(b.position, (8, 5));
    assert_eq!(b.ghost_y, 18);
}

#[test]
fn rotate_below_the_board_only_sets_the_landing_row() {
    let mut b = board(5, 0, (4, 50));
    b.rotate_right();
    assert_eq!(b.selected_piece_variant, 1);
    assert_eq!(b.position, (4, 50));
    assert_eq!(b.ghost_y, 50);
}

#[test]
fn rotate_pushes_right_through_the_signed_wrap() {
    // the vertical I lies one column right of its position, so a column
    // read as -1 (255) puts it in column 0
    let mut b = board(0, 0, (200, 5));
    b.rotate_right();
    assert_eq!(b.selected_piece_variant, 1);
    assert_eq!(b.position, (255, 5));
    assert_eq!(b.ghost_y, 17);
}

#[test]
fn four_right_turns_give_back_the_rotation() {
    let mut b = board(6, 2, (5, 6));
    b.cells[19] = [1, 1, 1, 0, 0, 0, 1, 1, 1, 1];
    let before = b.clone();
    for _ in 0..4 {
        b.rotate_right();
    }
    assert_eq!(b.selected_piece_variant, before.selected_piece_variant);
    assert_eq!(b.cells, before.cells);
}
