//! Properties that tie the board operations together.
use crate::bricks::{lemma_rotations_turn, quarter_turn, NUM_BRICKS, NUM_VARIANTS, O_INDEX};
use crate::reducers::{landed, lifted};
use crate::tables::{BoardData, Cell};
use crate::tetris::{
    bottom_ok, covers, empty_row, in_bounds, is_full, left_ok, max_x, min_x, min_y, not_full, on_board,
    right_ok, settled_x, settled_y, signed, top_ok, written, Board, HEIGHT, WIDTH,
};
use vstd::prelude::*;

verus! {

/// The board cells covered by the falling piece all hold `color`.
pub open spec fn piece_shows(b: Board, color: u8) -> bool {
    forall|x: int, y: int|
        on_board(x, y) && covers(b.piece(), signed(b.position.0), signed(b.position.1), x, y)
            ==> #[trigger] b.cell(x, y) == color
}

/// Once the falling piece is painted, the cells under it show it; once it
/// is taken off, they are empty.
pub proof fn lemma_paint_shows_piece(b: Board, a: Board, u: Board)
    requires
        landed(b, a),
        lifted(b, u),
    ensures
        piece_shows(a, (a.selected_piece + 1) as u8),
        piece_shows(u, 0),
{
}

/// Painting the falling piece on the board and taking it off again gives
/// back the board, when the cells under the piece were empty.
pub proof fn lemma_lift_undoes_land(b: Board, a: Board, u: Board)
    requires
        piece_shows(b, 0),
        landed(b, a),
        lifted(a, u),
    ensures
        u == b,
{
    assert forall|x: int, y: int| on_board(x, y) implies #[trigger] u.cell(x, y) == b.cell(x, y) by {
        assert(a.cell(x, y) == b.cell(x, y) || covers(b.piece(), signed(b.position.0), signed(b.position.1), x, y));
    }
    Board::lemma_board_ext(u, b);
}

/// Taking the falling piece off a stored board and painting it again gives
/// back the stored board, when the cells under the piece show the piece.
pub proof fn lemma_land_undoes_lift(b: Board, u: Board, a: Board)
    requires
        piece_shows(b, (b.selected_piece + 1) as u8),
        lifted(b, u),
        landed(u, a),
    ensures
        a == b,
{
    assert forall|x: int, y: int| on_board(x, y) implies #[trigger] a.cell(x, y) == b.cell(x, y) by {
        assert(u.cell(x, y) == b.cell(x, y) || covers(b.piece(), signed(b.position.0), signed(b.position.1), x, y));
    }
    Board::lemma_board_ext(a, b);
}

/// Moving the falling piece one column aside and back brings it to where it
/// was, with the landing row of that place.
pub proof fn lemma_shift_back(b: Board, m: Board, n: Board, dx: int, r: bool)
    requires
        b.piece_known(),
        dx == 1 || dx == -1,
        b.position.0 + dx <= u8::MAX,
        b.can_place(signed(b.position.0), signed(b.position.1)),
        Board::shifted(b, m, dx, true),
        Board::shifted(m, n, -dx, r),
    ensures
        r,
        n == (Board { ghost_y: n.ghost_y, ..b }),
        n.is_ghost_row(signed(b.position.0), signed(b.position.1), n.ghost_y as int),
{
    assert(m.cells == b.cells && m.piece() == b.piece());
    b.lemma_same_stops(m);
    m.lemma_same_stops(n);
    assert(m.position.0 - dx == b.position.0);
    assert(m.can_place(signed(b.position.0), signed(b.position.1)));
}

/// Moving the falling piece one row down keeps its landing row: the row
/// is still the one where the piece lands from its new place.
pub proof fn lemma_lower_keeps_ghost_row(b: Board, m: Board)
    requires
        b.piece_known(),
        b.can_place(signed(b.position.0), signed(b.position.1)),
        b.is_ghost_row(signed(b.position.0), signed(b.position.1), b.ghost_y as int),
        Board::lowered(b, m, true),
    ensures
        m.is_ghost_row(signed(m.position.0), signed(m.position.1), m.ghost_y as int),
{
    b.lemma_piece();
    b.lemma_same_stops(m);
    let brick = b.piece();
    let px = signed(b.position.0);
    let py = signed(b.position.1);
    crate::tetris::lemma_sides(brick, px, py);
    assert(b.position.1 < 127);
    assert(signed(m.position.1) == py + 1);
    assert(!b.stops(px, py));
    assert(!b.stops(px, py + 1));
    assert(py + 1 <= b.ghost_y);
    assert(m.stops(px, b.ghost_y + 1)) by {
        assert(b.stops(px, b.ghost_y + 1));
    }
    assert forall|g: int| py + 1 <= g <= b.ghost_y implies !#[trigger] m.stops(px, g) by {
        assert(!b.stops(px, g));
    }
}

/// After a drop that moved the falling piece, the piece rests on its
/// landing row: it cannot move one row lower.
pub proof fn lemma_drop_rests(b: Board, d: Board)
    requires
        b.piece_known(),
        b.can_place(signed(b.position.0), signed(b.position.1)),
        b.is_ghost_row(signed(b.position.0), signed(b.position.1), b.ghost_y as int),
        Board::dropped(b, d, true),
    ensures
        d.position == (b.position.0, b.ghost_y),
        !d.can_place(signed(d.position.0), d.position.1 + 1),
{
    b.lemma_piece();
    let brick = b.piece();
    let px = signed(b.position.0);
    let py = signed(b.position.1);
    let gy = b.ghost_y as int;
    crate::tetris::lemma_sides(brick, px, py);
    assert(py == b.position.1);
    assert(!b.stops(px, gy));
    assert(bottom_ok(brick, gy));
    assert(signed(b.ghost_y) == gy);
    assert(in_bounds(brick, px, gy)) by {
        crate::tetris::lemma_sides(brick, px, gy);
    }
    crate::tetris::lemma_sides(brick, px, gy);
    assert(settled_x(brick, px) == px);
    assert(settled_y(brick, gy) == gy);
    b.lemma_same_stops(d);
    assert(d.stops(px, gy + 1));
}

/// A quarter turn clockwise followed by a quarter turn counterclockwise
/// gives back the piece and its rotation.
pub proof fn lemma_rotation_inverse(b: Board, m: Board, n: Board)
    requires
        b.selected_piece_variant < 4,
        Board::rotated(b, m, 1),
        Board::rotated(m, n, 3),
    ensures
        n.selected_piece == b.selected_piece,
        n.selected_piece_variant == b.selected_piece_variant,
        n.cells == b.cells,
{
}

/// Four quarter turns clockwise give back the piece, its rotation and the
/// cells.
pub proof fn lemma_four_turns(b: Board, m1: Board, m2: Board, m3: Board, n: Board)
    requires
        b.selected_piece_variant < 4,
        Board::rotated(b, m1, 1),
        Board::rotated(m1, m2, 1),
        Board::rotated(m2, m3, 1),
        Board::rotated(m3, n, 1),
    ensures
        n.selected_piece == b.selected_piece,
        n.selected_piece_variant == b.selected_piece_variant,
        n.cells == b.cells,
{
}

/// Clearing the full rows leaves no full row.
pub proof fn lemma_no_full_rows_after_clearing(b: Board, c: Board, r: bool)
    requires
        Board::lines_cleared(b, c, r),
    ensures
        c.full_rows() == 0,
{
    if r {
        let g = c.grid();
        b.kept_rows().lemma_filter_len(not_full());
        b.lemma_full_rows_bound();
        assert forall|i: int| 0 <= i < g.len() implies #[trigger] not_full()(g[i]) by {
            let k = b.full_rows();
            if i < k {
                assert(g[i] == empty_row());
                assert(empty_row()[0] == 0u8);
            } else {
                b.grid().lemma_filter_pred(not_full(), i - k);
            }
        }
        lemma_filter_keeps_all(g, not_full());
    } else {
        assert(c.grid() =~= b.grid());
    }
}

/// Filtering a sequence whose elements all pass keeps it whole.
proof fn lemma_filter_keeps_all<A>(s: Seq<A>, p: spec_fn(A) -> bool)
    requires
        forall|i: int| 0 <= i < s.len() ==> p(#[trigger] s[i]),
    ensures
        s.filter(p) == s,
    decreases s.len(),
{
    reveal(Seq::filter);
    if s.len() > 0 {
        lemma_filter_keeps_all(s.drop_last(), p);
        assert(s.drop_last().push(s.last()) =~= s);
    } else {
        assert(s.filter(p) =~= s);
    }
}

/// The rows that stand in the database once the rows that
/// [`Board::to_tables`] reports as changed have been written over `cells`.
pub open spec fn stored_rows(b: Board, cells: Seq<Cell>) -> Seq<Cell> {
    cells.map_values(
        |c: Cell|
            match b.refreshed(c) {
                Some(n) => n,
                None => c,
            },
    )
}

/// Every board cell has a row in `cells`.
pub open spec fn rows_cover_board(cells: Seq<Cell>) -> bool {
    forall|x: int, y: int|
        on_board(x, y) ==> exists|i: int|
            0 <= i < cells.len() && #[trigger] cells[i].x == x && cells[i].y == y
}

/// When every row for the cell `(x, y)` holds `v`, and there is one, the
/// cell is written `v`.
proof fn lemma_written_agrees(cells: Seq<Cell>, x: int, y: int, v: u8)
    requires
        forall|i: int| 0 <= i < cells.len() && #[trigger] cells[i].x == x && cells[i].y == y ==> cells[i].value == v,
        exists|i: int| 0 <= i < cells.len() && #[trigger] cells[i].x == x && cells[i].y == y,
    ensures
        written(cells, x, y) == v,
    decreases cells.len(),
{
    let n = cells.len() - 1;
    if !(cells[n].x == x && cells[n].y == y) {
        let i = choose|i: int| 0 <= i < cells.len() && #[trigger] cells[i].x == x && cells[i].y == y;
        let rest = cells.drop_last();
        assert(rest[i].x == x && rest[i].y == y);
        assert forall|j: int| 0 <= j < rest.len() && #[trigger] rest[j].x == x && rest[j].y == y implies rest[j].value == v by {
            assert(cells[j] == rest[j]);
        }
        lemma_written_agrees(rest, x, y, v);
    }
}

/// Loading a board from rows that give each of its cells, in any order and
/// possibly more than once, gives back its cells.
pub proof fn lemma_load_gives_back_cells(b: Board, cells: Seq<Cell>)
    requires
        rows_cover_board(cells),
        forall|i: int| 0 <= i < cells.len() ==> (#[trigger] cells[i]).value == b.cell(cells[i].x as int, cells[i].y as int),
    ensures
        forall|x: int, y: int| on_board(x, y) ==> #[trigger] written(cells, x, y) == b.cell(x, y),
{
    assert forall|x: int, y: int| on_board(x, y) implies #[trigger] written(cells, x, y) == b.cell(x, y) by {
        assert forall|i: int| 0 <= i < cells.len() && #[trigger] cells[i].x == x && cells[i].y == y implies cells[i].value == b.cell(x, y) by {
            assert(cells[i].value == b.cell(cells[i].x as int, cells[i].y as int));
        }
        lemma_written_agrees(cells, x, y, b.cell(x, y));
    }
}

/// Storing a board over rows that cover it and loading it again gives back
/// its cells.
pub proof fn lemma_store_then_load(b: Board, cells: Seq<Cell>)
    requires
        rows_cover_board(cells),
    ensures
        forall|x: int, y: int| on_board(x, y) ==> #[trigger] written(stored_rows(b, cells), x, y) == b.cell(x, y),
{
    let st = stored_rows(b, cells);
    assert forall|x: int, y: int| on_board(x, y) implies exists|i: int|
        0 <= i < st.len() && #[trigger] st[i].x == x && st[i].y == y by {
        let i = choose|i: int| 0 <= i < cells.len() && #[trigger] cells[i].x == x && cells[i].y == y;
        assert(st[i].x == x && st[i].y == y);
    }
    assert forall|i: int| 0 <= i < st.len() implies (#[trigger] st[i]).value == b.cell(st[i].x as int, st[i].y as int) by {
        assert(st[i].x == cells[i].x && st[i].y == cells[i].y);
    }
    lemma_load_gives_back_cells(b, st);
}

/// The rows made for a new board by [`crate::reducers::cell_rows`] cover
/// it, and loading them gives back its cells.
pub proof fn lemma_new_rows_cover_board(b: Board, cells: Seq<Cell>)
    requires
        cells.len() == WIDTH * HEIGHT,
        forall|x: int, y: int|
            on_board(x, y) ==> #[trigger] cells[y * WIDTH + x].x == x && cells[y * WIDTH + x].y == y
                && cells[y * WIDTH + x].value == b.cell(x, y),
    ensures
        rows_cover_board(cells),
        forall|x: int, y: int| on_board(x, y) ==> #[trigger] written(cells, x, y) == b.cell(x, y),
{
    assert forall|x: int, y: int| on_board(x, y) implies exists|i: int|
        0 <= i < cells.len() && #[trigger] cells[i].x == x && cells[i].y == y by {
        assert(cells[y * WIDTH + x].x == x && cells[y * WIDTH + x].y == y);
        assert(0 <= y * WIDTH + x < cells.len());
    }
    assert forall|i: int| 0 <= i < cells.len() implies (#[trigger] cells[i]).value == b.cell(cells[i].x as int, cells[i].y as int) by {
        let y = i / 10;
        let x = i % 10;
        assert(i == y * WIDTH + x);
        assert(on_board(x, y));
    }
    lemma_load_gives_back_cells(b, cells);
}

/// Storing a board over cell rows that cover it and loading it again, from
/// the row written for it and the stored cell rows, gives back the board:
/// every field and every cell (the board id is that of the row).
pub proof fn lemma_store_then_load_board(b: Board, bd: BoardData, cells: Seq<Cell>, loaded: Board)
    requires
        rows_cover_board(cells),
        Board::loaded_from(loaded, b.stored_row(bd), stored_rows(b, cells)),
    ensures
        loaded == (Board { board_id: bd.id, ..b }),
{
    lemma_store_then_load(b, cells);
    Board::lemma_board_ext(loaded, Board { board_id: bd.id, ..b });
}

/// Loading a new board from its row and the cell rows made for it gives
/// back the board: every field and every cell (the board id is that of the
/// row).
pub proof fn lemma_new_board_loads_back(b: Board, bd: BoardData, cells: Seq<Cell>, loaded: Board)
    requires
        bd == b.stored_row(bd),
        cells.len() == WIDTH * HEIGHT,
        forall|x: int, y: int|
            on_board(x, y) ==> #[trigger] cells[y * WIDTH + x].x == x && cells[y * WIDTH + x].y == y
                && cells[y * WIDTH + x].value == b.cell(x, y),
        Board::loaded_from(loaded, bd, cells),
    ensures
        loaded == (Board { board_id: bd.id, ..b }),
{
    lemma_new_rows_cover_board(b, cells);
    Board::lemma_board_ext(loaded, Board { board_id: bd.id, ..b });
}

/// Filtering drops some element exactly when some element fails the
/// predicate.
proof fn lemma_filter_shorter<A>(s: Seq<A>, p: spec_fn(A) -> bool)
    ensures
        s.filter(p).len() < s.len() <==> exists|i: int| 0 <= i < s.len() && !p(#[trigger] s[i]),
    decreases s.len(),
{
    reveal(Seq::filter);
    s.lemma_filter_len(p);
    if s.len() > 0 {
        let rest = s.drop_last();
        lemma_filter_shorter(rest, p);
        rest.lemma_filter_len(p);
        if exists|i: int| 0 <= i < s.len() && !p(#[trigger] s[i]) {
            let i = choose|i: int| 0 <= i < s.len() && !p(#[trigger] s[i]);
            if i < s.len() - 1 {
                assert(rest[i] == s[i]);
            }
        } else {
            lemma_filter_keeps_all(s, p);
        }
        if exists|i: int| 0 <= i < rest.len() && !p(#[trigger] rest[i]) {
            let i = choose|i: int| 0 <= i < rest.len() && !p(#[trigger] rest[i]);
            assert(s[i] == rest[i]);
        }
    }
}

/// A row counts as full exactly when none of its cells is 0, whatever
/// nonzero values its cells hold.
pub proof fn lemma_full_row(row: Seq<u8>)
    ensures
        is_full(row) <==> forall|x: int| 0 <= x < row.len() ==> row[x] != 0,
        is_full(row) <==> !row.contains(0u8),
        not_full()(row) <==> row.contains(0u8),
{
    if !is_full(row) {
        let x = choose|x: int| 0 <= x < row.len() && row[x] == 0;
        assert(row[x] == 0u8);
    }
}

/// Some row of `b` is full exactly when some row holds no 0, and the
/// number of full rows is that of the rows that hold no 0.
pub proof fn lemma_some_row_full(b: Board)
    ensures
        b.full_rows() + b.grid().filter(|row: Seq<u8>| row.contains(0u8)).len() == HEIGHT,
        b.full_rows() > 0 <==> exists|y: int| 0 <= y < HEIGHT && !(#[trigger] b.cells@[y]@).contains(0u8),
{
    let g = b.grid();
    assert forall|row: Seq<u8>| #[trigger] not_full()(row) == row.contains(0u8) by {
        lemma_full_row(row);
    }
    assert(not_full() =~= (|row: Seq<u8>| row.contains(0u8)));
    b.lemma_full_rows_bound();
    lemma_filter_shorter(g, not_full());
    if b.full_rows() > 0 {
        let i = choose|i: int| 0 <= i < g.len() && !not_full()(#[trigger] g[i]);
        assert(g[i] == b.cells@[i]@);
        lemma_full_row(g[i]);
    } else {
        assert forall|y: int| 0 <= y < HEIGHT implies (#[trigger] b.cells@[y]@).contains(0u8) by {
            assert(g[y] == b.cells@[y]@);
            lemma_full_row(g[y]);
        }
    }
}

/// Clearing lines: rows are cleared exactly when some row holds no 0,
/// whatever nonzero values it holds; the score grows by 4; the number of
/// cleared rows is added to `lines`, and these many empty rows come on top
/// of the rows that held a 0, which keep their order; afterwards every row
/// holds a 0. When no row is full the cells and `lines` stay.
pub proof fn lemma_clearing_lines(b: Board, c: Board, r: bool)
    requires
        b.score + 4 <= u32::MAX,
        b.lines + HEIGHT <= u32::MAX,
        Board::lines_cleared(b, c, r),
    ensures
        r <==> exists|y: int| 0 <= y < HEIGHT && !(#[trigger] b.cells@[y]@).contains(0u8),
        c.score == b.score + 4,
        r ==> c.lines > b.lines,
        !r ==> c.lines == b.lines && c.cells == b.cells,
        c.lines - b.lines + b.grid().filter(|row: Seq<u8>| row.contains(0u8)).len() == HEIGHT,
        forall|y: int, x: int|
            0 <= y < c.lines - b.lines && 0 <= x < WIDTH ==> #[trigger] c.cells@[y]@[x] == 0,
        c.grid().subrange(c.lines - b.lines, HEIGHT as int) == b.grid().filter(
            |row: Seq<u8>| row.contains(0u8),
        ),
        forall|y: int| 0 <= y < HEIGHT ==> (#[trigger] c.cells@[y]@).contains(0u8),
{
    assert forall|row: Seq<u8>| #[trigger] not_full()(row) == row.contains(0u8) by {
        lemma_full_row(row);
    }
    assert(not_full() =~= (|row: Seq<u8>| row.contains(0u8)));
    let g = b.grid();
    let k = b.full_rows();
    b.lemma_full_rows_bound();
    lemma_some_row_full(b);
    if r {
        assert(c.grid().subrange(k, HEIGHT as int) =~= b.kept_rows());
        assert forall|y: int, x: int| 0 <= y < k && 0 <= x < WIDTH implies #[trigger] c.cells@[y]@[x] == 0 by {
            assert(c.grid()[y] == empty_row());
            assert(c.grid()[y][x] == c.cells@[y]@[x]);
        }
    } else {
        lemma_filter_shorter(g, not_full());
        lemma_filter_keeps_all(g, not_full());
        assert(c.grid().subrange(0, HEIGHT as int) =~= c.grid());
        assert(c.grid() =~= b.grid());
    }
    lemma_no_full_rows_after_clearing(b, c, r);
    lemma_some_row_full(c);
    assert forall|y: int| 0 <= y < HEIGHT implies (#[trigger] c.cells@[y]@).contains(0u8) by {
        if !c.cells@[y]@.contains(0u8) {
            assert(c.full_rows() > 0);
        }
    }
}

/// A piece at `(px, py)` collides exactly when one of its four cells lies
/// on the board, in any column and any row, on a cell that holds a nonzero
/// value.
pub proof fn lemma_collides_exactly(b: Board, brick: [(i8, i8); 4], px: int, py: int)
    ensures
        b.collides(brick, px, py) <==> exists|i: int|
            #![trigger brick@[i]]
            0 <= i < 4 && 0 <= brick@[i].0 + px < WIDTH && 0 <= brick@[i].1 + py < HEIGHT
                && b.cells@[brick@[i].1 + py]@[brick@[i].0 + px] != 0,
{
    if b.collides(brick, px, py) {
        let i = choose|i: int| 0 <= i < 4 && #[trigger] b.hits(brick, px, py, i);
        assert(brick@[i] == brick@[i]);
    }
    if exists|i: int|
        #![trigger brick@[i]]
        0 <= i < 4 && 0 <= brick@[i].0 + px < WIDTH && 0 <= brick@[i].1 + py < HEIGHT
            && b.cells@[brick@[i].1 + py]@[brick@[i].0 + px] != 0 {
        let i = choose|i: int|
            #![trigger brick@[i]]
            0 <= i < 4 && 0 <= brick@[i].0 + px < WIDTH && 0 <= brick@[i].1 + py < HEIGHT
                && b.cells@[brick@[i].1 + py]@[brick@[i].0 + px] != 0;
        assert(b.hits(brick, px, py, i));
    }
}

/// A piece at `(px, py)` lies on the board exactly when each of its four
/// cells does.
pub proof fn lemma_in_bounds_exactly(brick: [(i8, i8); 4], px: int, py: int)
    ensures
        in_bounds(brick, px, py) <==> forall|i: int|
            #![trigger brick@[i]]
            0 <= i < 4 ==> 0 <= brick@[i].0 + px < WIDTH && 0 <= brick@[i].1 + py < HEIGHT,
        left_ok(brick, px) <==> forall|i: int| #![trigger brick@[i]] 0 <= i < 4 ==> 0 <= brick@[i].0 + px,
        right_ok(brick, px) <==> forall|i: int|
            #![trigger brick@[i]]
            0 <= i < 4 ==> brick@[i].0 + px < WIDTH,
        top_ok(brick, py) <==> forall|i: int| #![trigger brick@[i]] 0 <= i < 4 ==> 0 <= brick@[i].1 + py,
        bottom_ok(brick, py) <==> forall|i: int|
            #![trigger brick@[i]]
            0 <= i < 4 ==> brick@[i].1 + py < HEIGHT,
{
}

/// Painting a piece gives every board cell that one of its four cells lands
/// on, in any column and any row, the colour; every other board cell and
/// every other field is kept.
pub proof fn lemma_paint_cells(old: Board, new: Board, brick: [(i8, i8); 4], px: int, py: int, color: u8)
    requires
        Board::painted(old, new, brick, px, py, color),
    ensures
        new == (Board { cells: new.cells, ..old }),
        forall|i: int|
            #![trigger brick@[i]]
            0 <= i < 4 && 0 <= brick@[i].0 + px < WIDTH && 0 <= brick@[i].1 + py < HEIGHT
                ==> new.cells@[brick@[i].1 + py]@[brick@[i].0 + px] == color,
        forall|x: int, y: int|
            0 <= x < WIDTH && 0 <= y < HEIGHT && (forall|i: int|
                0 <= i < 4 ==> #[trigger] brick@[i].0 + px != x || brick@[i].1 + py != y)
                ==> #[trigger] new.cells@[y]@[x] == old.cells@[y]@[x],
{
    assert forall|i: int|
        #![trigger brick@[i]]
        0 <= i < 4 && 0 <= brick@[i].0 + px < WIDTH && 0 <= brick@[i].1 + py < HEIGHT
            implies new.cells@[brick@[i].1 + py]@[brick@[i].0 + px] == color by {
        let x = brick@[i].0 + px;
        let y = brick@[i].1 + py;
        assert(covers(brick, px, py, x, y));
        assert(new.cell(x, y) == color);
    }
    assert forall|x: int, y: int|
        0 <= x < WIDTH && 0 <= y < HEIGHT && (forall|i: int|
            0 <= i < 4 ==> #[trigger] brick@[i].0 + px != x || brick@[i].1 + py != y)
            implies #[trigger] new.cells@[y]@[x] == old.cells@[y]@[x] by {
        assert(!covers(brick, px, py, x, y));
        assert(new.cell(x, y) == old.cell(x, y));
    }
}

/// After a drop that moved the falling piece, each of its four cells lies
/// on the board on a cell that holds 0, and the piece rests: one of its
/// cells is on the bottom row or right above a cell that holds a nonzero
/// value.
pub proof fn lemma_drop_lands_on_empty_cells(b: Board, d: Board)
    requires
        b.piece_known(),
        b.can_place(signed(b.position.0), signed(b.position.1)),
        b.is_ghost_row(signed(b.position.0), signed(b.position.1), b.ghost_y as int),
        Board::dropped(b, d, true),
    ensures
        d.cells == b.cells,
        d.piece() == b.piece(),
        forall|i: int|
            #![trigger d.piece()@[i]]
            0 <= i < 4 ==> 0 <= d.piece()@[i].0 + signed(d.position.0) < WIDTH && 0 <= d.piece()@[i].1
                + d.position.1 < HEIGHT && d.cells@[d.piece()@[i].1 + d.position.1]@[d.piece()@[i].0
                + signed(d.position.0)] == 0,
        exists|i: int|
            #![trigger d.piece()@[i]]
            0 <= i < 4 && (d.piece()@[i].1 + d.position.1 + 1 == HEIGHT || d.cells@[d.piece()@[i].1
                + d.position.1 + 1]@[d.piece()@[i].0 + signed(d.position.0)] != 0),
{
    lemma_drop_rests(b, d);
    b.lemma_piece();
    let brick = b.piece();
    let px = signed(b.position.0);
    let gy = b.ghost_y as int;
    assert(d.position.1 == gy);
    assert(!b.stops(px, gy));
    crate::tetris::lemma_sides(brick, px, b.position.1 as int);
    crate::tetris::lemma_sides(brick, px, gy);
    crate::tetris::lemma_sides(brick, px, gy + 1);
    lemma_collides_exactly(b, brick, px, gy);
    lemma_collides_exactly(b, brick, px, gy + 1);
    lemma_in_bounds_exactly(brick, px, gy);
    lemma_in_bounds_exactly(brick, px, gy + 1);
    if !bottom_ok(brick, gy + 1) {
        let i = choose|i: int| 0 <= i < 4 && !(#[trigger] brick@[i].1 + gy + 1 < HEIGHT);
        assert(brick@[i].1 + gy < HEIGHT);
    }
}

/// Pushing the falling piece inside the board, when no cell of it lies
/// below the board, puts each of its four cells on the board. The piece
/// keeps its column when it lay within the sides and its row when it lay
/// below the top; otherwise it moves no further than needed: at its new
/// place one of its cells is in the first or last column, or in the top
/// row, that it was pushed towards.
pub proof fn lemma_adjust_fits(old: Board, new: Board)
    requires
        old.piece_known(),
        forall|i: int| 0 <= i < 4 ==> #[trigger] old.piece()@[i].1 + signed(old.position.1) < HEIGHT,
        Board::adjusted(old, new),
    ensures
        new.piece() == old.piece(),
        forall|i: int|
            #![trigger new.piece()@[i]]
            0 <= i < 4 ==> 0 <= new.piece()@[i].0 + signed(new.position.0) < WIDTH && 0
                <= new.piece()@[i].1 + new.position.1 < HEIGHT,
        (forall|i: int|
            0 <= i < 4 ==> 0 <= #[trigger] old.piece()@[i].0 + signed(old.position.0) < WIDTH)
            ==> new.position.0 == old.position.0,
        (forall|i: int| 0 <= i < 4 ==> 0 <= #[trigger] old.piece()@[i].1 + signed(old.position.1))
            ==> new.position.1 == old.position.1,
        signed(new.position.0) > signed(old.position.0) ==> exists|i: int|
            0 <= i < 4 && #[trigger] new.piece()@[i].0 + signed(new.position.0) == 0,
        signed(new.position.0) < signed(old.position.0) ==> exists|i: int|
            0 <= i < 4 && #[trigger] new.piece()@[i].0 + signed(new.position.0) == WIDTH - 1,
        new.position.1 >= signed(old.position.1),
        new.position.1 > signed(old.position.1) ==> exists|i: int|
            0 <= i < 4 && #[trigger] new.piece()@[i].1 + new.position.1 == 0,
{
    old.lemma_piece();
    let brick = old.piece();
    let px = signed(old.position.0);
    let py = signed(old.position.1);
    crate::bricks::lemma_shape_bounds(old.selected_piece as int, old.selected_piece_variant as int);
    assert(bottom_ok(brick, py));
    let nx = settled_x(brick, px);
    let ny = settled_y(brick, py);
    crate::tetris::lemma_sides(brick, px, py);
    crate::tetris::lemma_sides(brick, nx, ny);
    assert(in_bounds(brick, nx, ny));
    lemma_in_bounds_exactly(brick, nx, ny);
    if forall|i: int| 0 <= i < 4 ==> 0 <= #[trigger] brick@[i].0 + px < WIDTH {
        assert(left_ok(brick, px));
        assert(right_ok(brick, px));
        assert(nx == px);
    }
    if forall|i: int| 0 <= i < 4 ==> 0 <= #[trigger] brick@[i].1 + py {
        assert(top_ok(brick, py));
    }
    if nx > px {
        assert(nx == -min_x(brick));
        assert(brick@[0].0 + nx == 0 || brick@[1].0 + nx == 0 || brick@[2].0 + nx == 0 || brick@[3].0
            + nx == 0);
    }
    if nx < px {
        assert(nx == WIDTH - 1 - max_x(brick));
        assert(brick@[0].0 + nx == WIDTH - 1 || brick@[1].0 + nx == WIDTH - 1 || brick@[2].0 + nx
            == WIDTH - 1 || brick@[3].0 + nx == WIDTH - 1);
    }
    if ny > py {
        assert(ny == -min_y(brick));
        assert(brick@[0].1 + ny == 0 || brick@[1].1 + ny == 0 || brick@[2].1 + ny == 0 || brick@[3].1
            + ny == 0);
    }
}

/// The landing row `gy` of the falling piece dropped from `(px, py)`: on
/// every row from `py` to `gy` each of its four cells lies above the bottom
/// of the board and, where it lies on the board, on a cell that holds 0;
/// one row lower, one of its cells lies below the board or on a cell that
/// holds a nonzero value.
pub proof fn lemma_ghost_row_exactly(b: Board, px: int, py: int, gy: int)
    requires
        b.is_ghost_row(px, py, gy),
    ensures
        py <= gy + 1,
        forall|g: int, i: int|
            py <= g <= gy && 0 <= i < 4 ==> #[trigger] (b.piece()@[i].1 + g) < HEIGHT && (0
                <= b.piece()@[i].0 + px < WIDTH && 0 <= b.piece()@[i].1 + g ==> b.cells@[b.piece()@[i].1
                + g]@[b.piece()@[i].0 + px] == 0),
        exists|i: int|
            #![trigger b.piece()@[i]]
            0 <= i < 4 && (b.piece()@[i].1 + gy + 1 >= HEIGHT || 0 <= b.piece()@[i].0 + px < WIDTH && 0
                <= b.piece()@[i].1 + gy + 1 && b.cells@[b.piece()@[i].1 + gy + 1]@[b.piece()@[i].0 + px]
                != 0),
{
    let brick = b.piece();
    assert forall|g: int, i: int|
        py <= g <= gy && 0 <= i < 4 implies #[trigger] (brick@[i].1 + g) < HEIGHT && (0 <= brick@[i].0
            + px < WIDTH && 0 <= brick@[i].1 + g ==> b.cells@[brick@[i].1 + g]@[brick@[i].0 + px] == 0) by {
        assert(!b.stops(px, g));
        lemma_collides_exactly(b, brick, px, g);
        lemma_in_bounds_exactly(brick, px, g);
    }
    lemma_collides_exactly(b, brick, px, gy + 1);
    lemma_in_bounds_exactly(brick, px, gy + 1);
}

/// The rows that storing a board reports as changed are the rows of
/// `cells` whose value differs from the board's cell at their place, in
/// their order, each with the board's value in place of its own.
pub proof fn lemma_changed_cells_exactly(b: Board, cells: Seq<Cell>)
    ensures
        b.changed_cells(cells) == cells.filter(
            |c: Cell| c.value != b.cells@[c.y as int]@[c.x as int],
        ).map_values(|c: Cell| (Cell { value: b.cells@[c.y as int]@[c.x as int], ..c })),
    decreases cells.len(),
{
    reveal(Seq::filter);
    let differs = |c: Cell| c.value != b.cells@[c.y as int]@[c.x as int];
    let fresh = |c: Cell| (Cell { value: b.cells@[c.y as int]@[c.x as int], ..c });
    if cells.len() == 0 {
        assert(cells.filter(differs) =~= Seq::<Cell>::empty());
        assert(b.changed_cells(cells) =~= cells.filter(differs).map_values(fresh));
    } else {
        let rest = cells.drop_last();
        lemma_changed_cells_exactly(b, rest);
        if differs(cells.last()) {
            assert(cells.filter(differs) == rest.filter(differs).push(cells.last()));
            assert(cells.filter(differs).map_values(fresh) =~= rest.filter(differs).map_values(fresh).push(
                fresh(cells.last()),
            ));
            assert(b.changed_cells(cells) =~= cells.filter(differs).map_values(fresh));
        } else {
            assert(cells.filter(differs) == rest.filter(differs));
        }
    }
}

/// A new falling piece comes in at the middle column with its top row on
/// the top row of the board: it is the drawn piece while the score is 0
/// (the square always in rotation 0) and the former next piece otherwise;
/// the drawn piece becomes the next one (the square in rotation 0); the
/// cells, score and lines stay, and the landing row is that of the new
/// piece from its place.
pub proof fn lemma_spawn_place(old: Board, new: Board, s: u8, sv: u8, n: u8, nv: u8)
    requires
        s < NUM_BRICKS,
        sv < NUM_VARIANTS,
        n < NUM_BRICKS,
        nv < NUM_VARIANTS,
        old.score != 0 ==> old.next_known(),
        Board::spawned(old, new, s, sv, n, nv),
    ensures
        new.selected_piece == if old.score == 0 {
            s
        } else {
            old.next_piece
        },
        new.selected_piece_variant == if old.score != 0 {
            old.next_piece_variant
        } else if s == O_INDEX {
            0
        } else {
            sv
        },
        new.next_piece == n,
        new.next_piece_variant == if n == O_INDEX {
            0
        } else {
            nv
        },
        new.position.0 == WIDTH / 2,
        new.position.1 == 1,
        forall|i: int|
            #![trigger new.piece()@[i]]
            0 <= i < 4 ==> 0 <= new.piece()@[i].1 + new.position.1 && 0 <= new.piece()@[i].0
                + new.position.0 < WIDTH,
        exists|i: int| 0 <= i < 4 && #[trigger] new.piece()@[i].1 + new.position.1 == 0,
        new.cells == old.cells,
        new.score == old.score,
        new.lines == old.lines,
        new.board_id == old.board_id,
        new.is_ghost_row(new.position.0 as int, new.position.1 as int, new.ghost_y as int),
{
    let p = new.selected_piece as int;
    let v = new.selected_piece_variant as int;
    crate::bricks::lemma_shape_bounds(p, v);
    new.lemma_piece();
    let brick = new.piece();
    crate::tetris::lemma_sides(brick, 5, 0);
    crate::tetris::lemma_sides(brick, 5, 1);
    assert(min_y(brick) == -1);
    assert(settled_x(brick, 5) == 5);
    assert(settled_y(brick, 0) == 1);
}

/// Turning the falling piece right turns its cells a quarter clockwise, up
/// to a move; turning it left turns them a quarter counterclockwise: the
/// cells before are those after turned a quarter clockwise. The square
/// piece does not turn.
pub proof fn lemma_turns_are_quarter_turns(b: Board, r: Board, l: Board)
    requires
        b.piece_known(),
        Board::rotated(b, r, 1),
        Board::rotated(b, l, 3),
    ensures
        b.selected_piece == O_INDEX ==> r == b && l == b,
        b.selected_piece != O_INDEX ==> exists|dx: int, dy: int, m: Seq<int>|
            #[trigger] quarter_turn(b.piece(), r.piece(), dx, dy, m),
        b.selected_piece != O_INDEX ==> exists|dx: int, dy: int, m: Seq<int>|
            #[trigger] quarter_turn(l.piece(), b.piece(), dx, dy, m),
{
    let p = b.selected_piece as int;
    let v = b.selected_piece_variant as int;
    if b.selected_piece != O_INDEX {
        lemma_rotations_turn(p, v);
        assert(r.piece() == crate::bricks::shape(p, (v + 1) % 4));
        let (dx, dy, m) = choose|dx: int, dy: int, m: Seq<int>|
            #[trigger] quarter_turn(crate::bricks::shape(p, v), crate::bricks::shape(p, (v + 1) % 4), dx, dy, m);
        assert(quarter_turn(b.piece(), r.piece(), dx, dy, m));
        let w = (v + 3) % 4;
        lemma_rotations_turn(p, w);
        assert((w + 1) % 4 == v);
        assert(l.piece() == crate::bricks::shape(p, w));
        let (ex, ey, n) = choose|dx: int, dy: int, m: Seq<int>|
            #[trigger] quarter_turn(crate::bricks::shape(p, w), crate::bricks::shape(p, (w + 1) % 4), dx, dy, m);
        assert(quarter_turn(l.piece(), b.piece(), ex, ey, n));
    }
}

/// When a cell of the falling piece lies below the board, pushing the piece
/// inside leaves it where it is, and its landing row becomes its own row.
pub proof fn lemma_adjust_below(old: Board, new: Board)
    requires
        exists|i: int| 0 <= i < 4 && #[trigger] old.piece()@[i].1 + signed(old.position.1) >= HEIGHT,
        Board::adjusted(old, new),
    ensures
        new == (Board { ghost_y: old.position.1, ..old }),
{
    lemma_in_bounds_exactly(old.piece(), signed(old.position.0), signed(old.position.1));
}

/// The falling piece can be placed at `(px, py)` exactly when each of its
/// four cells lies on the board on a cell that holds 0.
pub proof fn lemma_can_place_exactly(b: Board, px: int, py: int)
    ensures
        b.can_place(px, py) <==> forall|i: int|
            #![trigger b.piece()@[i]]
            0 <= i < 4 ==> 0 <= b.piece()@[i].0 + px < WIDTH && 0 <= b.piece()@[i].1 + py < HEIGHT
                && b.cells@[b.piece()@[i].1 + py]@[b.piece()@[i].0 + px] == 0,
{
    lemma_collides_exactly(b, b.piece(), px, py);
    lemma_in_bounds_exactly(b.piece(), px, py);
}

/// On a well-formed board, the falling piece moves one row down exactly
/// when each of its four cells one row lower lies on the board on a cell
/// that holds 0; it then keeps its column and landing row, and otherwise
/// nothing changes.
pub proof fn lemma_lower_exactly(old: Board, new: Board, r: bool)
    requires
        old.wf(),
        Board::lowered(old, new, r),
    ensures
        r <==> forall|i: int|
            #![trigger old.piece()@[i]]
            0 <= i < 4 ==> 0 <= old.piece()@[i].0 + old.position.0 < WIDTH && 0 <= old.piece()@[i].1
                + old.position.1 + 1 < HEIGHT && old.cells@[old.piece()@[i].1 + old.position.1
                + 1]@[old.piece()@[i].0 + old.position.0] == 0,
        r ==> new.position.0 == old.position.0 && new.position.1 == old.position.1 + 1,
        r ==> new == (Board { position: new.position, ..old }),
        !r ==> new == old,
{
    lemma_can_place_exactly(old, old.position.0 as int, old.position.1 + 1);
}

/// On a well-formed board, the falling piece moves `dx` columns aside, one
/// to the left or right, exactly when its new column is not negative and
/// each of its four cells there lies on the board on a cell that holds 0;
/// it then keeps its row, and otherwise nothing changes.
pub proof fn lemma_shift_exactly(old: Board, new: Board, dx: int, r: bool)
    requires
        old.wf(),
        dx == 1 || dx == -1,
        Board::shifted(old, new, dx, r),
    ensures
        r <==> 0 <= old.position.0 + dx && forall|i: int|
            #![trigger old.piece()@[i]]
            0 <= i < 4 ==> 0 <= old.piece()@[i].0 + old.position.0 + dx < WIDTH && 0 <= old.piece()@[i].1
                + old.position.1 < HEIGHT && old.cells@[old.piece()@[i].1 + old.position.1]@[old.piece()@[i].0
                + old.position.0 + dx] == 0,
        r ==> new.position.0 == old.position.0 + dx && new.position.1 == old.position.1,
        r ==> new == (Board { position: new.position, ghost_y: new.ghost_y, ..old }),
        !r ==> new == old,
{
    lemma_can_place_exactly(old, old.position.0 + dx, old.position.1 as int);
}

/// A new board has every cell empty, no score and no lines, and its
/// falling and next pieces are known pieces.
pub proof fn lemma_new_board_is_empty(b: Board)
    requires
        exists|b0: Board, s: u8, sv: u8, n: u8, nv: u8|
            Board::is_blank(b0) && s < NUM_BRICKS && sv < NUM_VARIANTS && n < NUM_BRICKS && nv
                < NUM_VARIANTS && #[trigger] Board::spawned(b0, b, s, sv, n, nv),
    ensures
        forall|x: int, y: int| 0 <= x < WIDTH && 0 <= y < HEIGHT ==> #[trigger] b.cells@[y]@[x] == 0,
        b.score == 0,
        b.lines == 0,
        b.board_id == 0,
        b.selected_piece < NUM_BRICKS,
        b.next_piece < NUM_BRICKS,
{
    let (b0, s, sv, n, nv) = choose|b0: Board, s: u8, sv: u8, n: u8, nv: u8|
        Board::is_blank(b0) && s < NUM_BRICKS && sv < NUM_VARIANTS && n < NUM_BRICKS && nv
            < NUM_VARIANTS && #[trigger] Board::spawned(b0, b, s, sv, n, nv);
    lemma_spawn_place(b0, b, s, sv, n, nv);
    assert forall|x: int, y: int| 0 <= x < WIDTH && 0 <= y < HEIGHT implies #[trigger] b.cells@[y]@[x] == 0 by {
        assert(b0.cell(x, y) == 0);
    }
}

} // verus!
