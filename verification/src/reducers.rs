//! What the game's reducers do to a player's board between loading it from
//! the database and storing it back.
//!
//! The stored board holds its falling piece painted on the cells; every step
//! takes the piece off, acts, and paints it again.
use crate::bricks::{NUM_BRICKS, NUM_VARIANTS};
use crate::tables::{BoardData, Cell};
use crate::bricks::O_INDEX;
use crate::tetris::{adjust_is_safe, on_board, piece_fits_i8, piece_in_i8, signed, Board, HEIGHT, WIDTH};
use spacetimedb::Identity;
use spacetimedb::ReducerContext;
use vstd::prelude::*;

verus! {

/// Number of players that make up one game.
pub const GAME_NR_OF_PLAYERS: u8 = 4;

/// A game starts once this many players are waiting for one.
pub fn game_is_full(free_players: usize) -> (r: bool)
    ensures
        r == (free_players == GAME_NR_OF_PLAYERS),
{
    free_players == GAME_NR_OF_PLAYERS as usize
}

/// A game ends once no player is left in it.
pub fn game_is_empty(players_left: usize) -> (r: bool)
    ensures
        r == (players_left == 0),
{
    players_left == 0
}

/// `new` is `old` with its falling piece taken off the cells.
pub open spec fn lifted(old: Board, new: Board) -> bool {
    Board::painted(old, new, old.piece(), signed(old.position.0), signed(old.position.1), 0)
}

/// `new` is `old` with its falling piece painted on the cells.
pub open spec fn landed(old: Board, new: Board) -> bool {
    Board::painted(
        old,
        new,
        old.piece(),
        signed(old.position.0),
        signed(old.position.1),
        (old.selected_piece + 1) as u8,
    )
}

/// `n` is what follows on `m` when its falling piece cannot move down: the
/// piece is painted where it is, the full rows are cleared and a new piece
/// comes in from some draws of the random number generator.
pub open spec fn locked(m: Board, n: Board) -> bool {
    exists|a: Board, c: Board, cleared: bool, s: u8, sv: u8, nx: u8, nv: u8|
        #![trigger Board::lines_cleared(a, c, cleared), Board::spawned(c, n, s, sv, nx, nv)]
        landed(m, a) && Board::lines_cleared(a, c, cleared) && s < NUM_BRICKS && sv < NUM_VARIANTS
            && nx < NUM_BRICKS && nv < NUM_VARIANTS && Board::spawned(c, n, s, sv, nx, nv)
}

/// The falling piece is known and the coordinates of its cells fit in a
/// signed byte, so that it can be taken off and painted again.
pub open spec fn liftable(b: Board) -> bool {
    b.piece_known() && piece_in_i8(b.piece(), signed(b.position.0), signed(b.position.1))
}

/// The tick step runs without panicking: the piece can be taken off, its
/// row can grow by one with coordinates that fit in a signed byte, and if
/// it cannot move down, the next piece is known and the score and line
/// count do not overflow.
pub open spec fn move_down_ok(b: Board) -> bool {
    &&& liftable(b)
    &&& b.position.1 < u8::MAX
    &&& piece_in_i8(b.piece(), signed(b.position.0), signed((b.position.1 + 1) as u8))
    &&& forall|u: Board, a: Board|
        #![trigger lifted(b, u), landed(u, a)]
        lifted(b, u) && !u.can_place(signed(u.position.0), signed((u.position.1 + 1) as u8))
            && landed(u, a) ==> b.next_known() && b.score + 4 <= u32::MAX && (a.full_rows() == 0
            || b.lines + a.full_rows() <= u32::MAX)
}

/// The left move step runs without panicking.
pub open spec fn move_left_ok(b: Board) -> bool {
    &&& liftable(b)
    &&& b.position.0 == 0 || piece_in_i8(
        b.piece(),
        signed((b.position.0 - 1) as u8),
        signed(b.position.1),
    )
}

/// The right move step runs without panicking.
pub open spec fn move_right_ok(b: Board) -> bool {
    &&& liftable(b)
    &&& b.position.0 < u8::MAX
    &&& piece_in_i8(b.piece(), signed((b.position.0 + 1) as u8), signed(b.position.1))
}

/// The step of one tick: the falling piece moves one row down; if it cannot,
/// it is painted where it is, full rows are cleared and a new piece comes
/// in. False when that new piece overlaps a filled cell: the game is over.
pub fn move_down(b: &mut Board, ctx: &ReducerContext) -> (game_continues: bool)
    requires
        move_down_ok(*old(b)),
    ensures
        old(b).wf() ==> final(b).wf(),
        exists|u: Board, m: Board, down: bool|
            #![trigger Board::lowered(u, m, down)]
            lifted(*old(b), u) && Board::lowered(u, m, down) && (down ==> landed(m, *final(b))
                && game_continues) && (!down ==> final(b).wf() && exists|n: Board|
                #![trigger locked(m, n)]
                locked(m, n) && n.wf() && game_continues == !n.collides(
                    n.piece(),
                    n.position.0 as int,
                    n.position.1 as int,
                ) && landed(n, *final(b))),
{
    let ghost b0 = *b;
    proof {
        b.lemma_piece();
    }
    b.unapply_piece();
    let ghost u = *b;
    let down_ok = b.move_down();
    let ghost m = *b;
    if down_ok {
        b.apply_piece();
        assert(lifted(b0, u) && Board::lowered(u, m, true) && landed(m, *b));
        true
    } else {
        b.apply_piece();
        let ghost a = *b;
        assert(lifted(b0, u) && landed(u, a));
        let cleared = b.detect_lines();
        let ghost c = *b;
        let game_continues = b.random_piece(ctx);
        let ghost n = *b;
        proof {
            b.lemma_piece();
            let (s, sv, nx, nv) = choose|s: u8, sv: u8, nx: u8, nv: u8|
                s < NUM_BRICKS && sv < NUM_VARIANTS && nx < NUM_BRICKS && nv < NUM_VARIANTS
                    && #[trigger] Board::spawned(c, n, s, sv, nx, nv);
            assert(Board::lines_cleared(a, c, cleared) && Board::spawned(c, n, s, sv, nx, nv));
            assert(locked(m, n));
        }
        b.apply_piece();
        proof {
            assert(Board::lowered(u, m, false));
        }
        game_continues
    }
}

/// The step of a drop: the falling piece falls to its landing row.
pub fn drop(b: &mut Board)
    requires
        liftable(*old(b)),
        old(b).drop_safe(),
    ensures
        old(b).wf() ==> final(b).wf(),
        exists|u: Board, d: Board, r: bool|
            #![trigger Board::dropped(u, d, r)]
            lifted(*old(b), u) && Board::dropped(u, d, r) && landed(d, *final(b)),
{
    proof {
        b.lemma_piece();
    }
    b.unapply_piece();
    let ghost u = *b;
    let r = b.drop();
    let ghost d = *b;
    b.apply_piece();
    assert(Board::dropped(u, d, r));
}

/// The step of a move to the left. False when the piece cannot move there:
/// the stored board is then left as it is.
pub fn move_left(b: &mut Board) -> (moved: bool)
    requires
        move_left_ok(*old(b)),
    ensures
        old(b).wf() ==> final(b).wf(),
        exists|u: Board, m: Board|
            #![trigger Board::shifted(u, m, -1, moved)]
            lifted(*old(b), u) && Board::shifted(u, m, -1, moved) && (moved ==> landed(
                m,
                *final(b),
            )) && (!moved ==> *final(b) == m),
{
    proof {
        b.lemma_piece();
    }
    b.unapply_piece();
    let ghost u = *b;
    if !b.move_left() {
        assert(Board::shifted(u, *b, -1, false));
        return false;
    }
    let ghost m = *b;
    b.apply_piece();
    assert(Board::shifted(u, m, -1, true));
    true
}

/// The step of a move to the right. False when the piece cannot move
/// there: the stored board is then left as it is.
pub fn move_right(b: &mut Board) -> (moved: bool)
    requires
        move_right_ok(*old(b)),
    ensures
        old(b).wf() ==> final(b).wf(),
        exists|u: Board, m: Board|
            #![trigger Board::shifted(u, m, 1, moved)]
            lifted(*old(b), u) && Board::shifted(u, m, 1, moved) && (moved ==> landed(
                m,
                *final(b),
            )) && (!moved ==> *final(b) == m),
{
    proof {
        b.lemma_piece();
    }
    b.unapply_piece();
    let ghost u = *b;
    if !b.move_right() {
        assert(Board::shifted(u, *b, 1, false));
        return false;
    }
    let ghost m = *b;
    b.apply_piece();
    assert(Board::shifted(u, m, 1, true));
    true
}

/// The step of a counterclockwise turn.
pub fn rotate_left(b: &mut Board)
    requires
        liftable(*old(b)),
        old(b).turn_safe(3),
    ensures
        old(b).wf() ==> final(b).wf(),
        exists|u: Board, t: Board|
            #![trigger Board::rotated(u, t, 3)]
            lifted(*old(b), u) && Board::rotated(u, t, 3) && landed(t, *final(b)),
{
    proof {
        b.lemma_piece();
    }
    b.unapply_piece();
    let ghost u = *b;
    b.rotate_left();
    let ghost t = *b;
    b.apply_piece();
    assert(Board::rotated(u, t, 3));
}

/// The step of a clockwise turn.
pub fn rotate_right(b: &mut Board)
    requires
        liftable(*old(b)),
        old(b).turn_safe(1),
    ensures
        old(b).wf() ==> final(b).wf(),
        exists|u: Board, t: Board|
            #![trigger Board::rotated(u, t, 1)]
            lifted(*old(b), u) && Board::rotated(u, t, 1) && landed(t, *final(b)),
{
    proof {
        b.lemma_piece();
    }
    b.unapply_piece();
    let ghost u = *b;
    b.rotate_right();
    let ghost t = *b;
    b.apply_piece();
    assert(Board::rotated(u, t, 1));
}

/// Whether the falling piece can be taken off and painted again (see
/// [`liftable`]).
pub fn liftable_check(b: &Board) -> (r: bool)
    ensures
        r == liftable(*b),
{
    if b.selected_piece >= NUM_BRICKS || b.selected_piece_variant >= NUM_VARIANTS {
        return false;
    }
    let br = b.get_piece();
    piece_fits_i8(&br, b.position)
}

/// Whether the tick step may run on `b` (see [`move_down_ok`]).
pub fn move_down_admits(b: &Board) -> (r: bool)
    ensures
        r == move_down_ok(*b),
{
    if !liftable_check(b) {
        return false;
    }
    let br = b.get_piece();
    if b.position.1 == u8::MAX || !piece_fits_i8(&br, (b.position.0, b.position.1 + 1)) {
        return false;
    }
    let mut probe = *b;
    probe.unapply_piece();
    let ghost u = probe;
    if probe.move_down() {
        proof {
            assert forall|u2: Board, a2: Board|
                lifted(*b, u2) && !u2.can_place(
                    signed(u2.position.0),
                    signed((u2.position.1 + 1) as u8),
                ) && #[trigger] landed(u2, a2) implies false by {
                Board::lemma_painted_unique(
                    *b,
                    u2,
                    u,
                    b.piece(),
                    signed(b.position.0),
                    signed(b.position.1),
                    0,
                );
            }
        }
        return true;
    }
    probe.apply_piece();
    let ghost a = probe;
    let full = probe.full_row_count();
    let ok = b.next_piece < NUM_BRICKS && b.next_piece_variant < NUM_VARIANTS && b.score <= u32::MAX
        - 4 && (full == 0 || b.lines <= u32::MAX - full as u32);
    proof {
        assert forall|u2: Board, a2: Board|
            lifted(*b, u2) && #[trigger] landed(u2, a2) implies u2 == u && a2 == a by {
            Board::lemma_painted_unique(
                *b,
                u2,
                u,
                b.piece(),
                signed(b.position.0),
                signed(b.position.1),
                0,
            );
            Board::lemma_painted_unique(
                u,
                a2,
                a,
                u.piece(),
                signed(u.position.0),
                signed(u.position.1),
                (u.selected_piece + 1) as u8,
            );
        }
        assert(lifted(*b, u) && landed(u, a));
    }
    ok
}

/// Whether the left move step may run on `b` (see [`move_left_ok`]).
pub fn move_left_admits(b: &Board) -> (r: bool)
    ensures
        r == move_left_ok(*b),
{
    if !liftable_check(b) {
        return false;
    }
    let br = b.get_piece();
    b.position.0 == 0 || piece_fits_i8(&br, (b.position.0 - 1, b.position.1))
}

/// Whether the right move step may run on `b` (see [`move_right_ok`]).
pub fn move_right_admits(b: &Board) -> (r: bool)
    ensures
        r == move_right_ok(*b),
{
    if !liftable_check(b) {
        return false;
    }
    let br = b.get_piece();
    b.position.0 < u8::MAX && piece_fits_i8(&br, (b.position.0 + 1, b.position.1))
}

/// Whether a turn step by `turn` quarters (1 or 3) may run on `b`.
pub fn turn_admits(b: &Board, turn: u8) -> (r: bool)
    requires
        turn == 1 || turn == 3,
    ensures
        r == (liftable(*b) && b.turn_safe(turn as int)),
{
    if !liftable_check(b) {
        return false;
    }
    if b.selected_piece == O_INDEX {
        return true;
    }
    let turned = Board { selected_piece_variant: (b.selected_piece_variant + turn) % 4, ..*b };
    let br = turned.get_piece();
    adjust_is_safe(&br, b.position)
}

/// Whether the drop step may run on `b`.
pub fn drop_admits(b: &Board) -> (r: bool)
    ensures
        r == (liftable(*b) && b.drop_safe()),
{
    if !liftable_check(b) {
        return false;
    }
    if b.ghost_y <= b.position.1 {
        return true;
    }
    let br = b.get_piece();
    adjust_is_safe(&br, (b.position.0, b.ghost_y))
}

/// A new board for a player who just connected: an empty board with a
/// first piece, painted on its cells.
pub fn prepare_board(ctx: &ReducerContext) -> (b: Board)
    ensures
        b.wf(),
        exists|b0: Board, b1: Board, s: u8, sv: u8, n: u8, nv: u8|
            #![trigger Board::spawned(b0, b1, s, sv, n, nv)]
            Board::is_blank(b0) && s < NUM_BRICKS && sv < NUM_VARIANTS && n < NUM_BRICKS && nv
                < NUM_VARIANTS && Board::spawned(b0, b1, s, sv, n, nv) && b1.wf() && landed(b1, b),
{
    let mut b = Board::new(ctx);
    let ghost b1 = b;
    proof {
        b.lemma_piece();
    }
    b.apply_piece();
    b
}

/// The stored row for the state of `b` besides its cells, owned by `owner`;
/// its id is left 0 for the database to assign.
pub fn board_row(b: &Board, owner: Identity) -> (bd: BoardData)
    ensures
        bd.id == 0,
        bd.owner == owner,
        bd == b.stored_row(bd),
{
    BoardData {
        id: 0,
        owner,
        selected_piece: b.selected_piece,
        selected_piece_variant: b.selected_piece_variant,
        next_piece: b.next_piece,
        next_piece_variant: b.next_piece_variant,
        pos_x: b.position.0,
        pos_y: b.position.1,
        ghost_y: b.ghost_y,
        score: b.score,
        lines: b.lines,
    }
}

/// The stored rows for the cells of `b`, of the board `board_id`, row by row
/// from the top; their ids are left 0 for the database to assign.
pub fn cell_rows(b: &Board, board_id: u32) -> (cells: Vec<Cell>)
    ensures
        cells.len() == WIDTH * HEIGHT,
        forall|x: int, y: int|
            on_board(x, y) ==> #[trigger] cells@[y * WIDTH + x] == (Cell {
                id: 0,
                board_id: board_id,
                x: x as u8,
                y: y as u8,
                value: b.cell(x, y),
            }),
{
    let all = b.board_iter();
    let mut cells: Vec<Cell> = Vec::new();
    let mut i: usize = 0;
    while i < all.len()
        invariant
            i <= all.len(),
            all.len() == WIDTH * HEIGHT,
            cells.len() == i,
            forall|j: int|
                0 <= j < i ==> #[trigger] cells@[j] == (Cell {
                    id: 0,
                    board_id: board_id,
                    x: all@[j].0,
                    y: all@[j].1,
                    value: all@[j].2,
                }),
        decreases all.len() - i,
    {
        let (x, y, value) = all[i];
        cells.push(Cell { id: 0, board_id, x, y, value });
        i += 1;
    }
    proof {
        assert forall|x: int, y: int| on_board(x, y) implies #[trigger] cells@[y * WIDTH + x] == (Cell {
            id: 0,
            board_id: board_id,
            x: x as u8,
            y: y as u8,
            value: b.cell(x, y),
        }) by {
            assert(all@[y * WIDTH + x] == (x as u8, y as u8, b.cell(x, y)));
            assert(0 <= y * WIDTH + x < WIDTH * HEIGHT);
        }
    }
    cells
}

} // verus!
