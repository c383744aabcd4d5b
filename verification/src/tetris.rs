//! The board of one player: the cells, the falling piece and the score.
use crate::bricks::{lemma_shape_bounds, shape, I, J, L, NUM_BRICKS, NUM_VARIANTS, O, O_INDEX, S, T, Z};
use crate::stdb::gen_range_below;
use crate::tables::{BoardData, Cell};
use spacetimedb::ReducerContext;
use vstd::prelude::*;

verus! {

/// Number of columns of a board.
pub const WIDTH: u8 = 10;

/// Number of rows of a board; row 0 is the top one.
pub const HEIGHT: u8 = 20;

/// `v` read as a signed byte, as `v as i8` reads it.
pub open spec fn signed(v: u8) -> int {
    if v < 128 {
        v as int
    } else {
        v - 256
    }
}

/// `v` fits in a signed byte.
pub open spec fn in_i8(v: int) -> bool {
    i8::MIN <= v <= i8::MAX
}

/// The board coordinates of every cell of `brick` placed at `(px, py)`
/// fit in a signed byte.
pub open spec fn piece_in_i8(brick: [(i8, i8); 4], px: int, py: int) -> bool {
    forall|i: int| #![trigger brick@[i]] 0 <= i < 4 ==> in_i8(brick@[i].0 + px) && in_i8(brick@[i].1 + py)
}

/// No cell of `brick` at column `px` lies left of the board.
pub open spec fn left_ok(brick: [(i8, i8); 4], px: int) -> bool {
    forall|i: int| 0 <= i < 4 ==> #[trigger] brick@[i].0 + px >= 0
}

/// No cell of `brick` at column `px` lies right of the board.
pub open spec fn right_ok(brick: [(i8, i8); 4], px: int) -> bool {
    forall|i: int| 0 <= i < 4 ==> #[trigger] brick@[i].0 + px < WIDTH
}

/// No cell of `brick` at row `py` lies above the board.
pub open spec fn top_ok(brick: [(i8, i8); 4], py: int) -> bool {
    forall|i: int| 0 <= i < 4 ==> #[trigger] brick@[i].1 + py >= 0
}

/// No cell of `brick` at row `py` lies below the board.
pub open spec fn bottom_ok(brick: [(i8, i8); 4], py: int) -> bool {
    forall|i: int| 0 <= i < 4 ==> #[trigger] brick@[i].1 + py < HEIGHT
}

/// Every cell of `brick` at `(px, py)` lies on the board.
pub open spec fn in_bounds(brick: [(i8, i8); 4], px: int, py: int) -> bool {
    left_ok(brick, px) && right_ok(brick, px) && top_ok(brick, py) && bottom_ok(brick, py)
}

/// `(x, y)` is a cell of the board.
pub open spec fn on_board(x: int, y: int) -> bool {
    0 <= x < WIDTH && 0 <= y < HEIGHT
}

/// Some cell of `brick` at `(px, py)` is the board cell `(x, y)`.
pub open spec fn covers(brick: [(i8, i8); 4], px: int, py: int, x: int, y: int) -> bool {
    covers_first(brick, px, py, x, y, 4)
}

/// Some of the first `n` cells of `brick` at `(px, py)` is the board cell
/// `(x, y)`.
pub open spec fn covers_first(brick: [(i8, i8); 4], px: int, py: int, x: int, y: int, n: int) -> bool {
    exists|i: int| 0 <= i < n && #[trigger] brick@[i].0 + px == x && brick@[i].1 + py == y
}

/// The least of four numbers.
pub open spec fn min4(a: int, b: int, c: int, d: int) -> int {
    let ab = if a <= b { a } else { b };
    let cd = if c <= d { c } else { d };
    if ab <= cd { ab } else { cd }
}

/// The greatest of four numbers.
pub open spec fn max4(a: int, b: int, c: int, d: int) -> int {
    let ab = if a >= b { a } else { b };
    let cd = if c >= d { c } else { d };
    if ab >= cd { ab } else { cd }
}

/// The leftmost column offset of `brick`.
pub open spec fn min_x(brick: [(i8, i8); 4]) -> int {
    min4(brick@[0].0 as int, brick@[1].0 as int, brick@[2].0 as int, brick@[3].0 as int)
}

/// The rightmost column offset of `brick`.
pub open spec fn max_x(brick: [(i8, i8); 4]) -> int {
    max4(brick@[0].0 as int, brick@[1].0 as int, brick@[2].0 as int, brick@[3].0 as int)
}

/// The topmost row offset of `brick`.
pub open spec fn min_y(brick: [(i8, i8); 4]) -> int {
    min4(brick@[0].1 as int, brick@[1].1 as int, brick@[2].1 as int, brick@[3].1 as int)
}

/// The column at which `brick` at column `px` ends up once pushed inside
/// the board sideways: right until its left edge is on the board, or left
/// until its right edge is.
pub open spec fn settled_x(brick: [(i8, i8); 4], px: int) -> int {
    if px + min_x(brick) < 0 {
        -min_x(brick)
    } else if px + max_x(brick) >= WIDTH {
        WIDTH - 1 - max_x(brick)
    } else {
        px
    }
}

/// The row at which `brick` at row `py` ends up once pushed down until its
/// top edge is on the board.
pub open spec fn settled_y(brick: [(i8, i8); 4], py: int) -> int {
    if py + min_y(brick) < 0 {
        -min_y(brick)
    } else {
        py
    }
}

/// The side checks of a piece read as comparisons of its extreme offsets.
pub proof fn lemma_sides(brick: [(i8, i8); 4], px: int, py: int)
    ensures
        left_ok(brick, px) <==> px + min_x(brick) >= 0,
        right_ok(brick, px) <==> px + max_x(brick) < WIDTH,
        top_ok(brick, py) <==> py + min_y(brick) >= 0,
{
    let b = brick@;
    assert(b[0].0 == brick@[0].0 && b[1].0 == brick@[1].0);
    if left_ok(brick, px) {
        assert(brick@[0].0 + px >= 0 && brick@[1].0 + px >= 0 && brick@[2].0 + px >= 0 && brick@[3].0
            + px >= 0);
    }
    if right_ok(brick, px) {
        assert(brick@[0].0 + px < WIDTH && brick@[1].0 + px < WIDTH && brick@[2].0 + px < WIDTH
            && brick@[3].0 + px < WIDTH);
    }
    if top_ok(brick, py) {
        assert(brick@[0].1 + py >= 0 && brick@[1].1 + py >= 0 && brick@[2].1 + py >= 0 && brick@[3].1
            + py >= 0);
    }
}

/// A row with no empty cell.
pub open spec fn is_full(row: Seq<u8>) -> bool {
    forall|x: int| 0 <= x < row.len() ==> row[x] != 0
}

/// The rows that are kept when full rows are cleared.
pub open spec fn not_full() -> spec_fn(Seq<u8>) -> bool {
    |row: Seq<u8>| !is_full(row)
}

/// A row of empty cells.
pub open spec fn empty_row() -> Seq<u8> {
    Seq::new(WIDTH as nat, |x: int| 0u8)
}

/// The value that the board cell `(x, y)` gets when the rows in `cells` are
/// written in order onto an empty board: that of the last row for `(x, y)`,
/// or 0 when there is none.
pub open spec fn written(cells: Seq<Cell>, x: int, y: int) -> u8
    decreases cells.len(),
{
    if cells.len() == 0 {
        0
    } else if cells.last().x == x && cells.last().y == y {
        cells.last().value
    } else {
        written(cells.drop_last(), x, y)
    }
}

/// A byte read as a signed byte is [`signed`] of it.
pub proof fn lemma_signed(v: u8)
    ensures
        (v as i8) as int == signed(v),
{
    if v < 128 {
        assert((v as i8) as int == v as int) by (bit_vector)
            requires
                v < 128,
        ;
    } else {
        assert((v as i8) as int == v as int - 256) by (bit_vector)
            requires
                v >= 128,
        ;
    }
}

/// The board of one player.
///
/// `cells[y][x]` is 0 for an empty cell, otherwise the piece index plus one
/// of the piece that filled it. The falling piece is `selected_piece` in
/// rotation `selected_piece_variant` at `position`; `ghost_y` is the row at
/// which it would land.
#[derive(Debug, Clone, Copy)]
pub struct Board {
    pub board_id: u32,
    pub cells: [[u8; 10]; 20],
    pub selected_piece: u8,
    pub selected_piece_variant: u8,
    pub next_piece: u8,
    pub next_piece_variant: u8,
    pub position: (u8, u8),
    pub ghost_y: u8,
    pub score: u32,
    pub lines: u32,
}

impl Board {
    /// The value of the board cell in column `x` and row `y`.
    pub open spec fn cell(self, x: int, y: int) -> u8 {
        self.cells@[y]@[x]
    }

    /// The offsets of the falling piece.
    pub open spec fn piece(self) -> [(i8, i8); 4] {
        shape(self.selected_piece as int, self.selected_piece_variant as int)
    }

    /// The falling piece is a known piece in a known rotation.
    pub open spec fn piece_known(self) -> bool {
        self.selected_piece < NUM_BRICKS && self.selected_piece_variant < NUM_VARIANTS
    }

    /// The falling piece is known and lies within twice the board's size.
    pub open spec fn piece_in_range(self) -> bool {
        &&& self.piece_known()
        &&& self.position.0 < 2 * WIDTH
        &&& self.position.1 < 2 * HEIGHT
    }

    /// The next piece is a known piece in a known rotation.
    pub open spec fn next_known(self) -> bool {
        self.next_piece < NUM_BRICKS && self.next_piece_variant < NUM_VARIANTS
    }

    /// The board holds a known piece and a known next piece, and the piece
    /// and its landing row lie within twice the board's size. Every board
    /// that the operations below make or change from a well-formed one is
    /// well-formed.
    pub open spec fn wf(self) -> bool {
        &&& self.piece_in_range()
        &&& self.next_known()
        &&& self.ghost_y < 2 * HEIGHT
    }

    /// Cell `i` of `brick` at `(px, py)` lands on a filled board cell.
    pub open spec fn hits(self, brick: [(i8, i8); 4], px: int, py: int, i: int) -> bool {
        on_board(brick@[i].0 + px, brick@[i].1 + py) && self.cell(brick@[i].0 + px, brick@[i].1 + py)
            != 0
    }

    /// Visiting the cells of `brick` at `(px, py)` in order up to the first
    /// one that lands on a filled board cell, every visited cell has board
    /// coordinates that fit in a signed byte.
    pub open spec fn visit_in_i8(self, brick: [(i8, i8); 4], px: int, py: int) -> bool {
        forall|i: int|
            0 <= i < 4 ==> (forall|j: int| 0 <= j < i ==> !self.hits(brick, px, py, j)) ==> in_i8(
                #[trigger] brick@[i].0 + px,
            ) && in_i8(brick@[i].1 + py)
    }

    /// Some cell of `brick` at `(px, py)` lands on a filled board cell.
    pub open spec fn collides(self, brick: [(i8, i8); 4], px: int, py: int) -> bool {
        exists|i: int| 0 <= i < 4 && #[trigger] self.hits(brick, px, py, i)
    }

    /// `new` is `old` with `brick` at `(px, py)` painted with `color`: the
    /// board cells that the piece covers hold `color`, the others are kept,
    /// and nothing but the cells changes.
    pub open spec fn painted(
        old: Board,
        new: Board,
        brick: [(i8, i8); 4],
        px: int,
        py: int,
        color: u8,
    ) -> bool {
        &&& new == (Board { cells: new.cells, ..old })
        &&& forall|x: int, y: int|
            on_board(x, y) ==> #[trigger] new.cell(x, y) == if covers(brick, px, py, x, y) {
                color
            } else {
                old.cell(x, y)
            }
    }

    fn get_piece_(&self, p: u8, v: usize) -> (r: [(i8, i8); 4])
        requires
            p < NUM_BRICKS,
            v < NUM_VARIANTS,
        ensures
            r == shape(p as int, v as int),
    {
        match p {
            0 => I[v],
            1 => J[v],
            2 => L[v],
            3 => O[v],
            4 => S[v],
            5 => T[v],
            _ => Z[v],
        }
    }

    /// The offsets of the falling piece.
    pub fn get_piece(&self) -> (r: [(i8, i8); 4])
        requires
            self.selected_piece < NUM_BRICKS,
            self.selected_piece_variant < NUM_VARIANTS,
        ensures
            r == self.piece(),
    {
        self.get_piece_(self.selected_piece, self.selected_piece_variant as usize)
    }

    /// The offsets of the piece that comes next.
    pub fn get_next_piece(&self) -> (r: [(i8, i8); 4])
        requires
            self.next_piece < NUM_BRICKS,
            self.next_piece_variant < NUM_VARIANTS,
        ensures
            r == shape(self.next_piece as int, self.next_piece_variant as int),
    {
        self.get_piece_(self.next_piece, self.next_piece_variant as usize)
    }

    /// Which of the four sides of the board `brick` at `pos` stays within:
    /// left, right, top, bottom.
    pub fn piece_fits_bounds(&mut self, pos: (u8, u8), brick: &[(i8, i8); 4]) -> (r: (
        bool,
        bool,
        bool,
        bool,
    ))
        requires
            piece_in_i8(*brick, signed(pos.0), signed(pos.1)),
        ensures
            *final(self) == *old(self),
            r.0 == left_ok(*brick, signed(pos.0)),
            r.1 == right_ok(*brick, signed(pos.0)),
            r.2 == top_ok(*brick, signed(pos.1)),
            r.3 == bottom_ok(*brick, signed(pos.1)),
    {
        proof {
            lemma_signed(pos.0);
            lemma_signed(pos.1);
        }
        let px = #[verifier::truncate] (pos.0 as i8);
        let py = #[verifier::truncate] (pos.1 as i8);
        let mut x0 = true;
        let mut x1 = true;
        let mut y0 = true;
        let mut y1 = true;
        let mut i: usize = 0;
        while i < 4
            invariant
                i <= 4,
                px as int == signed(pos.0),
                py as int == signed(pos.1),
                piece_in_i8(*brick, signed(pos.0), signed(pos.1)),
                x0 == forall|j: int| 0 <= j < i ==> #[trigger] brick@[j].0 + px >= 0,
                x1 == forall|j: int| 0 <= j < i ==> #[trigger] brick@[j].0 + px < WIDTH,
                y0 == forall|j: int| 0 <= j < i ==> #[trigger] brick@[j].1 + py >= 0,
                y1 == forall|j: int| 0 <= j < i ==> #[trigger] brick@[j].1 + py < HEIGHT,
            decreases 4 - i,
        {
            let (bx, by) = brick[i];
            let x = bx + px;
            let y = by + py;
            if x < 0 {
                x0 = false;
            }
            if x >= WIDTH as i8 {
                x1 = false;
            }
            if y < 0 {
                y0 = false;
            }
            if y >= HEIGHT as i8 {
                y1 = false;
            }
            i += 1;
        }
        (x0, x1, y0, y1)
    }

    /// No cell of `brick` at `pos` lands on a filled board cell. The cells
    /// are visited in order and the visit stops at the first filled one.
    pub fn piece_doesnt_collide(&mut self, pos: (u8, u8), brick: &[(i8, i8); 4]) -> (r: bool)
        requires
            old(self).visit_in_i8(*brick, signed(pos.0), signed(pos.1)),
        ensures
            *final(self) == *old(self),
            r == !old(self).collides(*brick, signed(pos.0), signed(pos.1)),
    {
        proof {
            lemma_signed(pos.0);
            lemma_signed(pos.1);
        }
        let px = #[verifier::truncate] (pos.0 as i8);
        let py = #[verifier::truncate] (pos.1 as i8);
        let mut i: usize = 0;
        while i < 4
            invariant
                i <= 4,
                px as int == signed(pos.0),
                py as int == signed(pos.1),
                *self == *old(self),
                old(self).visit_in_i8(*brick, signed(pos.0), signed(pos.1)),
                forall|j: int| 0 <= j < i ==> !#[trigger] self.hits(*brick, px as int, py as int, j),
            decreases 4 - i,
        {
            let (bx, by) = brick[i];
            let x = bx + px;
            let y = by + py;
            if x >= 0 && x < WIDTH as i8 && y >= 0 && y < HEIGHT as i8 {
                if self.cells[y as usize][x as usize] != 0 {
                    assert(self.hits(*brick, px as int, py as int, i as int));
                    return false;
                }
            }
            i += 1;
        }
        true
    }

    /// Paints the board cells that `brick` at `pos` covers with `color`;
    /// cells of the piece that lie off the board are skipped.
    pub fn place_piece(&mut self, pos: (u8, u8), brick: &[(i8, i8); 4], color: u8)
        requires
            piece_in_i8(*brick, signed(pos.0), signed(pos.1)),
        ensures
            Board::painted(*old(self), *final(self), *brick, signed(pos.0), signed(pos.1), color),
    {
        proof {
            lemma_signed(pos.0);
            lemma_signed(pos.1);
        }
        let px = #[verifier::truncate] (pos.0 as i8);
        let py = #[verifier::truncate] (pos.1 as i8);
        let ghost start = *self;
        let mut i: usize = 0;
        while i < 4
            invariant
                i <= 4,
                px as int == signed(pos.0),
                py as int == signed(pos.1),
                piece_in_i8(*brick, signed(pos.0), signed(pos.1)),
                *self == (Board { cells: self.cells, ..start }),
                forall|x: int, y: int|
                    on_board(x, y) ==> #[trigger] self.cell(x, y) == if covers_first(
                        *brick,
                        px as int,
                        py as int,
                        x,
                        y,
                        i as int,
                    ) {
                        color
                    } else {
                        start.cell(x, y)
                    },
            decreases 4 - i,
        {
            let ghost prev = *self;
            let (bx, by) = brick[i];
            let x = bx + px;
            let y = by + py;
            if x >= 0 && x < WIDTH as i8 && y >= 0 && y < HEIGHT as i8 {
                self.cells[y as usize][x as usize] = color;
            }
            proof {
                assert forall|x2: int, y2: int| on_board(x2, y2) implies #[trigger] self.cell(x2, y2)
                    == if covers_first(*brick, px as int, py as int, x2, y2, i + 1) {
                    color
                } else {
                    start.cell(x2, y2)
                } by {
                    if x2 == x && y2 == y {
                        assert(self.cells@[y2]@[x2] == color);
                        assert(brick@[i as int].0 + px == x2 && brick@[i as int].1 + py == y2);
                        assert(covers_first(*brick, px as int, py as int, x2, y2, i + 1));
                    } else {
                        assert(self.cells@[y2]@[x2] == prev.cells@[y2]@[x2]);
                        assert(prev.cell(x2, y2) == if covers_first(
                            *brick,
                            px as int,
                            py as int,
                            x2,
                            y2,
                            i as int,
                        ) {
                            color
                        } else {
                            start.cell(x2, y2)
                        });
                        if covers_first(*brick, px as int, py as int, x2, y2, i + 1) {
                            let j = choose|j: int|
                                0 <= j < i + 1 && #[trigger] brick@[j].0 + px == x2 && brick@[j].1
                                    + py == y2;
                            assert(j != i);
                            assert(covers_first(*brick, px as int, py as int, x2, y2, i as int));
                        }
                        if covers_first(*brick, px as int, py as int, x2, y2, i as int) {
                            let j = choose|j: int|
                                0 <= j < i && #[trigger] brick@[j].0 + px == x2 && brick@[j].1 + py
                                    == y2;
                            assert(covers_first(*brick, px as int, py as int, x2, y2, i + 1));
                        }
                    }
                }
            }
            i += 1;
        }
    }

    /// The falling piece at column `px` and row `g` overlaps a filled cell
    /// or reaches below the board.
    pub open spec fn stops(self, px: int, g: int) -> bool {
        self.collides(self.piece(), px, g) || !bottom_ok(self.piece(), g)
    }

    /// `gy` is the landing row of the falling piece dropped from `(px, py)`:
    /// the row before the first one at or below `py` where it stops.
    pub open spec fn is_ghost_row(self, px: int, py: int, gy: int) -> bool {
        &&& py <= gy + 1
        &&& self.stops(px, gy + 1)
        &&& forall|g: int| py <= g <= gy ==> !#[trigger] self.stops(px, g)
    }

    /// `new` is `old` after its falling piece was pushed inside the board:
    /// if the piece reaches below the board nothing moves and the landing
    /// row becomes the piece's row; otherwise the piece is pushed sideways
    /// and down onto the board and its landing row is computed anew.
    pub open spec fn adjusted(old: Board, new: Board) -> bool {
        let brick = old.piece();
        let px = signed(old.position.0);
        let py = signed(old.position.1);
        &&& new == (Board { position: new.position, ghost_y: new.ghost_y, ..old })
        &&& if bottom_ok(brick, py) {
            &&& signed(new.position.0) == settled_x(brick, px)
            &&& new.position.1 == settled_y(brick, py)
            &&& new.is_ghost_row(settled_x(brick, px), settled_y(brick, py), new.ghost_y as int)
        } else {
            &&& new.position == old.position
            &&& new.ghost_y == old.position.1
        }
    }

    /// Pushing `brick` at `pos` inside the board neither overflows a byte nor
    /// reads a coordinate outside a signed byte: its coordinates at `pos`
    /// fit in a signed byte, and unless it reaches below the board, its row
    /// reads as a nonnegative signed byte and so does its column, or else
    /// its leftmost cell lies right of its column (it is pushed right
    /// until its column reads as -1).
    pub open spec fn adjust_safe(brick: [(i8, i8); 4], pos: (u8, u8)) -> bool {
        &&& piece_in_i8(brick, signed(pos.0), signed(pos.1))
        &&& bottom_ok(brick, signed(pos.1)) ==> pos.1 < 128 && (pos.0 < 128 || min_x(brick) >= 1)
    }

    /// Facts on a known falling piece: its offsets lie in
    /// `-1..=2` and its top row offset is `-1`.
    pub proof fn lemma_piece(self)
        requires
            self.piece_known(),
        ensures
            forall|i: int|
                0 <= i < 4 ==> -1 <= #[trigger] self.piece()@[i].0 <= 2 && -1 <= self.piece()@[i].1
                    <= 2,
            min_y(self.piece()) == -1,
            -1 <= min_x(self.piece()) <= max_x(self.piece()) <= 2,
            forall|px: int, py: int|
                -100 <= px <= 100 && -100 <= py <= 100 ==> #[trigger] piece_in_i8(
                    self.piece(),
                    px,
                    py,
                ),
    {
        lemma_shape_bounds(self.selected_piece as int, self.selected_piece_variant as int);
        let b = self.piece();
        assert(-1 <= b@[0].0 <= 2 && -1 <= b@[1].0 <= 2 && -1 <= b@[2].0 <= 2 && -1 <= b@[3].0 <= 2);
        assert(-1 <= b@[0].1 <= 2 && -1 <= b@[1].1 <= 2 && -1 <= b@[2].1 <= 2 && -1 <= b@[3].1 <= 2);
    }

    /// Puts the falling piece on the board, painted with its piece index
    /// plus one.
    pub fn apply_piece(&mut self)
        requires
            old(self).selected_piece < NUM_BRICKS,
            old(self).selected_piece_variant < NUM_VARIANTS,
            piece_in_i8(
                old(self).piece(),
                signed(old(self).position.0),
                signed(old(self).position.1),
            ),
        ensures
            Board::painted(
                *old(self),
                *final(self),
                old(self).piece(),
                signed(old(self).position.0),
                signed(old(self).position.1),
                (old(self).selected_piece + 1) as u8,
            ),
    {
        let brick = self.get_piece();
        let pos = self.position;
        let color = self.selected_piece + 1;
        self.place_piece(pos, &brick, color);
    }

    /// Takes the falling piece off the board, clearing the cells it covers.
    pub fn unapply_piece(&mut self)
        requires
            old(self).selected_piece < NUM_BRICKS,
            old(self).selected_piece_variant < NUM_VARIANTS,
            piece_in_i8(
                old(self).piece(),
                signed(old(self).position.0),
                signed(old(self).position.1),
            ),
        ensures
            Board::painted(
                *old(self),
                *final(self),
                old(self).piece(),
                signed(old(self).position.0),
                signed(old(self).position.1),
                0,
            ),
    {
        let brick = self.get_piece();
        let pos = self.position;
        self.place_piece(pos, &brick, 0);
    }

    /// Sets `ghost_y` to the landing row of the falling piece.
    fn update_ghost_y(&mut self)
        requires
            old(self).piece_known(),
            piece_in_i8(
                old(self).piece(),
                signed(old(self).position.0),
                signed(old(self).position.1),
            ),
            old(self).position.1 < 128,
            old(self).position.1 > 0 || !old(self).stops(
                signed(old(self).position.0),
                old(self).position.1 as int,
            ),
        ensures
            *final(self) == (Board { ghost_y: final(self).ghost_y, ..*old(self) }),
            final(self).is_ghost_row(
                signed(old(self).position.0),
                old(self).position.1 as int,
                final(self).ghost_y as int,
            ),
            final(self).ghost_y < old(self).position.1 || final(self).ghost_y <= HEIGHT,
    {
        proof {
            self.lemma_piece();
        }
        let ghost start = *self;
        let br = self.get_piece();
        let px = self.position.0;
        let ghost sx = signed(px);
        let py = self.position.1;
        let mut ghost_y = self.position.1;
        loop
            invariant_except_break
                py <= ghost_y,
                ghost_y <= py || ghost_y <= HEIGHT + 1,
                forall|g: int| py <= g < ghost_y ==> !#[trigger] start.stops(sx, g),
            invariant
                *self == start,
                start.piece_known(),
                br == start.piece(),
                px == start.position.0,
                sx == signed(px),
                piece_in_i8(br, sx, py as int),
                py == start.position.1,
                py < 128,
                py > 0 || !start.stops(sx, py as int),
                forall|i: int|
                    0 <= i < 4 ==> -1 <= #[trigger] br@[i].0 <= 2 && -1 <= br@[i].1 <= 2,
            ensures
                start.is_ghost_row(sx, py as int, ghost_y as int),
                ghost_y < py || ghost_y <= HEIGHT,
            decreases 128 - ghost_y,
        {
            proof {
                assert(piece_in_i8(br, sx, ghost_y as int)) by {
                    assert forall|i: int| 0 <= i < 4 implies in_i8(#[trigger] br@[i].0 + sx) && in_i8(
                        br@[i].1 + ghost_y,
                    ) by {
                        let (bx, by) = br@[i];
                        assert(in_i8(bx + sx) && in_i8(by + py));
                    }
                }
                assert(signed(ghost_y) == ghost_y);
                if ghost_y > HEIGHT {
                    assert(!bottom_ok(br, ghost_y as int)) by {
                        assert(br@[0].1 + ghost_y >= HEIGHT);
                    }
                }
            }
            if !self.piece_doesnt_collide((px, ghost_y), &br) {
                ghost_y = ghost_y - 1;
                break;
            }
            let r = self.piece_fits_bounds((px, ghost_y), &br);
            if !r.3 {
                ghost_y = ghost_y - 1;
                break;
            }
            ghost_y += 1;
        }
        self.ghost_y = ghost_y;
        proof {
            self.lemma_same_stops(start);
        }
    }

    /// Two boards with the same cells and falling piece stop the piece at
    /// the same rows.
    pub proof fn lemma_same_stops(self, other: Board)
        requires
            self.cells == other.cells,
            self.selected_piece == other.selected_piece,
            self.selected_piece_variant == other.selected_piece_variant,
        ensures
            forall|px: int, g: int| #[trigger] self.stops(px, g) == other.stops(px, g),
            forall|brick: [(i8, i8); 4], px: int, py: int| #[trigger]
                self.collides(brick, px, py) == other.collides(brick, px, py),
    {
        assert forall|brick: [(i8, i8); 4], px: int, py: int| #[trigger]
            self.collides(brick, px, py) == other.collides(brick, px, py) by {
            assert forall|i: int| #[trigger] self.hits(brick, px, py, i) == other.hits(brick, px, py, i) by {}
            if self.collides(brick, px, py) {
                let i = choose|i: int| 0 <= i < 4 && #[trigger] self.hits(brick, px, py, i);
                assert(other.hits(brick, px, py, i));
            }
            if other.collides(brick, px, py) {
                let i = choose|i: int| 0 <= i < 4 && #[trigger] other.hits(brick, px, py, i);
                assert(self.hits(brick, px, py, i));
            }
        }
    }

    /// Pushes the falling piece inside the board and updates its landing
    /// row; false when the piece reaches below the board.
    fn adjust_piece_placement(&mut self) -> (r: bool)
        requires
            old(self).piece_known(),
            Board::adjust_safe(old(self).piece(), old(self).position),
        ensures
            Board::adjusted(*old(self), *final(self)),
            r == bottom_ok(old(self).piece(), signed(old(self).position.1)),
            piece_in_i8(final(self).piece(), signed(final(self).position.0), signed(final(self).position.1)),
            old(self).piece_in_range() ==> final(self).piece_in_range() && final(self).ghost_y < 2
                * HEIGHT,
    {
        proof {
            self.lemma_piece();
        }
        let ghost start = *self;
        let ghost brick = start.piece();
        let ghost sx = signed(start.position.0);
        let ghost sy = signed(start.position.1);
        let ghost lo = -min_x(brick);
        let ghost hi = WIDTH - 1 - max_x(brick);
        let ghost tx = settled_x(brick, sx);
        let ghost ty = settled_y(brick, sy);
        let piece = self.get_piece();
        loop
            invariant
                start == *old(self),
                start.piece_known(),
                Board::adjust_safe(brick, start.position),
                piece == brick,
                brick == start.piece(),
                sx == signed(start.position.0),
                sy == signed(start.position.1),
                lo == -min_x(brick),
                hi == WIDTH - 1 - max_x(brick),
                tx == settled_x(brick, sx),
                ty == settled_y(brick, sy),
                -2 <= lo <= 1,
                7 <= hi <= 10,
                min_y(brick) == -1,
                forall|i: int|
                    0 <= i < 4 ==> -1 <= #[trigger] brick@[i].0 <= 2 && -1 <= brick@[i].1 <= 2,
                *self == (Board { position: self.position, ..start }),
                piece_in_i8(brick, signed(self.position.0), signed(self.position.1)),
                sx < lo ==> sx <= signed(self.position.0) <= lo,
                sx > hi ==> hi <= signed(self.position.0) <= sx,
                lo <= sx <= hi ==> signed(self.position.0) == sx,
                sy <= signed(self.position.1) <= ty,
                signed(self.position.1) != sy ==> signed(self.position.0) == tx,
                bottom_ok(brick, sy) || self.position == start.position,
                bottom_ok(brick, signed(self.position.1)) == bottom_ok(brick, sy),
                bottom_ok(brick, sy) ==> self.position.1 < 128,
                bottom_ok(brick, sy) ==> self.position.0 < 128 || min_x(brick) >= 1,
            decreases (if signed(self.position.0) < tx {
                tx - signed(self.position.0)
            } else {
                signed(self.position.0) - tx
            }) + ty - signed(self.position.1),
        {
            proof {
                lemma_sides(brick, signed(self.position.0), signed(self.position.1));
            }
            let ghost cur = self.position;
            let r = self.piece_fits_bounds(self.position, &piece);
            if !r.3 {
                self.ghost_y = self.position.1;
                return false;
            } else if !r.0 {
                assert(cur.0 != 127 && cur.0 != 255);
                self.position.0 += 1;
            } else if !r.1 {
                assert(cur.0 != 0 && cur.0 != 128);
                self.position.0 -= 1;
            } else if !r.2 {
                assert(cur.1 < 127);
                self.position.1 += 1;
            } else {
                let ghost before = *self;
                self.update_ghost_y();
                proof {
                    self.lemma_same_stops(before);
                }
                return true;
            }
            proof {
                assert forall|i: int| 0 <= i < 4 implies in_i8(#[trigger] brick@[i].0 + signed(self.position.0)) && in_i8(
                    brick@[i].1 + signed(self.position.1),
                ) by {
                    let (bx, by) = brick@[i];
                    assert(in_i8(bx + signed(cur.0)) && in_i8(by + signed(cur.1)));
                }
            }
        }
    }

    /// `new` is `old` with its falling piece moved to `pos` and its landing
    /// row computed anew for that place.
    pub open spec fn moved_to(old: Board, new: Board, pos: (u8, u8)) -> bool {
        &&& new == (Board { position: pos, ghost_y: new.ghost_y, ..old })
        &&& new.is_ghost_row(signed(pos.0), signed(pos.1), new.ghost_y as int)
    }

    /// The falling piece can be placed at `(px, py)`: it lies on the board
    /// and overlaps no filled cell.
    pub open spec fn can_place(self, px: int, py: int) -> bool {
        in_bounds(self.piece(), px, py) && !self.collides(self.piece(), px, py)
    }

    /// The falling piece is known and, unless it is the square piece, turning
    /// it `turn` quarters clockwise and pushing it inside the board is safe
    /// (see [`Board::adjust_safe`]).
    pub open spec fn turn_safe(self, turn: int) -> bool {
        &&& self.piece_known()
        &&& self.selected_piece != O_INDEX ==> Board::adjust_safe(
            shape(self.selected_piece as int, (self.selected_piece_variant + turn) % 4),
            self.position,
        )
    }

    /// The landing row is not below the falling piece, or the piece is known
    /// and pushing it inside the board from its landing row is safe (see
    /// [`Board::adjust_safe`]).
    pub open spec fn drop_safe(self) -> bool {
        ||| self.ghost_y <= self.position.1
        ||| self.piece_known() && Board::adjust_safe(self.piece(), (self.position.0, self.ghost_y))
    }

    /// `new` is `old` after its falling piece was turned `turn` quarters
    /// clockwise and pushed inside the board; the square piece does not
    /// turn and nothing changes.
    pub open spec fn rotated(old: Board, new: Board, turn: int) -> bool {
        if old.selected_piece == O_INDEX {
            new == old
        } else {
            Board::adjusted(
                Board {
                    selected_piece_variant: ((old.selected_piece_variant + turn) % 4) as u8,
                    ..old
                },
                new,
            )
        }
    }

    /// `r` tells whether the falling piece of `old` can be placed `dx`
    /// columns further right; if so `new` is `old` with the piece moved
    /// there and its landing row computed anew, otherwise `new` is `old`.
    pub open spec fn shifted(old: Board, new: Board, dx: int, r: bool) -> bool {
        let nx = old.position.0 + dx;
        &&& r == (nx >= 0 && old.can_place(signed(nx as u8), signed(old.position.1)))
        &&& r ==> Board::moved_to(old, new, (nx as u8, old.position.1))
        &&& !r ==> new == old
    }

    /// `r` tells whether the falling piece of `old` can be placed one row
    /// lower; if so `new` is `old` with the piece moved there (the landing
    /// row is kept), otherwise `new` is `old`.
    pub open spec fn lowered(old: Board, new: Board, r: bool) -> bool {
        let ny = (old.position.1 + 1) as u8;
        &&& r == old.can_place(signed(old.position.0), signed(ny))
        &&& r ==> new == (Board { position: (old.position.0, ny), ..old })
        &&& !r ==> new == old
    }

    /// `r` tells whether the landing row of `old` lies below its falling
    /// piece; if so `new` is `old` with the piece moved to the landing row
    /// and pushed inside the board, otherwise `new` is `old`.
    pub open spec fn dropped(old: Board, new: Board, r: bool) -> bool {
        &&& r == (old.ghost_y > old.position.1)
        &&& r ==> Board::adjusted(
            Board { position: (old.position.0, old.ghost_y), ..old },
            new,
        )
        &&& !r ==> new == old
    }

    /// `new` is `old` with 4 more points; `r` tells whether some row was
    /// full, and if so the full rows are cleared and counted in `lines`.
    pub open spec fn lines_cleared(old: Board, new: Board, r: bool) -> bool {
        &&& r == (old.full_rows() > 0)
        &&& r ==> new == (Board {
            cells: new.cells,
            score: (old.score + 4) as u32,
            lines: (old.lines + old.full_rows()) as u32,
            ..old
        })
        &&& r ==> new.grid() == old.cleared_grid()
        &&& !r ==> new == (Board { score: (old.score + 4) as u32, ..old })
    }

    /// Turns the falling piece a quarter clockwise, unless it is the square
    /// piece, then pushes it inside the board.
    pub fn rotate_right(&mut self)
        requires
            old(self).turn_safe(1),
        ensures
            Board::rotated(*old(self), *final(self), 1),
            old(self).wf() ==> final(self).wf(),
            old(self).selected_piece != O_INDEX ==> piece_in_i8(
                final(self).piece(),
                signed(final(self).position.0),
                signed(final(self).position.1),
            ),
    {
        if self.selected_piece == O_INDEX {
            return;
        }
        self.selected_piece_variant = (self.selected_piece_variant + 1) % 4;
        self.adjust_piece_placement();
    }

    /// Turns the falling piece a quarter counterclockwise, unless it is the
    /// square piece, then pushes it inside the board.
    pub fn rotate_left(&mut self)
        requires
            old(self).turn_safe(3),
        ensures
            Board::rotated(*old(self), *final(self), 3),
            old(self).wf() ==> final(self).wf(),
            old(self).selected_piece != O_INDEX ==> piece_in_i8(
                final(self).piece(),
                signed(final(self).position.0),
                signed(final(self).position.1),
            ),
    {
        if self.selected_piece == O_INDEX {
            return;
        }
        self.selected_piece_variant = (self.selected_piece_variant + 3) % 4;
        self.adjust_piece_placement();
    }

    /// Moves the falling piece one column left if it can be placed there.
    pub fn move_left(&mut self) -> (r: bool)
        requires
            old(self).piece_known(),
            old(self).position.0 == 0 || piece_in_i8(
                old(self).piece(),
                signed((old(self).position.0 - 1) as u8),
                signed(old(self).position.1),
            ),
        ensures
            Board::shifted(*old(self), *final(self), -1, r),
            r ==> piece_in_i8(
                final(self).piece(),
                signed(final(self).position.0),
                signed(final(self).position.1),
            ),
            old(self).wf() ==> final(self).wf(),
    {
        proof {
            self.lemma_piece();
        }
        let p = self.position;
        if p.0 == 0 {
            return false;
        }
        let p1 = (p.0 - 1, p.1);
        let br = self.get_piece();
        let fits = self.piece_fits_bounds(p1, &br);
        if fits.0 && fits.1 && fits.2 && fits.3 && self.piece_doesnt_collide(p1, &br) {
            self.position.0 -= 1;
            self.update_ghost_y();
            return true;
        }
        false
    }

    /// Moves the falling piece one column right if it can be placed there.
    pub fn move_right(&mut self) -> (r: bool)
        requires
            old(self).piece_known(),
            old(self).position.0 < u8::MAX,
            piece_in_i8(
                old(self).piece(),
                signed((old(self).position.0 + 1) as u8),
                signed(old(self).position.1),
            ),
        ensures
            Board::shifted(*old(self), *final(self), 1, r),
            r ==> piece_in_i8(
                final(self).piece(),
                signed(final(self).position.0),
                signed(final(self).position.1),
            ),
            old(self).wf() ==> final(self).wf(),
    {
        proof {
            self.lemma_piece();
        }
        let p = self.position;
        let p1 = (p.0 + 1, p.1);
        let br = self.get_piece();
        let fits = self.piece_fits_bounds(p1, &br);
        if fits.0 && fits.1 && fits.2 && fits.3 && self.piece_doesnt_collide(p1, &br) {
            self.position.0 += 1;
            self.update_ghost_y();
            return true;
        }
        false
    }

    /// Moves the falling piece one row down if it can be placed there; the
    /// landing row is left as it was.
    pub fn move_down(&mut self) -> (r: bool)
        requires
            old(self).piece_known(),
            old(self).position.1 < u8::MAX,
            piece_in_i8(
                old(self).piece(),
                signed(old(self).position.0),
                signed((old(self).position.1 + 1) as u8),
            ),
        ensures
            Board::lowered(*old(self), *final(self), r),
            r ==> piece_in_i8(
                final(self).piece(),
                signed(final(self).position.0),
                signed(final(self).position.1),
            ),
            old(self).wf() ==> final(self).wf(),
    {
        proof {
            self.lemma_piece();
        }
        let p = self.position;
        let p1 = (p.0, p.1 + 1);
        let br = self.get_piece();
        let fits = self.piece_fits_bounds(p1, &br);
        if fits.0 && fits.1 && fits.2 && fits.3 && self.piece_doesnt_collide(p1, &br) {
            self.position.1 += 1;
            return true;
        }
        false
    }

    /// Drops the falling piece to its landing row, then pushes it inside the
    /// board; false, with nothing changed, when the landing row is not below
    /// the piece.
    pub fn drop(&mut self) -> (r: bool)
        requires
            old(self).drop_safe(),
        ensures
            Board::dropped(*old(self), *final(self), r),
            old(self).wf() ==> final(self).wf(),
            r ==> piece_in_i8(
                final(self).piece(),
                signed(final(self).position.0),
                signed(final(self).position.1),
            ),
    {
        if self.ghost_y <= self.position.1 {
            return false;
        }
        self.position.1 = self.ghost_y;
        self.adjust_piece_placement();
        true
    }

    /// The rows of the board, top first.
    pub open spec fn grid(self) -> Seq<Seq<u8>> {
        Seq::new(HEIGHT as nat, |y: int| self.cells@[y]@)
    }

    /// The rows that are not full, top first.
    pub open spec fn kept_rows(self) -> Seq<Seq<u8>> {
        self.grid().filter(not_full())
    }

    /// The number of full rows.
    pub open spec fn full_rows(self) -> int {
        HEIGHT - self.kept_rows().len()
    }

    /// The rows after the full ones are removed and the rows above them move
    /// down: as many empty rows as were full, then the others in order.
    pub open spec fn cleared_grid(self) -> Seq<Seq<u8>> {
        Seq::new(self.full_rows() as nat, |i: int| empty_row()) + self.kept_rows()
    }

    /// Adds 4 to the score, then removes the full rows, moving the rows
    /// above them down and adding their number to `lines`; false, with the
    /// rows left as they are, when no row is full.
    pub fn detect_lines(&mut self) -> (r: bool)
        requires
            old(self).score + 4 <= u32::MAX,
            old(self).full_rows() == 0 || old(self).lines + old(self).full_rows() <= u32::MAX,
        ensures
            Board::lines_cleared(*old(self), *final(self), r),
    {
        let ghost start = *self;
        proof {
            start.kept_rows().lemma_filter_len(not_full());
        }
        self.score += 4;
        let mut lines: Vec<[u8; 10]> = Vec::new();
        let ghost mut kept: Seq<Seq<u8>> = Seq::empty();
        let mut y: usize = 0;
        while y < 20
            invariant
                y <= 20,
                self.cells == start.cells,
                kept == start.grid().take(y as int).filter(not_full()),
                lines@.len() == kept.len(),
                kept.len() <= y,
                forall|i: int| 0 <= i < kept.len() ==> #[trigger] lines@[i]@ == kept[i],
            decreases 20 - y,
        {
            let row = self.cells[y];
            let has_zero = self.row_has_empty(y);
            proof {
                let g = start.grid();
                reveal(Seq::filter);
                assert(g.take(y + 1).drop_last() =~= g.take(y as int));
                assert(g.take(y + 1).last() == row@);
            }
            if has_zero {
                lines.push(row);
                proof {
                    kept = kept.push(row@);
                }
            }
            y += 1;
        }
        proof {
            assert(start.grid().take(20) =~= start.grid());
        }
        let remaining_lines: u8 = HEIGHT - lines.len() as u8;
        if remaining_lines == 0 {
            return false;
        }
        self.lines += remaining_lines as u32;
        let k = remaining_lines as usize;
        let mut y: usize = 0;
        while y < 20
            invariant
                y <= 20,
                k == start.full_rows(),
                0 < k <= 20,
                lines@.len() + k == 20,
                forall|i: int| 0 <= i < lines@.len() ==> #[trigger] lines@[i]@ == start.kept_rows()[i],
                *self == (Board {
                    cells: self.cells,
                    score: (start.score + 4) as u32,
                    lines: (start.lines + start.full_rows()) as u32,
                    ..start
                }),
                forall|r: int| 0 <= r < y ==> #[trigger] self.cells@[r]@ == start.cleared_grid()[r],
            decreases 20 - y,
        {
            if y < k {
                self.cells[y] = [0u8; 10];
                proof {
                    assert(self.cells@[y as int]@ =~= empty_row());
                }
            } else {
                self.cells[y] = lines[y - k];
            }
            y += 1;
        }
        proof {
            assert(self.grid() =~= start.cleared_grid());
        }
        true
    }

    /// `new` is `old` with a new falling piece: piece `s` in rotation `sv`
    /// while the score is 0, otherwise the former next piece; the next piece
    /// becomes `n` in rotation `nv`. The square piece always takes rotation
    /// 0. The new piece starts at the middle of the top row and is pushed
    /// inside the board.
    pub open spec fn spawned(old: Board, new: Board, s: u8, sv: u8, n: u8, nv: u8) -> bool {
        let sel = if old.score == 0 {
            s
        } else {
            old.next_piece
        };
        let sel_v = if old.score == 0 {
            if s == O_INDEX {
                0
            } else {
                sv
            }
        } else {
            old.next_piece_variant
        };
        let next_v = if n == O_INDEX {
            0
        } else {
            nv
        };
        Board::adjusted(
            Board {
                selected_piece: sel,
                selected_piece_variant: sel_v,
                next_piece: n,
                next_piece_variant: next_v,
                position: ((WIDTH / 2) as u8, 0u8),
                ..old
            },
            new,
        )
    }

    /// Brings in a new falling piece from the given draws (see
    /// [`Board::spawned`]); true when it overlaps no filled cell where it
    /// ends up.
    pub fn place_new_piece(&mut self, s: u8, sv: u8, n: u8, nv: u8) -> (r: bool)
        requires
            old(self).score != 0 ==> old(self).next_known(),
            s < NUM_BRICKS,
            sv < NUM_VARIANTS,
            n < NUM_BRICKS,
            nv < NUM_VARIANTS,
        ensures
            final(self).wf(),
            Board::spawned(*old(self), *final(self), s, sv, n, nv),
            r == !final(self).collides(
                final(self).piece(),
                final(self).position.0 as int,
                final(self).position.1 as int,
            ),
    {
        if self.score == 0 {
            self.selected_piece = s;
            self.selected_piece_variant = if s == O_INDEX {
                0
            } else {
                sv
            };
        } else {
            self.selected_piece = self.next_piece;
            self.selected_piece_variant = self.next_piece_variant;
        }
        self.next_piece = n;
        self.next_piece_variant = if n == O_INDEX {
            0
        } else {
            nv
        };
        self.position = (WIDTH / 2, 0);
        self.adjust_piece_placement();
        proof {
            self.lemma_piece();
        }
        let br = self.get_piece();
        let pos = self.position;
        self.piece_doesnt_collide(pos, &br)
    }

    /// Brings in a new falling piece drawn with the reducer's random number
    /// generator; true when it overlaps no filled cell where it ends up.
    pub fn random_piece(&mut self, ctx: &ReducerContext) -> (r: bool)
        requires
            old(self).score != 0 ==> old(self).next_known(),
        ensures
            final(self).wf(),
            exists|s: u8, sv: u8, n: u8, nv: u8|
                s < NUM_BRICKS && sv < NUM_VARIANTS && n < NUM_BRICKS && nv < NUM_VARIANTS
                    && #[trigger] Board::spawned(*old(self), *final(self), s, sv, n, nv),
            r == !final(self).collides(
                final(self).piece(),
                final(self).position.0 as int,
                final(self).position.1 as int,
            ),
    {
        let mut s: u8 = 0;
        let mut sv: u8 = 0;
        if self.score == 0 {
            s = gen_range_below(ctx, NUM_BRICKS);
            if s != O_INDEX {
                sv = gen_range_below(ctx, NUM_VARIANTS);
            }
        }
        let n = gen_range_below(ctx, NUM_BRICKS);
        let nv = if n == O_INDEX {
            0
        } else {
            gen_range_below(ctx, NUM_VARIANTS)
        };
        let ghost start = *self;
        let r = self.place_new_piece(s, sv, n, nv);
        assert(Board::spawned(start, *self, s, sv, n, nv));
        r
    }

    /// A board with no filled cell, no score and no lines, before its first
    /// piece comes in.
    pub open spec fn is_blank(b: Board) -> bool {
        &&& b.board_id == 0
        &&& forall|x: int, y: int| on_board(x, y) ==> #[trigger] b.cell(x, y) == 0
        &&& b.selected_piece == 0
        &&& b.selected_piece_variant == 0
        &&& b.next_piece == 0
        &&& b.next_piece_variant == 0
        &&& b.position == (0u8, 0u8)
        &&& b.ghost_y == 0
        &&& b.score == 0
        &&& b.lines == 0
    }

    /// An empty board with a first piece drawn with the reducer's random
    /// number generator.
    pub fn new(ctx: &ReducerContext) -> (b: Board)
        ensures
            b.wf(),
            exists|b0: Board, s: u8, sv: u8, n: u8, nv: u8|
                Board::is_blank(b0) && s < NUM_BRICKS && sv < NUM_VARIANTS && n < NUM_BRICKS && nv
                    < NUM_VARIANTS && #[trigger] Board::spawned(b0, b, s, sv, n, nv),
    {
        let mut b = Board {
            board_id: 0,
            cells: [[0u8; 10]; 20],
            selected_piece: 0,
            selected_piece_variant: 0,
            next_piece: 0,
            next_piece_variant: 0,
            position: (0, 0),
            ghost_y: 0,
            score: 0,
            lines: 0,
        };
        let ghost b0 = b;
        assert(Board::is_blank(b0));
        b.random_piece(ctx);
        b
    }

    /// The numbers of the rows, top first.
    pub fn line_numbers_iter(&self) -> (r: Vec<u8>)
        ensures
            r@ == Seq::new(HEIGHT as nat, |y: int| y as u8),
    {
        let mut r: Vec<u8> = Vec::new();
        let mut y: u8 = 0;
        while y < HEIGHT
            invariant
                y <= HEIGHT,
                r@ == Seq::new(y as nat, |i: int| i as u8),
            decreases HEIGHT - y,
        {
            r.push(y);
            y += 1;
        }
        r
    }

    /// Every cell as `(x, y, value)`, row by row from the top, each row from
    /// the left.
    pub fn board_iter(&self) -> (r: Vec<(u8, u8, u8)>)
        ensures
            r.len() == WIDTH * HEIGHT,
            forall|x: int, y: int|
                on_board(x, y) ==> #[trigger] r@[y * WIDTH + x] == (x as u8, y as u8, self.cell(x, y)),
    {
        let mut r: Vec<(u8, u8, u8)> = Vec::new();
        let mut y: u8 = 0;
        while y < HEIGHT
            invariant
                y <= HEIGHT,
                r.len() == y * WIDTH,
                forall|x: int, y2: int|
                    0 <= x < WIDTH && 0 <= y2 < y ==> #[trigger] r@[y2 * WIDTH + x] == (
                        x as u8,
                        y2 as u8,
                        self.cell(x, y2),
                    ),
            decreases HEIGHT - y,
        {
            let mut x: u8 = 0;
            while x < WIDTH
                invariant
                    x <= WIDTH,
                    y < HEIGHT,
                    r.len() == y * WIDTH + x,
                    forall|x2: int, y2: int|
                        0 <= x2 < WIDTH && 0 <= y2 < y ==> #[trigger] r@[y2 * WIDTH + x2] == (
                            x2 as u8,
                            y2 as u8,
                            self.cell(x2, y2),
                        ),
                    forall|x2: int| 0 <= x2 < x ==> #[trigger] r@[y * WIDTH + x2] == (
                        x2 as u8,
                        y as u8,
                        self.cell(x2, y as int),
                    ),
                decreases WIDTH - x,
            {
                r.push((x, y, self.cells[y as usize][x as usize]));
                x += 1;
            }
            y += 1;
        }
        r
    }

    /// The board stored in `bd` and the cell rows `cells`, the cells written
    /// in order (a later row for the same cell wins).
    pub fn from_tables(bd: &BoardData, cells: &Vec<Cell>) -> (b: Board)
        requires
            forall|i: int| 0 <= i < cells.len() ==> #[trigger] cells@[i].x < WIDTH && cells@[i].y < HEIGHT,
        ensures
            Board::loaded_from(b, *bd, cells@),
    {
        let mut b = Board {
            board_id: bd.id,
            cells: [[0u8; 10]; 20],
            selected_piece: bd.selected_piece,
            selected_piece_variant: bd.selected_piece_variant,
            next_piece: bd.next_piece,
            next_piece_variant: bd.next_piece_variant,
            position: (bd.pos_x, bd.pos_y),
            ghost_y: bd.ghost_y,
            score: bd.score,
            lines: bd.lines,
        };
        let ghost start = b;
        let mut i: usize = 0;
        while i < cells.len()
            invariant
                i <= cells.len(),
                forall|j: int| 0 <= j < cells.len() ==> #[trigger] cells@[j].x < WIDTH && cells@[j].y < HEIGHT,
                b == (Board { cells: b.cells, ..start }),
                forall|x: int, y: int|
                    on_board(x, y) ==> #[trigger] b.cell(x, y) == written(cells@.take(i as int), x, y),
            decreases cells.len() - i,
        {
            let c = cells[i];
            assert(c.x < WIDTH && c.y < HEIGHT) by {
                assert(cells@[i as int] == c);
            }
            let ghost prev = b;
            b.cells[c.y as usize][c.x as usize] = c.value;
            proof {
                let pre = cells@.take(i as int);
                let post = cells@.take(i + 1);
                assert(post.drop_last() =~= pre);
                assert(post.last() == c);
                assert forall|x: int, y: int| on_board(x, y) implies #[trigger] b.cell(x, y) == written(
                    post,
                    x,
                    y,
                ) by {
                    if x == c.x && y == c.y {
                        assert(b.cells@[y]@[x] == c.value);
                    } else {
                        assert(b.cells@[y]@[x] == prev.cells@[y]@[x]);
                        assert(prev.cell(x, y) == written(pre, x, y));
                    }
                }
            }
            i += 1;
        }
        proof {
            assert(cells@.take(cells.len() as int) =~= cells@);
        }
        b
    }

    /// `c` with the value that the board holds at its place, or nothing when
    /// it already holds that value.
    pub open spec fn refreshed(self, c: Cell) -> Option<Cell> {
        if c.value != self.cell(c.x as int, c.y as int) {
            Some(Cell { value: self.cell(c.x as int, c.y as int), ..c })
        } else {
            None
        }
    }

    /// The rows of `cells` whose value differs from the board's, in order,
    /// each with the board's value.
    pub open spec fn changed_cells(self, cells: Seq<Cell>) -> Seq<Cell> {
        cells.filter_map(|c: Cell| self.refreshed(c))
    }

    /// `bd` holding the state of this board besides its cells: its pieces,
    /// position, landing row, score and lines; the id and owner of `bd` are
    /// kept.
    pub open spec fn stored_row(self, bd: BoardData) -> BoardData {
        BoardData {
            selected_piece: self.selected_piece,
            selected_piece_variant: self.selected_piece_variant,
            next_piece: self.next_piece,
            next_piece_variant: self.next_piece_variant,
            pos_x: self.position.0,
            pos_y: self.position.1,
            ghost_y: self.ghost_y,
            score: self.score,
            lines: self.lines,
            ..bd
        }
    }

    /// `b` is the board read from the row `bd` and the cell rows `cells`,
    /// the cells written in order (a later row for the same cell wins).
    pub open spec fn loaded_from(b: Board, bd: BoardData, cells: Seq<Cell>) -> bool {
        &&& b.board_id == bd.id
        &&& b.selected_piece == bd.selected_piece
        &&& b.selected_piece_variant == bd.selected_piece_variant
        &&& b.next_piece == bd.next_piece
        &&& b.next_piece_variant == bd.next_piece_variant
        &&& b.position == (bd.pos_x, bd.pos_y)
        &&& b.ghost_y == bd.ghost_y
        &&& b.score == bd.score
        &&& b.lines == bd.lines
        &&& forall|x: int, y: int| on_board(x, y) ==> #[trigger] b.cell(x, y) == written(cells, x, y)
    }

    /// The rows to write back for this board: `bd` holding the board's
    /// state (see [`Board::stored_row`]), and the rows of `cells` whose value
    /// changed.
    pub fn to_tables(&self, bd: &BoardData, cells: &Vec<Cell>) -> (r: (BoardData, Vec<Cell>))
        requires
            forall|i: int| 0 <= i < cells.len() ==> #[trigger] cells@[i].x < WIDTH && cells@[i].y < HEIGHT,
        ensures
            r.0 == self.stored_row(*bd),
            r.1@ == self.changed_cells(cells@),
    {
        let mut d = *bd;
        d.selected_piece = self.selected_piece;
        d.selected_piece_variant = self.selected_piece_variant;
        d.next_piece = self.next_piece;
        d.next_piece_variant = self.next_piece_variant;
        d.pos_x = self.position.0;
        d.pos_y = self.position.1;
        d.ghost_y = self.ghost_y;
        d.score = self.score;
        d.lines = self.lines;
        let mut changed: Vec<Cell> = Vec::new();
        let mut i: usize = 0;
        while i < cells.len()
            invariant
                i <= cells.len(),
                forall|j: int| 0 <= j < cells.len() ==> #[trigger] cells@[j].x < WIDTH && cells@[j].y < HEIGHT,
                changed@ == self.changed_cells(cells@.take(i as int)),
            decreases cells.len() - i,
        {
            let mut c = cells[i];
            let value = self.cells[c.y as usize][c.x as usize];
            proof {
                assert(cells@.take(i + 1).drop_last() =~= cells@.take(i as int));
                assert(cells@.take(i + 1).last() == c);
            }
            if c.value != value {
                c.value = value;
                changed.push(c);
            }
            i += 1;
        }
        proof {
            assert(cells@.take(cells.len() as int) =~= cells@);
        }
        (d, changed)
    }

    /// Whether the board is well-formed (see [`Board::wf`]).
    pub fn is_wf(&self) -> (r: bool)
        ensures
            r == self.wf(),
    {
        self.selected_piece < NUM_BRICKS && self.selected_piece_variant < NUM_VARIANTS
            && self.next_piece < NUM_BRICKS && self.next_piece_variant < NUM_VARIANTS
            && self.position.0 < 2 * WIDTH && self.position.1 < 2 * HEIGHT && self.ghost_y < 2
            * HEIGHT
    }

    /// Between 0 and `HEIGHT` rows are full.
    pub proof fn lemma_full_rows_bound(self)
        ensures
            0 <= self.full_rows() <= HEIGHT,
    {
        self.grid().lemma_filter_len(not_full());
    }

    /// Whether row `y` has an empty cell.
    fn row_has_empty(&self, y: usize) -> (r: bool)
        requires
            y < HEIGHT,
        ensures
            r == !is_full(self.cells@[y as int]@),
    {
        let row = self.cells[y];
        let mut x: usize = 0;
        while x < 10
            invariant
                x <= 10,
                row == self.cells@[y as int],
                forall|j: int| 0 <= j < x ==> #[trigger] row@[j] != 0,
            decreases 10 - x,
        {
            if row[x] == 0 {
                return true;
            }
            x += 1;
        }
        false
    }

    /// The number of full rows.
    pub fn full_row_count(&self) -> (r: u8)
        ensures
            r == self.full_rows(),
    {
        let ghost mut kept: Seq<Seq<u8>> = Seq::empty();
        let mut count: u8 = 0;
        let mut y: usize = 0;
        while y < 20
            invariant
                y <= 20,
                kept == self.grid().take(y as int).filter(not_full()),
                kept.len() <= y,
                count == y - kept.len(),
            decreases 20 - y,
        {
            let row = self.cells[y];
            let has_zero = self.row_has_empty(y);
            proof {
                let g = self.grid();
                reveal(Seq::filter);
                assert(g.take(y + 1).drop_last() =~= g.take(y as int));
                assert(g.take(y + 1).last() == row@);
            }
            if has_zero {
                proof {
                    kept = kept.push(row@);
                }
            } else {
                count += 1;
            }
            y += 1;
        }
        proof {
            assert(self.grid().take(20) =~= self.grid());
        }
        count
    }

    /// Two boards that agree on every field and every board cell are equal.
    pub proof fn lemma_board_ext(a: Board, b: Board)
        requires
            a == (Board { cells: a.cells, ..b }),
            forall|x: int, y: int| on_board(x, y) ==> #[trigger] a.cell(x, y) == b.cell(x, y),
        ensures
            a == b,
    {
        assert forall|y: int| 0 <= y < 20 implies a.cells@[y] == b.cells@[y] by {
            assert forall|x: int| 0 <= x < 10 implies a.cells@[y]@[x] == b.cells@[y]@[x] by {
                assert(a.cell(x, y) == b.cell(x, y));
            }
            assert(a.cells@[y] =~= b.cells@[y]);
        }
        assert(a.cells =~= b.cells);
    }

    /// Painting a piece gives one board only.
    pub proof fn lemma_painted_unique(
        old: Board,
        n1: Board,
        n2: Board,
        brick: [(i8, i8); 4],
        px: int,
        py: int,
        color: u8,
    )
        requires
            Board::painted(old, n1, brick, px, py, color),
            Board::painted(old, n2, brick, px, py, color),
        ensures
            n1 == n2,
    {
        assert forall|x: int, y: int| on_board(x, y) implies #[trigger] n1.cell(x, y) == n2.cell(x, y) by {}
        Board::lemma_board_ext(n1, n2);
    }
}

/// Whether the coordinates of every cell of `brick` at `pos` fit in a signed
/// byte.
pub fn piece_fits_i8(brick: &[(i8, i8); 4], pos: (u8, u8)) -> (r: bool)
    ensures
        r == piece_in_i8(*brick, signed(pos.0), signed(pos.1)),
{
    let px: i16 = if pos.0 < 128 { pos.0 as i16 } else { pos.0 as i16 - 256 };
    let py: i16 = if pos.1 < 128 { pos.1 as i16 } else { pos.1 as i16 - 256 };
    let mut i: usize = 0;
    while i < 4
        invariant
            i <= 4,
            px == signed(pos.0),
            py == signed(pos.1),
            forall|j: int| #![trigger brick@[j]] 0 <= j < i ==> in_i8(brick@[j].0 + px) && in_i8(brick@[j].1 + py),
        decreases 4 - i,
    {
        let (bx, by) = brick[i];
        let x = bx as i16 + px;
        let y = by as i16 + py;
        if x < -128 || x > 127 || y < -128 || y > 127 {
            assert(!in_i8(brick@[i as int].0 + px) || !in_i8(brick@[i as int].1 + py));
            return false;
        }
        i += 1;
    }
    true
}

/// Whether pushing `brick` at `pos` inside the board is safe (see
/// [`Board::adjust_safe`]).
pub fn adjust_is_safe(brick: &[(i8, i8); 4], pos: (u8, u8)) -> (r: bool)
    ensures
        r == Board::adjust_safe(*brick, pos),
{
    if !piece_fits_i8(brick, pos) {
        return false;
    }
    let py: i16 = if pos.1 < 128 { pos.1 as i16 } else { pos.1 as i16 - 256 };
    let mut bottom = true;
    let mut min_col: i8 = brick[0].0;
    let mut i: usize = 0;
    while i < 4
        invariant
            i <= 4,
            py == signed(pos.1),
            bottom == forall|j: int| 0 <= j < i ==> #[trigger] brick@[j].1 + py < HEIGHT,
            i > 0 ==> min_col == min4(
                brick@[0].0 as int,
                if i > 1 { brick@[1].0 as int } else { brick@[0].0 as int },
                if i > 2 { brick@[2].0 as int } else { brick@[0].0 as int },
                if i > 3 { brick@[3].0 as int } else { brick@[0].0 as int },
            ),
            i == 0 ==> min_col == brick@[0].0,
        decreases 4 - i,
    {
        let (bx, by) = brick[i];
        if by as i16 + py >= HEIGHT as i16 {
            bottom = false;
        }
        if bx < min_col {
            min_col = bx;
        }
        i += 1;
    }
    !bottom || (pos.1 < 128 && (pos.0 < 128 || min_col >= 1))
}

} // verus!
