//! The seven tetrominoes, each in its four rotations.
//!
//! A rotation is four `(x, y)` offsets from the piece's position on the
//! board. Every rotation is drawn in the box `-1..=2 x -1..=2` with its top
//! row at `y == -1`, so that a freshly spawned piece sits on the top row of
//! the board once it has been pushed inside the bounds.
use vstd::prelude::*;

verus! {

/// Number of distinct pieces.
pub const NUM_BRICKS: u8 = 7;

/// Number of rotations of each piece.
pub const NUM_VARIANTS: u8 = 4;

/// Index of the square piece, the only one that does not rotate.
pub const O_INDEX: u8 = 3;

pub const I: [[(i8, i8); 4]; 4] = [
    [(-1, -1), (0, -1), (1, -1), (2, -1)],
    [(1, -1), (1, 0), (1, 1), (1, 2)],
    [(-1, -1), (0, -1), (1, -1), (2, -1)],
    [(0, -1), (0, 0), (0, 1), (0, 2)],
];

pub const J: [[(i8, i8); 4]; 4] = [
    [(-1, -1), (-1, 0), (0, 0), (1, 0)],
    [(0, -1), (1, -1), (0, 0), (0, 1)],
    [(-1, -1), (0, -1), (1, -1), (1, 0)],
    [(0, -1), (0, 0), (-1, 1), (0, 1)],
];

pub const L: [[(i8, i8); 4]; 4] = [
    [(1, -1), (-1, 0), (0, 0), (1, 0)],
    [(0, -1), (0, 0), (0, 1), (1, 1)],
    [(-1, -1), (0, -1), (1, -1), (-1, 0)],
    [(-1, -1), (0, -1), (0, 0), (0, 1)],
];

pub const O: [[(i8, i8); 4]; 4] = [
    [(0, -1), (1, -1), (0, 0), (1, 0)],
    [(0, -1), (1, -1), (0, 0), (1, 0)],
    [(0, -1), (1, -1), (0, 0), (1, 0)],
    [(0, -1), (1, -1), (0, 0), (1, 0)],
];

pub const S: [[(i8, i8); 4]; 4] = [
    [(0, -1), (1, -1), (-1, 0), (0, 0)],
    [(0, -1), (0, 0), (1, 0), (1, 1)],
    [(0, -1), (1, -1), (-1, 0), (0, 0)],
    [(-1, -1), (-1, 0), (0, 0), (0, 1)],
];

pub const T: [[(i8, i8); 4]; 4] = [
    [(0, -1), (-1, 0), (0, 0), (1, 0)],
    [(0, -1), (0, 0), (1, 0), (0, 1)],
    [(-1, -1), (0, -1), (1, -1), (0, 0)],
    [(0, -1), (-1, 0), (0, 0), (0, 1)],
];

pub const Z: [[(i8, i8); 4]; 4] = [
    [(-1, -1), (0, -1), (0, 0), (1, 0)],
    [(1, -1), (0, 0), (1, 0), (0, 1)],
    [(-1, -1), (0, -1), (0, 0), (1, 0)],
    [(0, -1), (-1, 0), (0, 0), (-1, 1)],
];

/// The offsets of piece `p` in rotation `v`.
pub open spec fn shape(p: int, v: int) -> [(i8, i8); 4] {
    if p == 0 {
        I@[v]
    } else if p == 1 {
        J@[v]
    } else if p == 2 {
        L@[v]
    } else if p == 3 {
        O@[v]
    } else if p == 4 {
        S@[v]
    } else if p == 5 {
        T@[v]
    } else {
        Z@[v]
    }
}

/// Every offset of every rotation lies in `-1..=2`, and every rotation
/// reaches up to the row `y == -1`.
pub proof fn lemma_shape_bounds(p: int, v: int)
    requires
        0 <= p < NUM_BRICKS,
        0 <= v < NUM_VARIANTS,
    ensures
        forall|i: int|
            0 <= i < 4 ==> -1 <= #[trigger] shape(p, v)@[i].0 <= 2 && -1 <= shape(p, v)@[i].1 <= 2,
        exists|i: int| 0 <= i < 4 && #[trigger] shape(p, v)@[i].1 == -1,
{
    assert(shape(p, v)@[0].1 == -1);
}

/// The pieces are numbered in the order I, J, L, O, S, T, Z: the offsets of
/// piece `p` in rotation `v` are row `v` of the `p`-th table, and the square
/// piece is piece 3.
pub proof fn lemma_shape_table(v: int)
    requires
        0 <= v < NUM_VARIANTS,
    ensures
        shape(0, v) == I@[v],
        shape(1, v) == J@[v],
        shape(2, v) == L@[v],
        shape(3, v) == O@[v],
        shape(4, v) == S@[v],
        shape(5, v) == T@[v],
        shape(6, v) == Z@[v],
        O_INDEX == 3,
{
}

/// The cells of `b` are those of `a` turned a quarter clockwise (the
/// offset `(x, y)` going to `(-y, x)`, rows counted downwards) and then
/// moved by `(dx, dy)`: cell `k` of `a` becomes cell `m[k]` of `b`, and no
/// two cells of `a` become the same cell of `b`.
pub open spec fn quarter_turn(a: [(i8, i8); 4], b: [(i8, i8); 4], dx: int, dy: int, m: Seq<int>) -> bool {
    &&& m.len() == 4
    &&& forall|k: int| 0 <= k < 4 ==> 0 <= #[trigger] m[k] < 4
    &&& forall|k: int, l: int| 0 <= k < l < 4 ==> #[trigger] m[k] != #[trigger] m[l]
    &&& forall|k: int|
        0 <= k < 4 ==> (#[trigger] b@[m[k]]).0 == -a@[k].1 + dx && b@[m[k]].1 == a@[k].0 + dy
}

/// Each rotation of each piece is the one before it turned a quarter
/// clockwise, up to a move.
pub proof fn lemma_rotations_turn(p: int, v: int)
    requires
        0 <= p < NUM_BRICKS,
        0 <= v < NUM_VARIANTS,
    ensures
        exists|dx: int, dy: int, m: Seq<int>|
            #[trigger] quarter_turn(shape(p, v), shape(p, (v + 1) % 4), dx, dy, m),
{
    if p == 0 && v == 0 {
        assert(quarter_turn(shape(p, v), shape(p, (v + 1) % 4), 0, 0, seq![0, 1, 2, 3]));
    } else if p == 0 && v == 1 {
        assert(quarter_turn(shape(p, v), shape(p, (v + 1) % 4), 1, -2, seq![3, 2, 1, 0]));
    } else if p == 0 && v == 2 {
        assert(quarter_turn(shape(p, v), shape(p, (v + 1) % 4), -1, 0, seq![0, 1, 2, 3]));
    } else if p == 0 && v == 3 {
        assert(quarter_turn(shape(p, v), shape(p, (v + 1) % 4), 1, -1, seq![3, 2, 1, 0]));
    } else if p == 1 && v == 0 {
        assert(quarter_turn(shape(p, v), shape(p, (v + 1) % 4), 0, 0, seq![1, 0, 2, 3]));
    } else if p == 1 && v == 1 {
        assert(quarter_turn(shape(p, v), shape(p, (v + 1) % 4), 0, -1, seq![2, 3, 1, 0]));
    } else if p == 1 && v == 2 {
        assert(quarter_turn(shape(p, v), shape(p, (v + 1) % 4), -1, 0, seq![0, 1, 3, 2]));
    } else if p == 1 && v == 3 {
        assert(quarter_turn(shape(p, v), shape(p, (v + 1) % 4), 0, 0, seq![3, 2, 0, 1]));
    } else if p == 2 && v == 0 {
        assert(quarter_turn(shape(p, v), shape(p, (v + 1) % 4), 0, 0, seq![3, 0, 1, 2]));
    } else if p == 2 && v == 1 {
        assert(quarter_turn(shape(p, v), shape(p, (v + 1) % 4), 0, -1, seq![2, 1, 0, 3]));
    } else if p == 2 && v == 2 {
        assert(quarter_turn(shape(p, v), shape(p, (v + 1) % 4), -1, 0, seq![1, 2, 3, 0]));
    } else if p == 2 && v == 3 {
        assert(quarter_turn(shape(p, v), shape(p, (v + 1) % 4), 0, 0, seq![0, 3, 2, 1]));
    } else if p == 3 && v == 0 {
        assert(quarter_turn(shape(p, v), shape(p, (v + 1) % 4), 0, -1, seq![1, 3, 0, 2]));
    } else if p == 3 && v == 1 {
        assert(quarter_turn(shape(p, v), shape(p, (v + 1) % 4), 0, -1, seq![1, 3, 0, 2]));
    } else if p == 3 && v == 2 {
        assert(quarter_turn(shape(p, v), shape(p, (v + 1) % 4), 0, -1, seq![1, 3, 0, 2]));
    } else if p == 3 && v == 3 {
        assert(quarter_turn(shape(p, v), shape(p, (v + 1) % 4), 0, -1, seq![1, 3, 0, 2]));
    } else if p == 4 && v == 0 {
        assert(quarter_turn(shape(p, v), shape(p, (v + 1) % 4), 0, 0, seq![2, 3, 0, 1]));
    } else if p == 4 && v == 1 {
        assert(quarter_turn(shape(p, v), shape(p, (v + 1) % 4), 0, -1, seq![1, 0, 3, 2]));
    } else if p == 4 && v == 2 {
        assert(quarter_turn(shape(p, v), shape(p, (v + 1) % 4), -1, 0, seq![2, 3, 0, 1]));
    } else if p == 4 && v == 3 {
        assert(quarter_turn(shape(p, v), shape(p, (v + 1) % 4), 0, 0, seq![1, 0, 3, 2]));
    } else if p == 5 && v == 0 {
        assert(quarter_turn(shape(p, v), shape(p, (v + 1) % 4), 0, 0, seq![2, 0, 1, 3]));
    } else if p == 5 && v == 1 {
        assert(quarter_turn(shape(p, v), shape(p, (v + 1) % 4), 0, -1, seq![2, 1, 3, 0]));
    } else if p == 5 && v == 2 {
        assert(quarter_turn(shape(p, v), shape(p, (v + 1) % 4), -1, 0, seq![0, 2, 3, 1]));
    } else if p == 5 && v == 3 {
        assert(quarter_turn(shape(p, v), shape(p, (v + 1) % 4), 0, 0, seq![3, 0, 2, 1]));
    } else if p == 6 && v == 0 {
        assert(quarter_turn(shape(p, v), shape(p, (v + 1) % 4), 0, 0, seq![0, 2, 1, 3]));
    } else if p == 6 && v == 1 {
        assert(quarter_turn(shape(p, v), shape(p, (v + 1) % 4), 0, -1, seq![3, 1, 2, 0]));
    } else if p == 6 && v == 2 {
        assert(quarter_turn(shape(p, v), shape(p, (v + 1) % 4), -1, 0, seq![0, 2, 1, 3]));
    } else if p == 6 && v == 3 {
        assert(quarter_turn(shape(p, v), shape(p, (v + 1) % 4), 0, 0, seq![3, 1, 2, 0]));
    }
}

} // verus!
