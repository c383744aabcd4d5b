//! The rows that the game keeps in the database, as plain values.
use spacetimedb::Identity;
use vstd::prelude::*;

verus! {

/// One cell of one board: `value` is 0 for an empty cell, otherwise the
/// piece index plus one of the piece that filled it.
#[derive(Debug, Clone, Copy)]
pub struct Cell {
    pub id: u32,
    pub board_id: u32,
    pub x: u8,
    pub y: u8,
    pub value: u8,
}

/// The state of one board besides its cells.
#[derive(Debug, Clone, Copy)]
pub struct BoardData {
    pub id: u32,
    pub owner: Identity,
    pub selected_piece: u8,
    pub selected_piece_variant: u8,
    pub next_piece: u8,
    pub next_piece_variant: u8,
    pub pos_x: u8,
    pub pos_y: u8,
    pub ghost_y: u8,
    pub score: u32,
    pub lines: u32,
}

} // verus!
