//! The tile model: a physical tile carries a value (a number from 1 to 13, or
//! a joker) and one of four colors. Tiles with equal value and color are
//! interchangeable; no per-tile identity is tracked.
use vstd::prelude::*;

verus! {

#[derive(Clone, Copy, PartialEq, Eq, Hash, Debug, Structural)]
pub enum Color {
    Red,
    Blue,
    Yellow,
    Black,
}

#[derive(Clone, Copy, PartialEq, Eq, Hash, Debug, Structural)]
pub enum TileValue {
    Number(u8),
    Joker,
}

#[derive(Clone, Copy, PartialEq, Eq, Hash, Debug, Structural)]
pub struct Tile {
    pub value: TileValue,
    pub color: Color,
}

/// Where a move touches a set: at its first tile or at its last.
#[derive(Clone, Copy, PartialEq, Eq, Debug, Structural)]
pub enum FromWhere {
    Start,
    End,
}

#[derive(Clone, Copy, PartialEq, Eq, Debug, Structural)]
pub enum MoveType {
    FromPlayerToBoard,
    FromBoardToPlayer,
}

/// One candidate single-tile move: which tile, at which end of which set,
/// and in which direction it travels.
#[derive(Clone, Copy, PartialEq, Eq, Debug, Structural)]
pub struct TileMove {
    pub tile: Tile,
    pub from_where: FromWhere,
    pub set_index: usize,
    pub move_type: MoveType,
}

/// True when the tile carries a number (jokers carry none).
pub open spec fn tile_is_number(t: Tile) -> bool {
    t.value matches TileValue::Number(_)
}

/// The number on a numbered tile; 0 stands in for a joker, which no
/// structural rule ever matches against.
pub open spec fn tile_number(t: Tile) -> int {
    match t.value {
        TileValue::Number(n) => n as int,
        TileValue::Joker => 0,
    }
}

/// A tile the game can contain: a joker, or a number between 1 and 13.
pub open spec fn tile_valid(t: Tile) -> bool {
    match t.value {
        TileValue::Number(n) => 1 <= n <= 13,
        TileValue::Joker => true,
    }
}

} // verus!
