use vstd::prelude::*;

use crate::tile::Tile;

verus! {

/// Every way an operation of the engine can be refused.
#[derive(Debug)]
pub enum Error {
    BoardParse(String),
    NoTileToSpend(Tile),
    TurnIndexesNotUnique,
    TurnNotLinear,
    NotStarted,
    AlreadyStarted,
    GameOver,
    BlankTileInTurn,
    CannotPass,
    CannotSwap,
    IndexOutOfBounds,
    TileParse,
    TurnParse,
    SquareOccupied(usize),
    NotConnected,
    IllegalWords(Vec<String>),
}

} // verus!
