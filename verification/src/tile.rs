//! The content of a map position under its older name.

use crate::cell::Cell;
use crate::map_text::{cell_word, word_cell};
use vstd::prelude::*;

verus! {

/// What a map holds at one position; the same three cases as [`Cell`].
#[derive(Clone, Copy, Debug, PartialEq, Eq, Structural)]
pub enum Tile {
    Ignore,
    Wildcard,
    Fixed(usize),
}

/// The cell that says the same as a tile.
pub open spec fn tile_as_cell(t: Tile) -> Cell {
    match t {
        Tile::Ignore => Cell::Ignore,
        Tile::Wildcard => Cell::Wildcard,
        Tile::Fixed(i) => Cell::Fixed(i),
    }
}

impl Tile {
    /// The cell that says the same as this tile.
    pub fn to_cell(&self) -> (c: Cell)
        ensures
            c == tile_as_cell(*self),
    {
        match self {
            Tile::Ignore => Cell::Ignore,
            Tile::Wildcard => Cell::Wildcard,
            Tile::Fixed(i) => Cell::Fixed(*i),
        }
    }

    /// The word the tile is written as: that of the cell that says the
    /// same.
    pub fn to_word(&self) -> (word: Vec<u8>)
        ensures
            word@ == cell_word(tile_as_cell(*self)),
    {
        self.to_cell().to_word()
    }

    /// The tile a word stands for, or `None` where it stands for none.
    pub fn from_word(word: &Vec<u8>) -> (tile: Option<Tile>)
        ensures
            tile.is_some() == word_cell(word@).is_some(),
            tile matches Some(t) ==> Some(tile_as_cell(t)) == word_cell(word@),
    {
        match Cell::from_word(word) {
            Some(cell) => Some(Tile::from_cell(cell)),
            None => None,
        }
    }

    /// The tile that says the same as a cell.
    pub fn from_cell(c: Cell) -> (t: Tile)
        ensures
            tile_as_cell(t) == c,
    {
        match c {
            Cell::Ignore => Tile::Ignore,
            Cell::Wildcard => Tile::Wildcard,
            Cell::Fixed(i) => Tile::Fixed(i),
        }
    }
}

} // verus!
