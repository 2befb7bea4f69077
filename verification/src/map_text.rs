//! The text form of maps: one row per line, one word per cell.
//!
//! A fixed cell is written as the decimal number of its tile, a wildcard as
//! `*` and a hole as `!`. Words are set apart by blanks; lines without a
//! word and lines whose first word starts with `#` are passed over.

use crate::cell::Cell;
use crate::error::{MapFault, WfcError};
use crate::map::{bounds_indices, grid_shaped, holds_fixed, holds_index, TileMap};
use crate::text::{
    all_spaces, digit_count, digits_of, gaps_view, is_digit, is_piece, lemma_digits,
    lemma_table_round_trip, number_in, parse_number, push_number, read_table, spaces, table_of,
    table_text, table_view, words_of, writable, write_table, Cut,
};
use vstd::prelude::*;
use vstd::string::StringSliceAdditionalSpecFns;

verus! {

/// The word for a hole.
pub const IGNORE_MARK: u8 = 33;

/// The word for a wildcard.
pub const WILDCARD_MARK: u8 = 42;

/// The word a cell is written as.
pub open spec fn cell_word(cell: Cell) -> Seq<u8> {
    match cell {
        Cell::Ignore => seq![33u8],
        Cell::Wildcard => seq![42u8],
        Cell::Fixed(i) => digits_of(i as nat),
    }
}

/// The cell a word stands for, or `None` where it stands for none.
pub open spec fn word_cell(word: Seq<u8>) -> Option<Cell> {
    if word == seq![33u8] {
        Some(Cell::Ignore)
    } else if word == seq![42u8] {
        Some(Cell::Wildcard)
    } else {
        match number_in(word) {
            Some(i) => Some(Cell::Fixed(i)),
            None => None,
        }
    }
}

/// Whether every word of a table stands for a cell.
pub open spec fn all_cells(table: Seq<Seq<Seq<u8>>>) -> bool {
    forall|r: int, c: int|
        0 <= r < table.len() && 0 <= c < table[r].len() ==> word_cell(#[trigger] table[r][c]).is_some()
}

/// The cells a table of words stands for.
pub open spec fn cells_in(table: Seq<Seq<Seq<u8>>>) -> Seq<Seq<Cell>> {
    Seq::new(
        table.len(),
        |r: int| Seq::new(table[r].len(), |c: int| word_cell(table[r][c]).unwrap()),
    )
}

/// The cells of a list of rows.
pub open spec fn rows_view(rows: Seq<Vec<Cell>>) -> Seq<Seq<Cell>> {
    Seq::new(rows.len(), |r: int| rows[r]@)
}

/// Why a text is no map, or `None` where it is one: a word that stands
/// for no cell, no row at all, rows of different length, or more cells
/// than a table in memory holds; in that order.
pub open spec fn map_text_fault(text: Seq<u8>) -> Option<WfcError> {
    let table = table_of(text);
    if !all_cells(table) {
        Some(WfcError::InvalidMap(MapFault::BadToken))
    } else if table.len() == 0 {
        Some(WfcError::InvalidMap(MapFault::Empty))
    } else if exists|r: int| 0 <= r < table.len() && (#[trigger] table[r]).len() != table[0].len() {
        Some(WfcError::InvalidMap(MapFault::RaggedRows))
    } else if table.len() * table[0].len() > isize::MAX {
        Some(WfcError::InvalidMap(MapFault::TooLarge))
    } else {
        None
    }
}

/// The largest tile of the fixed cells, and zero where no cell is fixed.
pub open spec fn highest_index(cells: Seq<Seq<Cell>>) -> usize {
    if holds_fixed(cells) {
        choose|m: usize| holds_index(cells, m) && bounds_indices(cells, m)
    } else {
        0
    }
}

/// The spaces before a word that make it `width` bytes long; none where
/// the word is as long or longer.
pub open spec fn padding(word: Seq<u8>, width: nat) -> Seq<u8> {
    if word.len() < width {
        spaces((width - word.len()) as nat)
    } else {
        spaces(0)
    }
}

/// The spaces before the words of the cells of a grid that make every
/// word as wide as the largest tile number.
pub open spec fn pad_table(cells: Seq<Seq<Cell>>) -> Seq<Seq<Seq<u8>>> {
    Seq::new(
        cells.len(),
        |r: int|
            Seq::new(
                cells[r].len(),
                |c: int|
                    padding(
                        cell_word(cells[r][c]),
                        digits_of(highest_index(cells) as nat).len(),
                    ),
            ),
    )
}

/// The text of a map: one line per row; every cell is written as its
/// word, with spaces before it so that it is as wide as the largest tile
/// number, and one space after it.
pub open spec fn map_text(cells: Seq<Seq<Cell>>) -> Seq<u8> {
    table_text(word_table(cells), pad_table(cells))
}

/// The words of the cells of a grid.
pub open spec fn word_table(cells: Seq<Seq<Cell>>) -> Seq<Seq<Seq<u8>>> {
    Seq::new(cells.len(), |r: int| Seq::new(cells[r].len(), |c: int| cell_word(cells[r][c])))
}

/// The word of a cell is a word of its own, is no comment, and stands for
/// the cell.
pub proof fn lemma_cell_word(cell: Cell)
    ensures
        is_piece(cell_word(cell), Cut::Words),
        is_piece(cell_word(cell), Cut::Lines),
        cell_word(cell)[0] != 35,
        word_cell(cell_word(cell)) == Some(cell),
{
    match cell {
        Cell::Fixed(i) => {
            lemma_digits(i as nat);
            let word = digits_of(i as nat);
            assert(word != seq![33u8]) by {
                if word == seq![33u8] {
                    assert(is_digit(word[0]));
                }
            }
            assert(word != seq![42u8]) by {
                if word == seq![42u8] {
                    assert(is_digit(word[0]));
                }
            }
        },
        Cell::Ignore => {
            assert(seq![33u8] != seq![42u8]) by {
                assert(seq![33u8][0] != seq![42u8][0]);
            }
        },
        Cell::Wildcard => {
            assert(seq![42u8] != seq![33u8]) by {
                assert(seq![42u8][0] != seq![33u8][0]);
            }
        },
    }
}

/// Writing a map and reading the text gives the map back: the text of a
/// map is a map text, and the cells it stands for are the cells of the
/// map.
pub proof fn lemma_map_text_round_trip(cells: Seq<Seq<Cell>>)
    requires
        grid_shaped(cells),
    ensures
        map_text_fault(map_text(cells)).is_none(),
        cells_in(table_of(map_text(cells))) == cells,
{
    let words = word_table(cells);
    let gaps = pad_table(cells);
    assert(writable(words, gaps)) by {
        assert forall|r: int| 0 <= r < words.len() implies (#[trigger] words[r]).len() > 0
            && gaps[r].len() == words[r].len() && words[r][0][0] != 35 by {
            assert(cells[r].len() == cells[0].len());
            lemma_cell_word(cells[r][0]);
        }
        assert forall|r: int, c: int| 0 <= r < words.len() && 0 <= c < words[r].len() implies is_piece(
            #[trigger] words[r][c],
            Cut::Words,
        ) && all_spaces(gaps[r][c]) by {
            lemma_cell_word(cells[r][c]);
        }
    }
    lemma_table_round_trip(words, gaps);
    let table = table_of(map_text(cells));
    assert forall|r: int, c: int| 0 <= r < table.len() && 0 <= c < table[r].len() implies word_cell(
        #[trigger] table[r][c],
    ) == Some(cells[r][c]) by {
        lemma_cell_word(cells[r][c]);
    }
    assert forall|r: int| 0 <= r < cells.len() implies cells_in(table)[r] =~= cells[r] by {
        assert forall|c: int| 0 <= c < cells[r].len() implies cells_in(table)[r][c]
            == cells[r][c] by {
            assert(word_cell(table[r][c]) == Some(cells[r][c]));
        }
    }
    assert(cells_in(table) =~= cells);
    assert forall|r: int| 0 <= r < table.len() implies (#[trigger] table[r]).len()
        == table[0].len() by {
        assert(cells[r].len() == cells[0].len());
    }
}

impl Cell {
    /// The word the cell is written as: the number of the tile for a fixed
    /// cell, `*` for a wildcard, `!` for a hole.
    pub fn to_word(&self) -> (word: Vec<u8>)
        ensures
            word@ == cell_word(*self),
    {
        let mut word: Vec<u8> = Vec::new();
        match self {
            Cell::Ignore => {
                word.push(IGNORE_MARK);
                proof {
                    assert(word@ =~= seq![33u8]);
                }
            },
            Cell::Wildcard => {
                word.push(WILDCARD_MARK);
                proof {
                    assert(word@ =~= seq![42u8]);
                }
            },
            Cell::Fixed(i) => {
                push_number(*i, &mut word);
                proof {
                    assert(word@ =~= digits_of(*i as nat));
                }
            },
        }
        word
    }

    /// The cell a word stands for, or `None` where it is neither a
    /// decimal number that fits a machine word, nor `*`, nor `!`.
    pub fn from_word(word: &Vec<u8>) -> (cell: Option<Cell>)
        ensures
            cell == word_cell(word@),
    {
        if word.len() == 1 && word[0] == IGNORE_MARK {
            proof {
                assert(word@ =~= seq![33u8]);
            }
            return Some(Cell::Ignore);
        }
        if word.len() == 1 && word[0] == WILDCARD_MARK {
            proof {
                assert(word@ =~= seq![42u8]);
                assert(seq![42u8][0] != seq![33u8][0]);
            }
            return Some(Cell::Wildcard);
        }
        proof {
            if word@ == seq![33u8] {
                assert(word@.len() == 1 && word@[0] == 33);
            }
            if word@ == seq![42u8] {
                assert(word@.len() == 1 && word@[0] == 42);
            }
        }
        match parse_number(word) {
            Some(i) => Some(Cell::Fixed(i)),
            None => None,
        }
    }
}

impl TileMap {
    /// Reads a map from its text: one row per line, one word per cell;
    /// lines without a word and lines whose first word starts with `#` are
    /// passed over.
    pub fn from_str(map_str: &str) -> (r: Result<TileMap, WfcError>)
        ensures
            r.is_ok() <==> map_text_fault(map_str.spec_bytes()).is_none(),
            r matches Err(e) ==> Some(e) == map_text_fault(map_str.spec_bytes()),
            r matches Ok(m) ==> m.wf() && m@ == cells_in(table_of(map_str.spec_bytes())),
    {
        TileMap::from_text(map_str.as_bytes())
    }

    /// Reads a map from the bytes of its text.
    pub fn from_text(text: &[u8]) -> (r: Result<TileMap, WfcError>)
        ensures
            r.is_ok() <==> map_text_fault(text@).is_none(),
            r matches Err(e) ==> Some(e) == map_text_fault(text@),
            r matches Ok(m) ==> m.wf() && m@ == cells_in(table_of(text@)),
    {
        let table = read_table(text);
        let ghost words = table_of(text@);
        let mut rows: Vec<Vec<Cell>> = Vec::new();
        let mut r: usize = 0;
        while r < table.len()
            invariant
                r <= table.len(),
                words == table_view(table@),
                words == table_of(text@),
                rows@.len() == r,
                forall|a: int| 0 <= a < table@.len() ==> (#[trigger] table@[a])@.len() > 0,
                forall|a: int| 0 <= a < r ==> (#[trigger] rows@[a])@.len() == words[a].len(),
                forall|a: int, b: int|
                    0 <= a < r && 0 <= b < words[a].len() ==> word_cell(#[trigger] words[a][b])
                        == Some(rows@[a]@[b]),
            decreases table.len() - r,
        {
            let mut row: Vec<Cell> = Vec::new();
            let mut c: usize = 0;
            while c < table[r].len()
                invariant
                    c <= table@[r as int]@.len(),
                    r < table@.len(),
                    words == table_view(table@),
                    words == table_of(text@),
                    row@.len() == c,
                    forall|b: int|
                        0 <= b < c ==> word_cell(#[trigger] words[r as int][b]) == Some(row@[b]),
                decreases table@[r as int]@.len() - c,
            {
                proof {
                    assert(words[r as int][c as int] == table@[r as int]@[c as int]@);
                }
                match Cell::from_word(&table[r][c]) {
                    Some(cell) => {
                        row.push(cell);
                    },
                    None => {
                        proof {
                            assert(word_cell(words[r as int][c as int]).is_none());
                        }
                        return Err(WfcError::InvalidMap(MapFault::BadToken));
                    },
                }
                c += 1;
            }
            rows.push(row);
            r += 1;
        }
        proof {
            assert(all_cells(words));
            assert forall|a: int| 0 <= a < words.len() implies rows_view(rows@)[a] =~= cells_in(
                words,
            )[a] by {
                assert forall|b: int| 0 <= b < words[a].len() implies rows@[a]@[b] == cells_in(
                    words,
                )[a][b] by {
                    assert(word_cell(words[a][b]) == Some(rows@[a]@[b]));
                }
            }
            assert(rows_view(rows@) =~= cells_in(words));
            if words.len() > 0 {
                assert(table@[0]@.len() > 0);
                assert(rows@[0]@.len() == words[0].len());
            }
            if exists|a: int| 0 <= a < rows@.len() && (#[trigger] rows@[a])@.len() != rows@[0]@.len() {
                let a = choose|a: int|
                    0 <= a < rows@.len() && (#[trigger] rows@[a])@.len() != rows@[0]@.len();
                assert(words[a].len() != words[0].len());
            }
            if exists|a: int| 0 <= a < words.len() && (#[trigger] words[a]).len() != words[0].len() {
                let a = choose|a: int|
                    0 <= a < words.len() && (#[trigger] words[a]).len() != words[0].len();
                assert(rows@[a]@.len() != rows@[0]@.len());
            }
        }
        match TileMap::new(&rows) {
            Ok(map) => {
                proof {
                    assert forall|a: int| 0 <= a < map@.len() implies map@[a] =~= cells_in(words)[a] by {
                        assert(map@[a] == rows@[a]@);
                    }
                    assert(map@ =~= cells_in(words));
                }
                Ok(map)
            },
            Err(e) => Err(e),
        }
    }

    /// The text of the map: one line per row; every cell is written as
    /// its word, padded on the left to the width of the largest tile
    /// number, and followed by a space.
    pub fn to_text(&self) -> (text: Vec<u8>)
        requires
            self.wf(),
        ensures
            text@ == map_text(self@),
    {
        let (height, width) = self.size();
        let top = match self.max_index() {
            Some(m) => m,
            None => 0,
        };
        proof {
            lemma_highest(self@, top);
        }
        let pad = digit_count(top);
        let mut words: Vec<Vec<Vec<u8>>> = Vec::new();
        let mut gaps: Vec<Vec<usize>> = Vec::new();
        let mut y: usize = 0;
        while y < height
            invariant
                y <= height,
                self.wf(),
                height == self.rows(),
                width == self.cols(),
                pad == digits_of(highest_index(self@) as nat).len(),
                words@.len() == y,
                gaps@.len() == y,
                forall|r: int|
                    0 <= r < y ==> words_of((#[trigger] words@[r])@) == word_table(self@)[r],
                forall|r: int|
                    0 <= r < y ==> (#[trigger] gaps@[r])@.len() == width && words@[r]@.len() == width,
                forall|r: int, c: int|
                    0 <= r < y && 0 <= c < width ==> spaces((#[trigger] gaps@[r]@[c]) as nat)
                        == pad_table(self@)[r][c],
            decreases height - y,
        {
            let mut row: Vec<Vec<u8>> = Vec::new();
            let mut row_gaps: Vec<usize> = Vec::new();
            let mut x: usize = 0;
            while x < width
                invariant
                    x <= width,
                    y < height,
                    self.wf(),
                    height == self.rows(),
                    width == self.cols(),
                    pad == digits_of(highest_index(self@) as nat).len(),
                    row@.len() == x,
                    row_gaps@.len() == x,
                    forall|c: int|
                        0 <= c < x ==> (#[trigger] row@[c])@ == cell_word(self@[y as int][c]),
                    forall|c: int|
                        0 <= c < x ==> spaces((#[trigger] row_gaps@[c]) as nat) == padding(
                            cell_word(self@[y as int][c]),
                            pad as nat,
                        ),
                decreases width - x,
            {
                let word = self.get((y, x)).to_word();
                row_gaps.push(
                    if word.len() < pad {
                        pad - word.len()
                    } else {
                        0
                    },
                );
                row.push(word);
                x += 1;
            }
            proof {
                assert(self@[y as int].len() == width);
                assert(words_of(row@) =~= word_table(self@)[y as int]);
            }
            words.push(row);
            gaps.push(row_gaps);
            y += 1;
        }
        proof {
            assert(table_view(words@) =~= word_table(self@));
            assert(gaps_view(gaps@) =~= pad_table(self@)) by {
                assert forall|r: int| 0 <= r < height implies gaps_view(gaps@)[r] =~= pad_table(
                    self@,
                )[r] by {
                    assert(self@[r].len() == width);
                    assert forall|c: int| 0 <= c < width implies gaps_view(gaps@)[r][c]
                        == pad_table(self@)[r][c] by {
                        assert(spaces(gaps@[r]@[c] as nat) == pad_table(self@)[r][c]);
                    }
                }
            }
        }
        write_table(&words, &gaps)
    }
}

/// The largest tile of the fixed cells is what `max_index` finds.
pub proof fn lemma_highest(cells: Seq<Seq<Cell>>, top: usize)
    requires
        holds_fixed(cells) ==> holds_index(cells, top) && bounds_indices(cells, top),
        !holds_fixed(cells) ==> top == 0,
    ensures
        highest_index(cells) == top,
{
    if holds_fixed(cells) {
        let m = highest_index(cells);
        assert(holds_index(cells, m) && bounds_indices(cells, m));
        let (y, x) = choose|y: int, x: int|
            0 <= y < cells.len() && 0 <= x < cells[y].len() && #[trigger] cells[y][x] == Cell::Fixed(
                m,
            );
        let (a, b) = choose|a: int, b: int|
            0 <= a < cells.len() && 0 <= b < cells[a].len() && #[trigger] cells[a][b] == Cell::Fixed(
                top,
            );
        assert(cells[y][x] matches Cell::Fixed(i) ==> i <= top);
        assert(cells[a][b] matches Cell::Fixed(i) ==> i <= m);
    }
}

} // verus!
