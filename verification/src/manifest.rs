//! The text form of an atlas: the manifest.
//!
//! The manifest has one line per tile. A line holds, set apart by blanks,
//! the path of the picture of the tile, its frequency, one word per tile
//! that says whether that tile may stand east of this one, and one word
//! per tile that says whether it may stand north of it; `1` says yes, any
//! other word no. Lines without a word and lines whose first word starts
//! with `#` are passed over.

use crate::adjacency::{AXIS_EAST, AXIS_NORTH};
use crate::error::{AtlasFault, WfcError};
use crate::grid::{adjacency_square, Adjacency};
use crate::text::{
    all_spaces, digit_count, digits_of, gaps_view, is_piece, lemma_digits, lemma_table_round_trip,
    number_in, parse_number, push_number, read_table, spaces, table_of, table_text, table_view,
    words_of, writable, write_table, Cut,
};
use vstd::prelude::*;

verus! {

/// The word for yes.
pub const YES: u8 = 49;

/// The word for no.
pub const NO: u8 = 48;

/// What a manifest says: the path of the picture of every tile, the
/// frequency of every tile, and the adjacency table.
pub struct Manifest {
    pub paths: Vec<Vec<u8>>,
    pub frequencies: Vec<usize>,
    pub adjacency: Adjacency,
}

/// The word a yes or no is written as.
pub open spec fn bit_word(bit: bool) -> Seq<u8> {
    if bit {
        seq![49u8]
    } else {
        seq![48u8]
    }
}

/// Whether line `i` of a table of words is a manifest line: it has a
/// path, a frequency, and two words per line of the table.
pub open spec fn line_ok(table: Seq<Seq<Seq<u8>>>, i: int) -> bool {
    table[i].len() == 2 + 2 * table.len() && number_in(table[i][1]).is_some()
}

/// Why a text is no manifest, or `None` where it is one: no line at all,
/// a line that is no manifest line, or more lines than a table in memory
/// can speak of; in that order.
pub open spec fn manifest_fault(text: Seq<u8>) -> Option<WfcError> {
    let table = table_of(text);
    if table.len() == 0 {
        Some(WfcError::InvalidAtlas(AtlasFault::Empty))
    } else if exists|i: int| 0 <= i < table.len() && !#[trigger] line_ok(table, i) {
        Some(WfcError::InvalidAtlas(AtlasFault::MalformedLine))
    } else if 2 * table.len() * table.len() > isize::MAX {
        Some(WfcError::InvalidAtlas(AtlasFault::TooLarge))
    } else {
        None
    }
}

/// The paths a table of manifest lines names.
pub open spec fn paths_in(table: Seq<Seq<Seq<u8>>>) -> Seq<Seq<u8>> {
    Seq::new(table.len(), |i: int| table[i][0])
}

/// The frequencies a table of manifest lines names.
pub open spec fn counts_in(table: Seq<Seq<Seq<u8>>>) -> Seq<usize> {
    Seq::new(table.len(), |i: int| number_in(table[i][1]).unwrap())
}

/// The adjacency table a table of manifest lines spells out.
pub open spec fn adjacency_in(table: Seq<Seq<Seq<u8>>>) -> Seq<Seq<Seq<bool>>> {
    Seq::new(
        table.len(),
        |i: int|
            Seq::new(
                table.len(),
                |j: int|
                    seq![
                        table[i][2 + j] == seq![49u8],
                        table[i][2 + table.len() + j] == seq![49u8],
                    ],
            ),
    )
}

/// The words of line `i` of a manifest.
pub open spec fn manifest_row(
    paths: Seq<Seq<u8>>,
    counts: Seq<usize>,
    adjacency: Seq<Seq<Seq<bool>>>,
    i: int,
) -> Seq<Seq<u8>> {
    let n = paths.len() as int;
    Seq::new(
        (2 + 2 * n) as nat,
        |c: int|
            if c == 0 {
                paths[i]
            } else if c == 1 {
                digits_of(counts[i] as nat)
            } else if c < 2 + n {
                bit_word(adjacency[i][c - 2][0])
            } else {
                bit_word(adjacency[i][c - 2 - n][1])
            },
    )
}

/// The words of a manifest.
pub open spec fn manifest_words(
    paths: Seq<Seq<u8>>,
    counts: Seq<usize>,
    adjacency: Seq<Seq<Seq<bool>>>,
) -> Seq<Seq<Seq<u8>>> {
    Seq::new(paths.len(), |i: int| manifest_row(paths, counts, adjacency, i))
}

/// The number of spaces before word `c` of line `i` of a manifest, over
/// and above the one space that follows every word: three before the
/// frequency, which is also padded to `width` digits, three before the
/// first word of either row, and none elsewhere.
pub open spec fn manifest_gap(counts: Seq<usize>, width: nat, n: int, i: int, c: int) -> nat {
    if c == 1 {
        let digits = digits_of(counts[i] as nat).len();
        if digits < width {
            (3 + width - digits) as nat
        } else {
            3
        }
    } else if c == 2 || c == 2 + n {
        3
    } else {
        0
    }
}

/// The gaps of a manifest.
pub open spec fn manifest_gaps(counts: Seq<usize>, width: nat) -> Seq<Seq<Seq<u8>>> {
    let n = counts.len() as int;
    Seq::new(
        counts.len(),
        |i: int|
            Seq::new((2 + 2 * n) as nat, |c: int| spaces(manifest_gap(counts, width, n, i, c))),
    )
}

/// The largest of the first `k` frequencies, and zero where there is
/// none.
pub open spec fn largest(counts: Seq<usize>, k: int) -> usize
    decreases k,
{
    if k <= 0 {
        0
    } else if counts[k - 1] > largest(counts, k - 1) {
        counts[k - 1]
    } else {
        largest(counts, k - 1)
    }
}

/// The text of a manifest: the frequencies are padded to the width of the
/// largest of them.
pub open spec fn manifest_text(
    paths: Seq<Seq<u8>>,
    counts: Seq<usize>,
    adjacency: Seq<Seq<Seq<bool>>>,
) -> Seq<u8> {
    table_text(
        manifest_words(paths, counts, adjacency),
        manifest_gaps(counts, digits_of(largest(counts, counts.len() as int) as nat).len()),
    )
}

/// Whether the parts of a manifest can be written and read back: there is
/// a tile, there is one path and one frequency per tile, the adjacency
/// table is square, and every path is one word that does not start with a
/// hash.
pub open spec fn manifest_ok(
    paths: Seq<Seq<u8>>,
    counts: Seq<usize>,
    adjacency: Seq<Seq<Seq<bool>>>,
) -> bool {
    &&& paths.len() > 0
    &&& counts.len() == paths.len()
    &&& adjacency_square(adjacency, paths.len())
    &&& 2 * paths.len() * paths.len() <= isize::MAX
    &&& forall|i: int|
        0 <= i < paths.len() ==> is_piece(#[trigger] paths[i], Cut::Words) && paths[i][0] != 35
}

/// Writing a manifest and reading the text gives the manifest back: the
/// text is a manifest text, and it names the paths, the frequencies and
/// the adjacency table that were written.
pub proof fn lemma_manifest_round_trip(
    paths: Seq<Seq<u8>>,
    counts: Seq<usize>,
    adjacency: Seq<Seq<Seq<bool>>>,
)
    requires
        manifest_ok(paths, counts, adjacency),
    ensures
        manifest_fault(manifest_text(paths, counts, adjacency)).is_none(),
        paths_in(table_of(manifest_text(paths, counts, adjacency))) == paths,
        counts_in(table_of(manifest_text(paths, counts, adjacency))) == counts,
        adjacency_in(table_of(manifest_text(paths, counts, adjacency))) == adjacency,
{
    let n = paths.len() as int;
    let width = digits_of(largest(counts, counts.len() as int) as nat).len();
    let words = manifest_words(paths, counts, adjacency);
    let gaps = manifest_gaps(counts, width);
    assert(writable(words, gaps)) by {
        assert forall|r: int| 0 <= r < words.len() implies (#[trigger] words[r]).len() > 0
            && gaps[r].len() == words[r].len() && words[r][0][0] != 35 by {
            assert(words[r][0] == paths[r]);
        }
        assert forall|r: int, c: int| 0 <= r < words.len() && 0 <= c < words[r].len() implies is_piece(
            #[trigger] words[r][c],
            Cut::Words,
        ) && all_spaces(gaps[r][c]) by {
            lemma_digits(counts[r] as nat);
        }
    }
    lemma_table_round_trip(words, gaps);
    let table = table_of(manifest_text(paths, counts, adjacency));
    assert(table == words);
    assert forall|i: int| 0 <= i < table.len() implies #[trigger] line_ok(table, i) by {
        lemma_digits(counts[i] as nat);
        assert(table[i][1] == digits_of(counts[i] as nat));
    }
    assert(paths_in(table) =~= paths);
    assert(counts_in(table) =~= counts) by {
        assert forall|i: int| 0 <= i < n implies counts_in(table)[i] == counts[i] by {
            lemma_digits(counts[i] as nat);
            assert(table[i][1] == digits_of(counts[i] as nat));
        }
    }
    assert forall|i: int, j: int| 0 <= i < n && 0 <= j < n implies adjacency_in(table)[i][j]
        =~= adjacency[i][j] by {
        assert(adjacency[i].len() == n);
        assert(adjacency[i][j].len() == 2);
        assert(table[i][2 + j] == bit_word(adjacency[i][j][0]));
        assert(table[i][2 + n + j] == bit_word(adjacency[i][j][1]));
        assert(seq![48u8][0] != seq![49u8][0]);
    }
    assert forall|i: int| 0 <= i < n implies adjacency_in(table)[i] =~= adjacency[i] by {
        assert(adjacency[i].len() == n);
    }
    assert(adjacency_in(table) =~= adjacency);
}

/// Whether `word` is the word for yes.
fn says_yes(word: &Vec<u8>) -> (r: bool)
    ensures
        r == (word@ == seq![49u8]),
{
    let r = word.len() == 1 && word[0] == YES;
    proof {
        if r {
            assert(word@ =~= seq![49u8]);
        }
    }
    r
}

/// A copy of `word`.
fn copy_word(word: &Vec<u8>) -> (copy: Vec<u8>)
    ensures
        copy@ == word@,
{
    let mut copy: Vec<u8> = Vec::new();
    let mut i: usize = 0;
    while i < word.len()
        invariant
            i <= word.len(),
            copy@ == word@.subrange(0, i as int),
        decreases word.len() - i,
    {
        copy.push(word[i]);
        proof {
            assert(copy@ =~= word@.subrange(0, i as int + 1));
        }
        i += 1;
    }
    proof {
        assert(word@.subrange(0, word@.len() as int) =~= word@);
    }
    copy
}

impl Manifest {
    /// Reads a manifest from the bytes of its text.
    pub fn from_text(text: &[u8]) -> (r: Result<Manifest, WfcError>)
        ensures
            r.is_ok() <==> manifest_fault(text@).is_none(),
            r matches Err(e) ==> Some(e) == manifest_fault(text@),
            r matches Ok(m) ==> {
                &&& words_of(m.paths@) == paths_in(table_of(text@))
                &&& m.frequencies@ == counts_in(table_of(text@))
                &&& m.adjacency@ == adjacency_in(table_of(text@))
                &&& m.adjacency.wf()
                &&& m.adjacency.tiles() == m.frequencies@.len()
            },
    {
        let table = read_table(text);
        let ghost words = table_of(text@);
        let n = table.len();
        if n == 0 {
            return Err(WfcError::InvalidAtlas(AtlasFault::Empty));
        }
        if n > (usize::MAX - 2) / 2 {
            let first = table[0].len();
            proof {
                assert(!line_ok(words, 0)) by {
                    assert(words == table_view(table@));
                    assert(words[0] == words_of(table@[0]@));
                    assert(words[0].len() == first);
                }
            }
            return Err(WfcError::InvalidAtlas(AtlasFault::MalformedLine));
        }
        let mut paths: Vec<Vec<u8>> = Vec::new();
        let mut frequencies: Vec<usize> = Vec::new();
        let mut i: usize = 0;
        while i < n
            invariant
                i <= n,
                n == table@.len(),
                0 < n <= (usize::MAX - 2) / 2,
                words == table_view(table@),
                words == table_of(text@),
                paths@.len() == i,
                frequencies@.len() == i,
                forall|k: int| 0 <= k < i ==> #[trigger] line_ok(words, k),
                forall|k: int| 0 <= k < i ==> (#[trigger] paths@[k])@ == words[k][0],
                forall|k: int|
                    0 <= k < i ==> Some(#[trigger] frequencies@[k]) == number_in(words[k][1]),
            decreases n - i,
        {
            proof {
                assert(words[i as int] == words_of(table@[i as int]@));
            }
            if table[i].len() != 2 + 2 * n {
                proof {
                    assert(!line_ok(words, i as int));
                }
                return Err(WfcError::InvalidAtlas(AtlasFault::MalformedLine));
            }
            proof {
                assert(words[i as int][1] == table@[i as int]@[1]@);
                assert(words[i as int][0] == table@[i as int]@[0]@);
            }
            let count = match parse_number(&table[i][1]) {
                Some(count) => count,
                None => {
                    proof {
                        assert(!line_ok(words, i as int));
                    }
                    return Err(WfcError::InvalidAtlas(AtlasFault::MalformedLine));
                },
            };
            paths.push(copy_word(&table[i][0]));
            frequencies.push(count);
            i += 1;
        }
        let mut adjacency = match Adjacency::new(n) {
            Ok(adjacency) => adjacency,
            Err(e) => {
                return Err(e);
            },
        };
        let ghost want = adjacency_in(words);
        let mut i: usize = 0;
        while i < n
            invariant
                i <= n,
                n == table@.len(),
                0 < n <= (usize::MAX - 2) / 2,
                2 * n * n <= isize::MAX,
                words == table_view(table@),
                words == table_of(text@),
                want == adjacency_in(words),
                forall|k: int| 0 <= k < n ==> #[trigger] line_ok(words, k),
                adjacency.wf(),
                adjacency.tiles() == n,
                forall|a: int, b: int, c: int|
                    0 <= a < i && 0 <= b < n && 0 <= c < 2 ==> #[trigger] adjacency@[a][b][c]
                        == want[a][b][c],
            decreases n - i,
        {
            let mut j: usize = 0;
            while j < n
                invariant
                    j <= n,
                    i < n,
                    n == table@.len(),
                    0 < n <= (usize::MAX - 2) / 2,
                    words == table_view(table@),
                    want == adjacency_in(words),
                    forall|k: int| 0 <= k < n ==> #[trigger] line_ok(words, k),
                    adjacency.wf(),
                    adjacency.tiles() == n,
                    forall|a: int, b: int, c: int|
                        0 <= a < i && 0 <= b < n && 0 <= c < 2 ==> #[trigger] adjacency@[a][b][c]
                            == want[a][b][c],
                    forall|b: int, c: int|
                        0 <= b < j && 0 <= c < 2 ==> #[trigger] adjacency@[i as int][b][c]
                            == want[i as int][b][c],
                decreases n - j,
            {
                proof {
                    assert(line_ok(words, i as int));
                    assert(words[i as int] == words_of(table@[i as int]@));
                    assert(words[i as int][2 + j] == table@[i as int]@[2 + j]@);
                    assert(words[i as int][2 + n + j] == table@[i as int]@[2 + n + j]@);
                }
                let east = says_yes(&table[i][2 + j]);
                let north = says_yes(&table[i][2 + n + j]);
                adjacency.set(i, j, AXIS_EAST, east);
                adjacency.set(i, j, AXIS_NORTH, north);
                j += 1;
            }
            i += 1;
        }
        proof {
            assert(words_of(paths@) =~= paths_in(words));
            assert(frequencies@ =~= counts_in(words)) by {
                assert forall|k: int| 0 <= k < n implies frequencies@[k] == counts_in(words)[k] by {
                    assert(Some(frequencies@[k]) == number_in(words[k][1]));
                }
            }
            assert forall|a: int, b: int| 0 <= a < n && 0 <= b < n implies adjacency@[a][b]
                =~= want[a][b] by {
                assert(adjacency@[a][b].len() == 2);
                assert(adjacency@[a][b][0] == want[a][b][0]);
                assert(adjacency@[a][b][1] == want[a][b][1]);
            }
            assert forall|a: int| 0 <= a < n implies adjacency@[a] =~= want[a] by {
                assert(adjacency@[a].len() == n);
            }
            assert(adjacency@ =~= want);
        }
        Ok(Manifest { paths, frequencies, adjacency })
    }

    /// The text of the manifest: one line per tile with the path, the
    /// frequency padded to the width of the largest frequency, the row of
    /// eastern neighbours and the row of northern neighbours.
    pub fn to_text(&self) -> (text: Vec<u8>)
        requires
            self.adjacency.wf(),
            self.adjacency.tiles() == self.paths@.len(),
            self.frequencies@.len() == self.paths@.len(),
            2 + 2 * self.paths@.len() <= usize::MAX,
        ensures
            text@ == manifest_text(words_of(self.paths@), self.frequencies@, self.adjacency@),
    {
        let n = self.paths.len();
        let mut top: usize = 0;
        let mut i: usize = 0;
        while i < n
            invariant
                i <= n,
                n == self.frequencies@.len(),
                top == largest(self.frequencies@, i as int),
            decreases n - i,
        {
            if self.frequencies[i] > top {
                top = self.frequencies[i];
            }
            i += 1;
        }
        let width = digit_count(top);
        let ghost paths = words_of(self.paths@);
        let ghost counts = self.frequencies@;
        let ghost table = self.adjacency@;
        let mut words: Vec<Vec<Vec<u8>>> = Vec::new();
        let mut gaps: Vec<Vec<usize>> = Vec::new();
        let mut i: usize = 0;
        while i < n
            invariant
                i <= n,
                n == self.paths@.len(),
                n == self.frequencies@.len(),
                2 + 2 * n <= usize::MAX,
                1 <= width <= 20,
                width == digits_of(largest(self.frequencies@, n as int) as nat).len(),
                self.adjacency.wf(),
                self.adjacency.tiles() == n,
                paths == words_of(self.paths@),
                counts == self.frequencies@,
                table == self.adjacency@,
                words@.len() == i,
                gaps@.len() == i,
                forall|r: int|
                    0 <= r < i ==> words_of((#[trigger] words@[r])@) == manifest_row(
                        paths,
                        counts,
                        table,
                        r,
                    ),
                forall|r: int|
                    0 <= r < i ==> (#[trigger] gaps@[r])@.len() == 2 + 2 * n && words@[r]@.len()
                        == 2 + 2 * n,
                forall|r: int, c: int|
                    0 <= r < i && 0 <= c < 2 + 2 * n ==> (#[trigger] gaps@[r]@[c]) == manifest_gap(
                        counts,
                        width as nat,
                        n as int,
                        r,
                        c,
                    ),
            decreases n - i,
        {
            let mut row: Vec<Vec<u8>> = Vec::new();
            let mut row_gaps: Vec<usize> = Vec::new();
            row.push(copy_word(&self.paths[i]));
            row_gaps.push(0);
            let mut count_word: Vec<u8> = Vec::new();
            push_number(self.frequencies[i], &mut count_word);
            proof {
                assert(count_word@ =~= digits_of(counts[i as int] as nat));
                lemma_digits(counts[i as int] as nat);
            }
            let digits = digit_count(self.frequencies[i]);
            row_gaps.push(
                if digits < width {
                    3 + width - digits
                } else {
                    3
                },
            );
            row.push(count_word);
            let mut c: usize = 2;
            while c < 2 + 2 * n
                invariant
                    2 <= c <= 2 + 2 * n,
                    i < n,
                    n == self.paths@.len(),
                    2 + 2 * n <= usize::MAX,
                    self.adjacency.wf(),
                    self.adjacency.tiles() == n,
                    paths == words_of(self.paths@),
                    counts == self.frequencies@,
                    table == self.adjacency@,
                    row@.len() == c,
                    row_gaps@.len() == c,
                    forall|k: int|
                        0 <= k < c ==> (#[trigger] row@[k])@ == manifest_row(
                            paths,
                            counts,
                            table,
                            i as int,
                        )[k],
                    forall|k: int|
                        0 <= k < c ==> (#[trigger] row_gaps@[k]) == manifest_gap(
                            counts,
                            width as nat,
                            n as int,
                            i as int,
                            k,
                        ),
                decreases 2 + 2 * n - c,
            {
                let bit = if c < 2 + n {
                    self.adjacency.get(i, c - 2, AXIS_EAST)
                } else {
                    self.adjacency.get(i, c - 2 - n, AXIS_NORTH)
                };
                let mut word: Vec<u8> = Vec::new();
                word.push(
                    if bit {
                        YES
                    } else {
                        NO
                    },
                );
                proof {
                    assert(word@ =~= bit_word(bit));
                }
                row.push(word);
                row_gaps.push(
                    if c == 2 || c == 2 + n {
                        3
                    } else {
                        0
                    },
                );
                c += 1;
            }
            proof {
                assert(words_of(row@) =~= manifest_row(paths, counts, table, i as int));
            }
            words.push(row);
            gaps.push(row_gaps);
            i += 1;
        }
        proof {
            assert(table_view(words@) =~= manifest_words(paths, counts, table));
            assert(gaps_view(gaps@) =~= manifest_gaps(counts, width as nat)) by {
                assert forall|r: int| 0 <= r < n implies gaps_view(gaps@)[r] =~= manifest_gaps(
                    counts,
                    width as nat,
                )[r] by {
                    assert forall|c: int| 0 <= c < 2 + 2 * n implies gaps_view(gaps@)[r][c]
                        == manifest_gaps(counts, width as nat)[r][c] by {
                        assert(gaps@[r]@[c] == manifest_gap(
                            counts,
                            width as nat,
                            n as int,
                            r,
                            c,
                        ));
                    }
                }
            }
        }
        write_table(&words, &gaps)
    }
}

} // verus!
