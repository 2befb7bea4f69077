//! Failure values of the library. Every failure is returned, never hidden.

use vstd::prelude::*;

verus! {

/// Why an atlas, a rule table or a manifest was refused.
#[derive(Clone, Copy, Debug, PartialEq, Eq, Structural)]
pub enum AtlasFault {
    /// There is no tile at all.
    Empty,
    /// Some tile has frequency zero.
    ZeroFrequency,
    /// The frequencies do not fit a machine word when added up.
    FrequencyOverflow,
    /// The adjacency table is not `n` by `n` by two for `n` frequencies.
    ShapeMismatch,
    /// A rule names a tile that does not exist.
    IndexOutOfRange,
    /// Some tile allows a neighbour that does not allow it back.
    Asymmetric,
    /// A manifest line does not have the fields the format asks for.
    MalformedLine,
    /// There are more tiles than a table in memory can speak of.
    TooLarge,
}

/// Why a map text or a cell grid was refused.
#[derive(Clone, Copy, Debug, PartialEq, Eq, Structural)]
pub enum MapFault {
    /// There is no row, or the rows hold no cell.
    Empty,
    /// Two rows differ in their number of cells.
    RaggedRows,
    /// A token is neither a number, `*` nor `!`.
    BadToken,
    /// A fixed cell names a tile the rules do not know.
    IndexOutOfRange,
    /// The map has more cells than a table in memory can hold.
    TooLarge,
}

/// Why the geometric arguments of an operation were refused.
#[derive(Clone, Copy, Debug, PartialEq, Eq, Structural)]
pub enum ArgsFault {
    /// The tile interior has no pixel.
    ZeroTileSize,
    /// The border has no pixel.
    ZeroBorderSize,
    /// The overlap is not smaller than the side of a patch.
    OverlapTooLarge,
    /// The sample image is smaller than one patch, or its pixel buffer does
    /// not match its dimensions.
    ImageTooSmall,
    /// No symmetry transform was given.
    NoTransformations,
    /// A border strip does not fit inside the map.
    BorderTooLarge,
    /// Two maps that must agree in a dimension do not.
    DimensionMismatch,
    /// A size does not fit a machine word.
    TooLarge,
}

/// Every way in which an operation of this library can fail.
#[derive(Clone, Copy, Debug, PartialEq, Eq, Structural)]
pub enum WfcError {
    /// Propagation left the cell in row `y`, column `x` without a candidate.
    ContradictionAt { y: usize, x: usize },
    /// The backtracking solver met more contradictions than it may.
    BacktrackExhausted { attempts: usize },
    /// Propagation revised more arcs than its bound allows.
    IterationLimit,
    /// The wall-clock budget of the solver ran out.
    Timeout,
    /// An atlas was refused.
    InvalidAtlas(AtlasFault),
    /// A map was refused.
    InvalidMap(MapFault),
    /// Geometric arguments were refused.
    InvalidArgs(ArgsFault),
}

} // verus!
