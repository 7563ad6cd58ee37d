use vstd::prelude::*;

verus! {

/// What can go wrong while a puzzle or a turn is read.
#[derive(Clone, Copy, Debug, PartialEq, Eq, Structural)]
pub enum Error {
    /// A number was expected and the text is not one that fits.
    ParseInt,
    /// A coordinate, an index or a dimension lies outside its bounds.
    OutOfRange,
    /// A cell code is not one of the fourteen known ones.
    CellParseError,
    /// A line was needed and none was left.
    LineIteratorEnded,
    /// A facing token is not one of the known ones, or a line has too few fields.
    InvalidInput,
}

} // verus!
