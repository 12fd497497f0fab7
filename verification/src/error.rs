use vstd::prelude::*;

verus! {

/// What went wrong while solving a maze.
#[derive(Debug, PartialEq, Eq, Structural, Clone, Copy)]
pub enum MazeErrorKind {
    /// A coordinate lies outside the grid.
    CoordOutOfRange,
    /// The grid holds no cell of the start color.
    NoStart,
    /// No end region was reached.
    NoEnd,
    /// An internal invariant was found broken.
    Other,
}

/// An error kind together with a human-readable explanation.
#[derive(Debug, PartialEq, Eq)]
pub struct MazeError {
    pub kind: MazeErrorKind,
    pub details: String,
}

/// What the solver's operations return.
pub type MazeResult<T> = Result<T, MazeError>;

impl MazeError {
    /// Builds an error of the given kind with the given explanation.
    pub fn new(kind: MazeErrorKind, details: String) -> (e: MazeError)
        ensures
            e.kind == kind,
            e.details == details,
    {
        MazeError { kind: kind, details: details }
    }
}

impl MazeErrorKind {
    /// The short title under which errors of this kind are reported.
    pub open spec fn title(self) -> Seq<char> {
        match self {
            MazeErrorKind::CoordOutOfRange => "Coords out of range"@,
            MazeErrorKind::NoStart => "No start key"@,
            _ => "Maze Error"@,
        }
    }
}

impl AsRef<str> for MazeErrorKind {
    /// The short title under which errors of this kind are reported.
    fn as_ref(&self) -> (s: &str)
        ensures
            s@ == self.title(),
    {
        match self {
            MazeErrorKind::CoordOutOfRange => "Coords out of range",
            MazeErrorKind::NoStart => "No start key",
            _ => "Maze Error",
        }
    }
}

} // verus!
