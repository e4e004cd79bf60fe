use vstd::prelude::*;

verus! {

/// The two sides of the game. White advances toward lower square indices.
#[derive(Clone, Copy, Debug, PartialEq, Eq, Structural)]
pub enum Color {
    Black,
    White,
}

impl Color {
    pub open spec fn opposite(self) -> Color {
        match self {
            Color::Black => Color::White,
            Color::White => Color::Black,
        }
    }

    /// The side that moves after this one.
    pub fn other(self) -> (r: Color)
        ensures
            r == self.opposite(),
    {
        match self {
            Color::Black => Color::White,
            Color::White => Color::Black,
        }
    }
}

/// The two kinds of piece.
#[derive(Clone, Copy, Debug, PartialEq, Eq, Structural)]
pub enum Kind {
    Man,
    King,
}

/// A piece: its side and its kind.
#[derive(Clone, Copy, Debug, PartialEq, Eq, Structural)]
pub struct IFigure {
    pub color: Color,
    pub kind: Kind,
}

/// A single step: the piece standing on `moved_figure_no` goes to `square_no`,
/// and, for a capture, the piece on `captured_figure_no` is removed.
#[derive(Clone, Copy, Debug, PartialEq, Eq, Structural)]
pub struct Move {
    pub moved_figure_no: i32,
    pub moved_figure: IFigure,
    pub square_no: i32,
    pub captured_figure_no: Option<i32>,
    pub captured_figure: Option<IFigure>,
}

impl Move {
    pub open spec fn is_capture(self) -> bool {
        self.captured_figure_no is Some
    }
}

/// Why a request about a single square was refused.
#[derive(Clone, Copy, Debug, PartialEq, Eq, Structural)]
pub enum MoveError {
    /// The square index lies outside `0..100`.
    InvalidSquare,
    /// No piece stands on the square.
    EmptySquare,
}

} // verus!
