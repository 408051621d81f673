//! The grid: a fixed 8x8 matrix of cell states with bounds-checked
//! accessors, plus the basic spec vocabulary (sides, coordinates, the
//! starting position) that the rest of the engine builds on.

use vstd::prelude::*;

verus! {

/// One cell of the grid: a disc of either side, or empty.
#[derive(Debug, Clone, Copy, PartialEq, Eq, Structural)]
pub enum Disc {
    Black,
    White,
    Empty,
}

impl Disc {
    /// The one-character text for this cell as the terminal draws it: a
    /// disc glyph for either side (color tells them apart on screen), a
    /// dot for an empty cell.
    pub fn symbol(&self) -> (res: &'static str)
        ensures
            *self == Disc::Empty ==> res@ == "."@,
            *self != Disc::Empty ==> res@ == "●"@,
    {
        match self {
            Disc::Black => "●",
            Disc::White => "●",
            Disc::Empty => ".",
        }
    }
}

/// Whether `d` names one of the two playing sides.
pub open spec fn is_side(d: Disc) -> bool {
    d != Disc::Empty
}

/// The side opposing `d`, mirroring the executable turn switch:
/// `Black` maps to `White`, anything else to `Black`.
pub open spec fn opposite(d: Disc) -> Disc {
    if d == Disc::Black {
        Disc::White
    } else {
        Disc::Black
    }
}

/// Flat row-major index of the coordinate pair (r, c).
pub open spec fn flat(r: int, c: int) -> int {
    r * 8 + c
}

/// Whether (r, c) lies on the 8x8 grid.
pub open spec fn in_bounds(r: int, c: int) -> bool {
    0 <= r < 8 && 0 <= c < 8
}

/// The disc at (r, c) of a flattened row-major 8x8 grid.
pub open spec fn at(s: Seq<Disc>, r: int, c: int) -> Disc {
    s[flat(r, c)]
}

/// The canonical starting position: the four centre cells hold discs in
/// the standard alternating diagonal pattern, all other cells are empty.
pub open spec fn start_config() -> Seq<Disc> {
    Seq::new(64, |k: int|
        (if k == flat(3, 3) {
            Disc::White
        } else if k == flat(3, 4) {
            Disc::Black
        } else if k == flat(4, 3) {
            Disc::Black
        } else if k == flat(4, 4) {
            Disc::White
        } else {
            Disc::Empty
        }))
}

/// An 8x8 grid of cells, stored row-major; its view is the flattened
/// sequence of its 64 cells.
#[derive(Clone, Copy)]
pub struct Board {
    cells: [Disc; 64],
}

impl View for Board {
    type V = Seq<Disc>;

    closed spec fn view(&self) -> Seq<Disc> {
        self.cells@
    }
}

impl Board {
    /// The grid always has exactly 64 cells.
    pub proof fn lemma_view_len(&self)
        ensures
            self@.len() == 64,
    {
    }

    /// A board holding the canonical starting position.
    pub fn new() -> (res: Board)
        ensures
            res@ == start_config(),
    {
        let mut cells = [Disc::Empty; 64];
        cells[27] = Disc::White;
        cells[28] = Disc::Black;
        cells[35] = Disc::Black;
        cells[36] = Disc::White;
        let res = Board { cells };
        proof {
            assert(res@ =~= start_config());
        }
        res
    }

    /// The disc at (row, col), or `None` if either index is off the grid.
    /// Ray walks rely on this absence signal instead of a separate bounds
    /// check.
    pub fn get_disc(&self, row: usize, col: usize) -> (res: Option<Disc>)
        ensures
            in_bounds(row as int, col as int) ==> res == Some(
                at(self@, row as int, col as int),
            ),
            !in_bounds(row as int, col as int) ==> res is None,
    {
        if row < 8 && col < 8 {
            Some(self.cells[row * 8 + col])
        } else {
            None
        }
    }

    /// Writes `disc` at (row, col); a write past the edge is silently
    /// ignored, never an error.
    pub fn put_disc(&mut self, row: usize, col: usize, disc: Disc)
        ensures
            in_bounds(row as int, col as int) ==> final(self)@ == old(self)@.update(
                flat(row as int, col as int),
                disc,
            ),
            !in_bounds(row as int, col as int) ==> final(self)@ == old(self)@,
    {
        if row < 8 && col < 8 {
            self.cells[row * 8 + col] = disc;
        }
    }
}

} // verus!
