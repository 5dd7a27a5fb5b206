use vstd::prelude::*;

verus! {

/// The state of one grid cell: unoccupied, a digit, or blocked.
#[derive(Debug, Clone, Copy, PartialEq, Eq, Structural)]
pub enum Cell {
    Vacant,
    Number(u8),
    Shaded,
}

impl Cell {
    /// A cell state is valid when a numeric payload lies in `0..=9`.
    pub open spec fn wf(self) -> bool {
        match self {
            Cell::Number(n) => n <= 9,
            _ => true,
        }
    }

    /// Checked constructor for the numeric variant: a value above 9 builds
    /// no cell at all.
    pub fn new_number(n: u8) -> (r: Option<Cell>)
        ensures
            n <= 9 ==> r == Some(Cell::Number(n)),
            n > 9 ==> r is None,
    {
        if n <= 9 {
            Some(Cell::Number(n))
        } else {
            None
        }
    }
}

} // verus!
