use vstd::prelude::*;

verus! {

/// Why an optimizer call was rejected before any iteration ran.
#[derive(Clone, Copy, Debug, PartialEq, Eq, Structural)]
pub enum AnnealError {
    /// The grid has zero rows, zero columns, or ragged rows.
    InvalidGrid,
    /// A requested target label does not occur in the grid.
    MissingLabel,
    /// A control parameter is out of range (`alpha` outside `(0,1)`,
    /// `t0 <= 0`, or `t_min` negative). Those parameters are validated at
    /// the floating-point boundary, outside this library.
    InvalidParameter,
}

impl AnnealError {
    /// A short human-readable description of the error.
    pub fn describe(&self) -> (r: &'static str)
        ensures
            r@ =~= (match self {
                AnnealError::InvalidGrid => "grid has zero rows, zero columns, or ragged rows"@,
                AnnealError::MissingLabel => "a target label does not occur in the grid"@,
                AnnealError::InvalidParameter => "annealing parameter out of range"@,
            }),
    {
        match self {
            AnnealError::InvalidGrid => "grid has zero rows, zero columns, or ragged rows",
            AnnealError::MissingLabel => "a target label does not occur in the grid",
            AnnealError::InvalidParameter => "annealing parameter out of range",
        }
    }
}

} // verus!
