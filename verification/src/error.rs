use vstd::prelude::*;

verus! {

/// Reasons for which a conversion is abandoned.
#[derive(Clone, Copy, Debug, PartialEq, Eq, Structural)]
pub enum Error {
    /// No face of the mesh was classified as ground.
    NoGroundSurface,
    /// The representative roof height was zero or negative.
    NonPositiveHeight,
}

impl Error {
    /// A short description of the failure, for display to a user.
    pub fn message(&self) -> (text: &'static str)
        ensures
            text@ == (match *self {
                Error::NoGroundSurface => "No ground surfaces found"@,
                Error::NonPositiveHeight => "Failed to calculate target height"@,
            }),
    {
        match self {
            Error::NoGroundSurface => "No ground surfaces found",
            Error::NonPositiveHeight => "Failed to calculate target height",
        }
    }
}

} // verus!
