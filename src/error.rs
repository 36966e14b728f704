use vstd::prelude::*;

verus! {

/// Declares std's `io::Error`, carried opaquely by `MazeError::IOError`;
/// nothing about its contents is assumed.
#[verifier::external_type_specification]
#[verifier::external_body]
pub struct ExIoError(std::io::Error);

/// Failures of the scene loader that surrounds the planner: reading the
/// scene document, or finding it malformed.
pub enum MazeError {
    IOError(std::io::Error),
    XMLError,
}

impl MazeError {
    /// The short human-readable message for this error.
    pub fn message(&self) -> (r: &'static str)
        ensures
            self is IOError ==> r@ == "io error"@,
            self is XMLError ==> r@ == "xml error"@,
    {
        proof {
            reveal_strlit("io error");
            reveal_strlit("xml error");
        }
        match self {
            MazeError::IOError(_) => "io error",
            MazeError::XMLError => "xml error",
        }
    }
}

} // verus!
