//! The errors of the tool.
use vstd::prelude::*;

verus! {

/// What can go wrong: invalid input, a failed read or process, or
/// unreadable or unwritable JSON. The I/O and JSON variants carry the
/// underlying error's message.
#[derive(Debug, Clone)]
pub enum SieveError {
    Validation(String),
    Io(String),
    Json(String),
}

impl SieveError {
    /// The process exit code: 2 for I/O errors, 1 for the others.
    pub fn exit_code(&self) -> (r: i32)
        ensures
            r == (if self is Io {
                2i32
            } else {
                1i32
            }),
    {
        match self {
            SieveError::Validation(_) => 1,
            SieveError::Io(_) => 2,
            SieveError::Json(_) => 1,
        }
    }

    /// The machine-readable error code.
    pub fn error_code(&self) -> (r: &'static str)
        ensures
            r@ == match self {
                SieveError::Validation(_) => "validation_error"@,
                SieveError::Io(_) => "io_error"@,
                SieveError::Json(_) => "json_error"@,
            },
    {
        match self {
            SieveError::Validation(_) => "validation_error",
            SieveError::Io(_) => "io_error",
            SieveError::Json(_) => "json_error",
        }
    }
}

} // verus!
