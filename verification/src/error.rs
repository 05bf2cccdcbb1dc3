//! The error every fallible operation reports, with the message shown to the user.

use vstd::prelude::*;
use crate::text::concat2;

verus! {

/// What went wrong, by area.
#[derive(Debug, Clone)]
pub enum AppError {
    Scan(String),
    Launch(String),
    Persist(String),
    Cycle(String),
}

/// The user-facing message of an error.
pub open spec fn error_message(e: AppError) -> Seq<char> {
    match e {
        AppError::Scan(m) => "scan failed: "@ + m@,
        AppError::Launch(m) => "launch failed: "@ + m@,
        AppError::Persist(m) => "persistence error: "@ + m@,
        AppError::Cycle(m) => "dependency cycle: "@ + m@,
    }
}

impl AppError {
    /// The user-facing message: the area, a colon, and the detail.
    pub fn message(&self) -> (r: String)
        ensures
            r@ == error_message(*self),
    {
        match self {
            AppError::Scan(m) => concat2("scan failed: ", m.as_str()),
            AppError::Launch(m) => concat2("launch failed: ", m.as_str()),
            AppError::Persist(m) => concat2("persistence error: ", m.as_str()),
            AppError::Cycle(m) => concat2("dependency cycle: ", m.as_str()),
        }
    }
}

} // verus!
