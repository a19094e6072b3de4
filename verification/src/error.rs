use vstd::prelude::*;
use vstd::string::StringExecFns;

verus! {

/// What can go wrong in a run.
#[derive(Debug)]
pub enum RebuildOrderError {
    /// Given package is not present in database
    PackageNotFound,
    /// Pacman database failed to initialize; holds the database's own message
    PacmanDbInit(String),
    /// Writing dotfile failed; holds the message of the failed write
    DotfileError(String),
    /// Unknown cases
    Unknown,
}

impl RebuildOrderError {
    /// The text of the message, as a sequence of characters.
    pub open spec fn spec_message(self) -> Seq<char> {
        match self {
            RebuildOrderError::PackageNotFound => "package not found"@,
            RebuildOrderError::PacmanDbInit(e) => "could not initialize pacman db: `"@ + e@ + "`"@,
            RebuildOrderError::DotfileError(e) => "could not write to file: `"@ + e@ + "`"@,
            RebuildOrderError::Unknown => "unknown error"@,
        }
    }

    /// The message shown to the user for this error.
    pub fn message(&self) -> (text: String)
        ensures
            text@ == self.spec_message(),
    {
        match self {
            RebuildOrderError::PackageNotFound => String::from_str("package not found"),
            RebuildOrderError::PacmanDbInit(e) => {
                let mut text = String::from_str("could not initialize pacman db: `");
                text.append(e.as_str());
                text.append("`");
                text
            },
            RebuildOrderError::DotfileError(e) => {
                let mut text = String::from_str("could not write to file: `");
                text.append(e.as_str());
                text.append("`");
                text
            },
            RebuildOrderError::Unknown => String::from_str("unknown error"),
        }
    }
}

} // verus!
