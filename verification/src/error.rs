//! What can stop an analysis or a search before it starts.

use vstd::prelude::*;
use vstd::string::StringExecFns;

verus! {

/// `std::io::Error`, carried through as it is: nothing is known of what it
/// holds.
#[verifier::external_type_specification]
#[verifier::external_body]
pub struct ExIoError(std::io::Error);

/// Why an analysis or a search did not start.
#[derive(Debug)]
pub enum AnalysisError {
    /// The root could not be resolved.
    IoError(std::io::Error),
    /// The resolved root does not exist.
    PathNotFound(String),
}

/// Calls `to_string` of `std::io::Error`: what the system says of the error.
/// Nothing is claimed of the text.
#[verifier::external_body]
fn io_error_text(error: &std::io::Error) -> (text: String) {
    error.to_string()
}

/// What is said of a root that does not exist.
pub open spec fn not_found_message(path: Seq<char>) -> Seq<char> {
    "Path not found: "@ + path
}

/// What is said of a root that could not be resolved, given the system's words.
pub open spec fn io_message(text: Seq<char>) -> Seq<char> {
    "IO Error: "@ + text
}

impl AnalysisError {
    /// The error in words.
    pub fn message(&self) -> (text: String)
        ensures
            self matches AnalysisError::PathNotFound(path) ==> text@ == not_found_message(path@),
            self is IoError ==> exists|words: Seq<char>| text@ == io_message(words),
    {
        match self {
            AnalysisError::IoError(error) => {
                let words = io_error_text(error);
                let mut text = String::from_str("IO Error: ");
                text.append(words.as_str());
                assert(text@ == io_message(words@));
                text
            },
            AnalysisError::PathNotFound(path) => {
                let mut text = String::from_str("Path not found: ");
                text.append(path.as_str());
                text
            },
        }
    }
}

/// Whether a run can start, given the outcome of resolving the root and
/// whether the resolved root is there: a root that could not be resolved
/// fails with the system's error, one that is not there is not found, any
/// other is the root of the run.
pub open spec fn resolution(resolved: Result<String, std::io::Error>, present: bool) -> Result<
    String,
    AnalysisError,
> {
    match resolved {
        Ok(path) => if present {
            Ok(path)
        } else {
            Err(AnalysisError::PathNotFound(path))
        },
        Err(error) => Err(AnalysisError::IoError(error)),
    }
}

/// Decides whether a run can start, from the outcome of resolving the root
/// and from whether the resolved root is there.
pub fn resolve_root(resolved: Result<String, std::io::Error>, present: bool) -> (root: Result<
    String,
    AnalysisError,
>)
    ensures
        root == resolution(resolved, present),
{
    match resolved {
        Ok(path) => if present {
            Ok(path)
        } else {
            Err(AnalysisError::PathNotFound(path))
        },
        Err(error) => Err(AnalysisError::IoError(error)),
    }
}

} // verus!
