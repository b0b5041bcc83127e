//! What can go wrong around the store.

use vstd::prelude::*;

verus! {

/// An error whose message is known beforehand.
pub trait AsErrStr {
    /// The message.
    fn as_str(&self) -> &'static str;
}

/// The local data directory of this system could not be found.
#[derive(Debug)]
pub struct DataDirNotFoundError;

impl AsErrStr for DataDirNotFoundError {
    fn as_str(&self) -> (message: &'static str)
        ensures
            message@ == "local data directory wasn't found"@,
    {
        "local data directory wasn't found"
    }
}

/// The error that serde_json reports.
#[verifier::external_type_specification]
#[verifier::external_body]
pub struct ExJsonError(serde_json::Error);

/// Stored data that could not be read: the whole of it is then refused.
#[derive(Debug)]
pub enum LoadError {
    /// The text is not a JSON object of strings.
    Json(serde_json::Error),
    /// The value stored for a task is no timestamp.
    Timestamp {
        /// The task whose value it is.
        name: String,
        /// What chrono found wrong.
        cause: chrono::format::ParseError,
    },
}

} // verus!
