//! The error taxonomy of the pipeline. Every failure is fatal to the run;
//! the caller decides how to print it and with what exit code.

use vstd::prelude::*;

verus! {

/// Why a pipeline run was rejected.
#[derive(Debug, Clone, PartialEq, Eq)]
pub enum TfError {
    /// A `$N` column literal whose remainder is not a positive integer.
    InvalidColumnNumber,
    /// A named column that the header row does not contain; carries the name.
    ColumnNotFound(String),
    /// A header-row index outside the bounds of the input.
    InvalidHeaderRow,
    /// A match argument that is valid JSON but not an object of strings or
    /// arrays of strings.
    MalformedMatchSpec,
    /// A transform argument that is valid JSON but not an object of strings
    /// or arrays of strings.
    MalformedTransformSpec,
    /// A match or transform argument that is not valid JSON at all.
    InvalidJson,
}

/// The diagnostic text of an error, as a sequence of characters.
pub open spec fn spec_message(e: TfError) -> Seq<char> {
    match e {
        TfError::InvalidColumnNumber => "Invalid column number"@,
        TfError::ColumnNotFound(name) => "Column name '"@ + name@ + "' not found in headers"@,
        TfError::InvalidHeaderRow => "Invalid headers row"@,
        TfError::MalformedMatchSpec => "--match values must be strings or lists of strings"@,
        TfError::MalformedTransformSpec => (
            "--transform values must be strings or arrays of strings"@
        ),
        TfError::InvalidJson => "Invalid JSON argument"@,
    }
}

impl TfError {
    /// The diagnostic line for this error.
    pub fn message(&self) -> (r: String)
        ensures
            r@ == spec_message(*self),
    {
        match self {
            TfError::InvalidColumnNumber => String::from_str("Invalid column number"),
            TfError::ColumnNotFound(name) => {
                let head = String::from_str("Column name '");
                head.concat(name.as_str()).concat("' not found in headers")
            },
            TfError::InvalidHeaderRow => String::from_str("Invalid headers row"),
            TfError::MalformedMatchSpec => {
                String::from_str("--match values must be strings or lists of strings")
            },
            TfError::MalformedTransformSpec => {
                String::from_str("--transform values must be strings or arrays of strings")
            },
            TfError::InvalidJson => String::from_str("Invalid JSON argument"),
        }
    }
}

} // verus!
