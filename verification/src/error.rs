//! The ways in which reading a table and querying a layer fail.

use vstd::prelude::*;
use vstd::string::StringExecFns;

verus! {

/// Why a text is no table.
#[derive(Debug, Clone, Copy, PartialEq, Eq, Structural)]
pub enum ParseError {
    /// The text has no header line, or no line after it.
    TooFewLines,
    /// A line has more or fewer fields than the header line.
    FieldCount {
        /// The position of the line in the text; the header is line 0.
        line: usize,
    },
    /// One of the first two fields of a line is missing or is no decimal
    /// floating-point literal.
    Coordinate {
        /// The position of the line in the text; the header is line 0.
        line: usize,
    },
}

impl ParseError {
    /// A sentence that says what is wrong with the text.
    pub fn message(&self) -> (text: String)
        ensures
            *self == ParseError::TooFewLines ==> text@ == "file must contain at least a header line"@,
            self is FieldCount ==> text@ == "row and header differ in their number of fields"@,
            self is Coordinate ==> text@ == "coordinate is not a number"@,
    {
        match self {
            ParseError::TooFewLines => String::from_str("file must contain at least a header line"),
            ParseError::FieldCount { .. } => String::from_str(
                "row and header differ in their number of fields",
            ),
            ParseError::Coordinate { .. } => String::from_str("coordinate is not a number"),
        }
    }
}

/// Why a query on a layer fails.
#[derive(Debug, Clone, Copy, PartialEq, Eq, Structural)]
pub enum QueryError {
    /// The store holds no layer under the identifier.
    NotFound,
    /// The table has no column, or no row, at the index.
    IndexOutOfRange,
    /// The sort direction is neither `asc` nor `desc`.
    InvalidArgument,
    /// A column that is marked numeric holds a value that is no number.
    SortError,
}

impl QueryError {
    /// A sentence that says what is wrong with the query.
    pub fn message(&self) -> (text: String)
        ensures
            *self == QueryError::NotFound ==> text@ == "no layer has this identifier"@,
            *self == QueryError::IndexOutOfRange ==> text@ == "index is out of range"@,
            *self == QueryError::InvalidArgument ==> text@ == "sort direction must be asc or desc"@,
            *self == QueryError::SortError ==> text@ == "numeric column holds a value that is no number"@,
    {
        match self {
            QueryError::NotFound => String::from_str("no layer has this identifier"),
            QueryError::IndexOutOfRange => String::from_str("index is out of range"),
            QueryError::InvalidArgument => String::from_str("sort direction must be asc or desc"),
            QueryError::SortError => String::from_str(
                "numeric column holds a value that is no number",
            ),
        }
    }
}

} // verus!
