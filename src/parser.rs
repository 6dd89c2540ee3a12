use vstd::prelude::*;
use vstd::string::*;

pub mod artifacts;
pub mod scanner;

verus! {

/// Why a scan failed.
#[derive(Debug, PartialEq, Eq)]
pub enum ParseError {
    /// A specific token was required and something else (or the end of input) was found;
    /// `hint` shows the text around the cursor as `before>current<after`.
    Unexpected { expected: String, got: String, hint: String },
    /// The input ran out where more was required.
    Empty,
}

impl ParseError {
    /// A sentence that describes the error.
    pub fn message(&self) -> (r: String)
        ensures
            self matches ParseError::Unexpected { expected, got, hint } ==> r@ == "unexpected "@
                + got@ + ", excepting "@ + expected@ + " (hint: `"@ + hint@ + "`)"@,
            self is Empty ==> r@ == "got empty string to parse"@,
    {
        match self {
            ParseError::Unexpected { expected, got, hint } => {
                let mut r = String::from_str("unexpected ");
                r.append(got.as_str());
                r.append(", excepting ");
                r.append(expected.as_str());
                r.append(" (hint: `");
                r.append(hint.as_str());
                r.append("`)");
                r
            },
            ParseError::Empty => String::from_str("got empty string to parse"),
        }
    }
}

/// The error for input that ran out.
pub fn empty() -> (r: ParseError)
    ensures
        r == ParseError::Empty,
{
    ParseError::Empty
}

} // verus!
