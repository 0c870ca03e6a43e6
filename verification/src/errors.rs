//! The errors of the library.

use vstd::prelude::*;
use vstd::string::StringExecFns;

verus! {

/// What can go wrong with a provider's answer once it has arrived.
#[derive(Debug, Clone, PartialEq, Eq)]
pub enum AppError {
    /// The answer could not be read as what the provider documents. The
    /// text says what was received.
    ResponseError(String),
}

impl AppError {
    /// The text that the error carries.
    pub open spec fn detail(self) -> Seq<char> {
        match self {
            AppError::ResponseError(text) => text@,
        }
    }

    /// The message shown for the error.
    pub open spec fn message_text(self) -> Seq<char> {
        "response error:`"@ + self.detail() + "`"@
    }

    /// The message shown for the error.
    pub fn message(&self) -> (r: String)
        ensures
            r@ == self.message_text(),
    {
        match self {
            AppError::ResponseError(text) => {
                String::from_str("response error:`").concat(text.as_str()).concat("`")
            },
        }
    }
}

} // verus!
