//! The errors of the compiler.

use vstd::prelude::*;
use vstd::string::*;

verus! {

/// What can go wrong in a compilation.
#[derive(Debug)]
pub enum CompilerError {
    /// The source could not be parsed.
    ParseError { message: String },
    /// The tree could not be lowered.
    LoweringError { message: String },
    /// A construct that the compiler recognises and does not accept.
    UnsupportedSyntax { syntax: String },
    /// Reading or writing failed.
    IoError(String),
}

/// The result of a compiler operation.
pub type CompilerResult<T> = Result<T, CompilerError>;

/// The text of an error: its kind, a colon, and its detail.
pub open spec fn error_text(e: CompilerError) -> Seq<char> {
    match e {
        CompilerError::ParseError { message } => "Parse error: "@ + message@,
        CompilerError::LoweringError { message } => "Lowering error: "@ + message@,
        CompilerError::UnsupportedSyntax { syntax } => "Unsupported syntax: "@ + syntax@,
        CompilerError::IoError(message) => "IO error: "@ + message@,
    }
}

impl CompilerError {
    /// The text of the error, as [`error_text`] says.
    pub fn message(&self) -> (r: String)
        ensures
            r@ == error_text(*self),
    {
        match self {
            CompilerError::ParseError { message } => {
                let mut r = String::from_str("Parse error: ");
                r.append(message.as_str());
                r
            },
            CompilerError::LoweringError { message } => {
                let mut r = String::from_str("Lowering error: ");
                r.append(message.as_str());
                r
            },
            CompilerError::UnsupportedSyntax { syntax } => {
                let mut r = String::from_str("Unsupported syntax: ");
                r.append(syntax.as_str());
                r
            },
            CompilerError::IoError(message) => {
                let mut r = String::from_str("IO error: ");
                r.append(message.as_str());
                r
            },
        }
    }
}

} // verus!
