//! The shape of a compilation result handed to an embedding host.

use crate::error::{error_text, CompilerError};
use crate::text::same_text;
use vstd::prelude::*;
use vstd::string::*;

verus! {

/// The outcome of a compilation: the code on success, the error text on
/// failure.
#[derive(Debug)]
pub struct CompileResult {
    pub code: String,
    pub success: bool,
    pub error: Option<String>,
}

/// The kinds of source text.
#[derive(Debug, Clone, Copy, PartialEq, Eq, Structural)]
pub enum SourceKind {
    /// A module with type hints.
    TypeScript,
    /// A module with type hints and markup.
    Tsx,
    /// A module with markup.
    Jsx,
    /// A plain module.
    Module,
}

/// The source kind of a file type: `ts`, `tsx` and `jsx` name theirs,
/// anything else is a plain module.
pub open spec fn kind_of(file_type: Option<Seq<char>>) -> SourceKind {
    match file_type {
        Some(t) => if t == "ts"@ {
            SourceKind::TypeScript
        } else if t == "tsx"@ {
            SourceKind::Tsx
        } else if t == "jsx"@ {
            SourceKind::Jsx
        } else {
            SourceKind::Module
        },
        None => SourceKind::Module,
    }
}

/// The source kind of a file type, as [`kind_of`] says.
pub fn source_kind(file_type: &Option<String>) -> (r: SourceKind)
    ensures
        r == kind_of(file_type.deep_view()),
{
    match file_type {
        Some(t) => {
            if same_text(t.as_str(), "ts") {
                SourceKind::TypeScript
            } else if same_text(t.as_str(), "tsx") {
                SourceKind::Tsx
            } else if same_text(t.as_str(), "jsx") {
                SourceKind::Jsx
            } else {
                SourceKind::Module
            }
        },
        None => SourceKind::Module,
    }
}

/// Wraps the outcome of a compilation: the code with `success` set, or the
/// text of the error with empty code.
pub fn compile_result(outcome: Result<String, CompilerError>) -> (r: CompileResult)
    ensures
        match outcome {
            Ok(code) => r.success && r.code@ == code@ && r.error is None,
            Err(e) => !r.success && r.code@.len() == 0 && r.error.deep_view() == Some(error_text(e)),
        },
{
    match outcome {
        Ok(code) => CompileResult { code, success: true, error: None },
        Err(e) => CompileResult { code: String::new(), success: false, error: Some(e.message()) },
    }
}

/// The version of the compiler.
pub fn version() -> (r: String)
    ensures
        r@ == "0.1.0"@,
{
    String::from_str("0.1.0")
}

} // verus!
