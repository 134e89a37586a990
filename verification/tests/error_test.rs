use react_compiler_rust::error::CompilerError;
use react_compiler_rust::napi::{compile_result, source_kind, version, SourceKind};

#[test]
fn parse_error_text() {
    let e = CompilerError::ParseError { message: "unexpected token".to_string() };
    assert_eq!(e.message(), "Parse error: unexpected token");
}

#[test]
fn lowering_error_text() {
    let e = CompilerError::LoweringError { message: "function too large".to_string() };
    assert_eq!(e.message(), "Lowering error: function too large");
}

#[test]
fn unsupported_syntax_text() {
    let e = CompilerError::UnsupportedSyntax { syntax: "with".to_string() };
    assert_eq!(e.message(), "Unsupported syntax: with");
}

#[test]
fn io_error_text() {
    let e = CompilerError::IoError("file not found".to_string());
    assert_eq!(e.message(), "IO error: file not found");
}

#[test]
fn file_types_name_their_source_kind() {
    assert_eq!(source_kind(&Some("ts".to_string())), SourceKind::TypeScript);
    assert_eq!(source_kind(&Some("tsx".to_string())), SourceKind::Tsx);
    assert_eq!(source_kind(&Some("jsx".to_string())), SourceKind::Jsx);
    assert_eq!(source_kind(&Some("js".to_string())), SourceKind::Module);
    assert_eq!(source_kind(&Some("".to_string())), SourceKind::Module);
    assert_eq!(source_kind(&None), SourceKind::Module);
}

#[test]
fn successful_compilation_is_wrapped() {
    let r = compile_result(Ok("code".to_string()));
    assert!(r.success);
    assert_eq!(r.code, "code");
    assert_eq!(r.error, None);
}

#[test]
fn failed_compilation_is_wrapped() {
    let r = compile_result(Err(CompilerError::LoweringError { message: "m".to_string() }));
    assert!(!r.success);
    assert_eq!(r.code, "");
    assert_eq!(r.error, Some("Lowering error: m".to_string()));
}

#[test]
fn version_is_reported() {
    assert_eq!(version(), "0.1.0");
}
