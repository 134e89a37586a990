use react_compiler_rust::sprout::{generate_runner, verify_fixture};

/// What the host interpreter prints for a fixture whose entry point returns
/// the given JSON value.
fn printed(result_json: &str) -> Result<(String, Option<String>), String> {
    Ok((format!("{{\"success\":true,\"result\":{}}}\n", result_json), None))
}

#[test]
fn test_verify_identical_code() {
    let code = r#"
function add(a, b) {
    return a + b;
}

const FIXTURE_ENTRYPOINT = {
    fn: add,
    params: [1, 2],
};
"#;

    assert!(generate_runner(code).contains(code));
    let result = verify_fixture(printed("3"), printed("3"));
    assert!(result.passed, "Identical code should pass: {:?}", result);
}

#[test]
fn test_verify_semantically_equivalent() {
    let original = r#"
function add(a, b) {
    return a + b;
}

const FIXTURE_ENTRYPOINT = {
    fn: add,
    params: [5, 3],
};
"#;

    // Different style but same semantics
    let compiled = r#"
function add(a, b) {
    const result = a + b;
    return result;
}

const FIXTURE_ENTRYPOINT = {
    fn: add,
    params: [5, 3],
};
"#;

    assert!(generate_runner(original).contains(original));
    assert!(generate_runner(compiled).contains(compiled));
    let result = verify_fixture(printed("8"), printed("8"));
    assert!(result.passed, "Semantically equivalent code should pass: {:?}", result);
}

#[test]
fn test_verify_different_results_fails() {
    let original = r#"
function getValue() {
    return 42;
}

const FIXTURE_ENTRYPOINT = {
    fn: getValue,
    params: [],
};
"#;

    let compiled = r#"
function getValue() {
    return 100;  // Wrong!
}

const FIXTURE_ENTRYPOINT = {
    fn: getValue,
    params: [],
};
"#;

    assert!(generate_runner(original).contains(original));
    assert!(generate_runner(compiled).contains(compiled));
    let result = verify_fixture(printed("42"), printed("100"));
    assert!(!result.passed, "Different results should fail");
}

#[test]
fn verify_ignores_surrounding_white_space() {
    let original = Ok(("  {\"success\":true,\"result\":1}\n\n".to_string(), None));
    let compiled = Ok(("{\"success\":true,\"result\":1}".to_string(), None));
    let result = verify_fixture(original, compiled);
    assert!(result.passed);
    assert_eq!(result.original_output, "  {\"success\":true,\"result\":1}\n\n");
    assert_eq!(result.compiled_output, "{\"success\":true,\"result\":1}");
}

#[test]
fn verify_fails_when_a_run_reports_an_error() {
    let original = Ok(("x".to_string(), None));
    let compiled = Ok(("x".to_string(), Some("boom".to_string())));
    let result = verify_fixture(original, compiled);
    assert!(!result.passed);
    assert_eq!(result.compiled_error, Some("boom".to_string()));
}

#[test]
fn verify_fails_when_a_run_cannot_start() {
    let original = Err("no interpreter".to_string());
    let compiled = Ok(("".to_string(), None));
    let result = verify_fixture(original, compiled);
    assert!(!result.passed);
    assert_eq!(result.original_output, "");
    assert_eq!(result.original_error, Some("no interpreter".to_string()));
}

#[test]
fn runner_wraps_the_fixture() {
    let runner = generate_runner("const FIXTURE_ENTRYPOINT = { fn: () => 1, params: [] };");
    assert!(runner.starts_with("\nconst FIXTURE_ENTRYPOINT = { fn: () => 1, params: [] };\n\n// Execute the fixture entrypoint\n"));
    assert!(runner.ends_with("console.log(JSON.stringify({ success: false, error: \"No FIXTURE_ENTRYPOINT defined\" }));\n}\n"));
}

fn run(out: &str) -> Result<(String, Option<String>), String> {
    Ok((out.to_string(), None))
}

#[test]
fn every_kind_of_white_space_is_trimmed_at_both_ends() {
    let spaces = [
        '\u{9}', '\u{a}', '\u{b}', '\u{c}', '\u{d}', ' ', '\u{85}', '\u{a0}', '\u{1680}', '\u{2000}',
        '\u{2001}', '\u{2002}', '\u{2003}', '\u{2004}', '\u{2005}', '\u{2006}', '\u{2007}', '\u{2008}',
        '\u{2009}', '\u{200a}', '\u{2028}', '\u{2029}', '\u{202f}', '\u{205f}', '\u{3000}',
    ];
    for c in spaces {
        let padded = format!("{}{}x y{}", c, c, c);
        assert!(verify_fixture(run(&padded), run("x y")).passed, "U+{:04X}", c as u32);
        assert!(verify_fixture(run("x y"), run(&padded)).passed, "U+{:04X}", c as u32);
    }
}

#[test]
fn characters_next_to_white_space_are_kept() {
    for c in ['\u{8}', '\u{e}', '\u{1f}', '!', '\u{84}', '\u{86}', '\u{9f}', '\u{a1}', '\u{167f}', '\u{1681}',
        '\u{180e}', '\u{1fff}', '\u{200b}', '\u{2027}', '\u{202a}', '\u{202e}', '\u{2030}', '\u{205e}',
        '\u{2060}', '\u{2fff}', '\u{3001}', '\u{feff}']
    {
        let before = format!("{}x", c);
        let after = format!("x{}", c);
        assert!(!verify_fixture(run(&before), run("x")).passed, "U+{:04X}", c as u32);
        assert!(!verify_fixture(run(&after), run("x")).passed, "U+{:04X}", c as u32);
    }
}

#[test]
fn white_space_inside_the_output_counts() {
    assert!(!verify_fixture(run("x  y"), run("x y")).passed);
    assert!(verify_fixture(run(" \n\t"), run("")).passed);
}

#[test]
fn trimming_agrees_with_the_standard_library() {
    let samples = [
        "", " ", "\n\n", "a", " a", "a ", " a b \t", "\u{a0}x\u{3000}", "\u{200b} x \u{200b}",
        "\r\n{\"success\":true}\r\n", "\u{85}\u{1680}\u{2028}\u{2029}\u{202f}\u{205f}", "x\u{feff}",
    ];
    for s in samples {
        assert!(verify_fixture(run(s), run(s.trim())).passed, "{:?}", s);
        let marked = format!("{}|", s.trim());
        let other = format!("{}|", s);
        assert_eq!(verify_fixture(run(&marked), run(&other)).passed, s.trim_start() == s.trim());
    }
}
