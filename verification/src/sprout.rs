//! Runtime equivalence check: both versions of a fixture are run by the
//! host, and their outputs are compared here.

use vstd::prelude::*;
use vstd::string::*;

verus! {

/// What running the two versions of a fixture gave, and the verdict.
#[derive(Debug)]
pub struct SproutResult {
    pub original_output: String,
    pub compiled_output: String,
    pub original_error: Option<String>,
    pub compiled_error: Option<String>,
    pub passed: bool,
}

/// The text after the fixture in a runner: it calls the fixture's entry
/// point and prints the result, or the failure, as one line of JSON.
pub open spec fn runner_tail() -> Seq<char> {
    "\n\n// Execute the fixture entrypoint\nif (typeof FIXTURE_ENTRYPOINT !== 'undefined') {\n    const { fn, params } = FIXTURE_ENTRYPOINT;\n    try {\n        const result = fn(...params);\n        console.log(JSON.stringify({ success: true, result }));\n    } catch (error) {\n        console.log(JSON.stringify({ success: false, error: error.message }));\n    }\n} else {\n    console.log(JSON.stringify({ success: false, error: \"No FIXTURE_ENTRYPOINT defined\" }));\n}\n"@
}

/// The runner of a fixture: a line break, the fixture, the tail.
pub open spec fn runner_text(fixture: Seq<char>) -> Seq<char> {
    ("\n"@ + fixture) + runner_tail()
}

/// The program that runs a fixture, as [`runner_text`] says.
pub fn generate_runner(fixture_code: &str) -> (r: String)
    ensures
        r@ == runner_text(fixture_code@),
{
    let mut r = String::from_str("\n");
    r.append(fixture_code);
    r.append(
        "\n\n// Execute the fixture entrypoint\nif (typeof FIXTURE_ENTRYPOINT !== 'undefined') {\n    const { fn, params } = FIXTURE_ENTRYPOINT;\n    try {\n        const result = fn(...params);\n        console.log(JSON.stringify({ success: true, result }));\n    } catch (error) {\n        console.log(JSON.stringify({ success: false, error: error.message }));\n    }\n} else {\n    console.log(JSON.stringify({ success: false, error: \"No FIXTURE_ENTRYPOINT defined\" }));\n}\n",
    );
    r
}

/// White space: the characters with the Unicode property White_Space.
pub open spec fn is_white_space(c: char) -> bool {
    let n = c as u32;
    ||| 0x9 <= n <= 0xd
    ||| n == 0x20
    ||| n == 0x85
    ||| n == 0xa0
    ||| n == 0x1680
    ||| 0x2000 <= n <= 0x200a
    ||| n == 0x2028
    ||| n == 0x2029
    ||| n == 0x202f
    ||| n == 0x205f
    ||| n == 0x3000
}

/// A text without its leading white space.
pub open spec fn trimmed_start(s: Seq<char>) -> Seq<char>
    decreases s.len(),
{
    if s.len() > 0 && is_white_space(s[0]) {
        trimmed_start(s.subrange(1, s.len() as int))
    } else {
        s
    }
}

/// A text without its trailing white space.
pub open spec fn trimmed_end(s: Seq<char>) -> Seq<char>
    decreases s.len(),
{
    if s.len() > 0 && is_white_space(s.last()) {
        trimmed_end(s.drop_last())
    } else {
        s
    }
}

/// A text without its leading and trailing white space: what lies between
/// its first and its last character that is no white space.
pub open spec fn trimmed(s: Seq<char>) -> Seq<char> {
    trimmed_end(trimmed_start(s))
}

/// Decides [`is_white_space`].
fn white_space(c: char) -> (r: bool)
    ensures
        r == is_white_space(c),
{
    let n: u32 = c as u32;
    (0x9 <= n && n <= 0xd) || n == 0x20 || n == 0x85 || n == 0xa0 || n == 0x1680 || (0x2000 <= n
        && n <= 0x200a) || n == 0x2028 || n == 0x2029 || n == 0x202f || n == 0x205f || n == 0x3000
}

/// The text without its leading and trailing white space, as [`trimmed`]
/// says, as a string of its own.
fn trim_text(s: &str) -> (r: String)
    ensures
        r@ == trimmed(s@),
{
    let n: usize = s.unicode_len();
    let mut i: usize = 0;
    assert(s@.subrange(0, n as int) =~= s@);
    while i < n && white_space(s.get_char(i))
        invariant
            i <= n,
            n == s@.len(),
            trimmed_start(s@.subrange(i as int, n as int)) == trimmed_start(s@),
        decreases n - i,
    {
        proof {
            let rest = s@.subrange(i as int, n as int);
            assert(rest[0] == s@[i as int]);
            assert(rest.subrange(1, rest.len() as int) =~= s@.subrange(i + 1, n as int));
        }
        i += 1;
    }
    proof {
        let rest = s@.subrange(i as int, n as int);
        if i < n {
            assert(rest[0] == s@[i as int]);
        }
        assert(trimmed_start(rest) == rest);
    }
    let mut j: usize = n;
    while j > i && white_space(s.get_char(j - 1))
        invariant
            i <= j <= n,
            n == s@.len(),
            trimmed_end(s@.subrange(i as int, j as int)) == trimmed_end(s@.subrange(i as int, n as int)),
        decreases j,
    {
        proof {
            let part = s@.subrange(i as int, j as int);
            assert(part.last() == s@[j - 1]);
            assert(part.drop_last() =~= s@.subrange(i as int, j - 1));
        }
        j -= 1;
    }
    proof {
        let part = s@.subrange(i as int, j as int);
        if j > i {
            assert(part.last() == s@[j - 1]);
        }
        assert(trimmed_end(part) == part);
    }
    String::from_str(s.substring_char(i, j))
}

/// The verdict on two runs, from their trimmed outputs and their errors:
/// the outputs agree and neither run failed.
pub fn verdict(
    original_trimmed: &String,
    compiled_trimmed: &String,
    original_error: &Option<String>,
    compiled_error: &Option<String>,
) -> (passed: bool)
    ensures
        passed == (original_trimmed@ == compiled_trimmed@ && original_error is None
            && compiled_error is None),
{
    *original_trimmed == *compiled_trimmed && original_error.is_none() && compiled_error.is_none()
}

/// The output and error of a run: what it printed and, where it failed,
/// what it reported; a run that could not be started has no output and its
/// failure as error.
pub fn run_parts(run: Result<(String, Option<String>), String>) -> (r: (String, Option<String>))
    ensures
        match run {
            Ok((out, err)) => r.0@ == out@ && r.1.deep_view() == err.deep_view(),
            Err(e) => r.0@.len() == 0 && r.1.deep_view() == Some(e@),
        },
{
    match run {
        Ok((out, err)) => (out, err),
        Err(e) => (String::new(), Some(e)),
    }
}

/// Compares the runs of the original and the compiled fixture.  The check
/// passes exactly when both runs succeeded and printed the same text up to
/// surrounding white space.
pub fn verify_fixture(
    original_run: Result<(String, Option<String>), String>,
    compiled_run: Result<(String, Option<String>), String>,
) -> (r: SproutResult)
    ensures
        r.passed == (trimmed(r.original_output@) == trimmed(r.compiled_output@)
            && r.original_error is None && r.compiled_error is None),
        match original_run {
            Ok((out, err)) => r.original_output@ == out@ && r.original_error.deep_view()
                == err.deep_view(),
            Err(e) => r.original_output@.len() == 0 && r.original_error.deep_view() == Some(e@),
        },
        match compiled_run {
            Ok((out, err)) => r.compiled_output@ == out@ && r.compiled_error.deep_view()
                == err.deep_view(),
            Err(e) => r.compiled_output@.len() == 0 && r.compiled_error.deep_view() == Some(e@),
        },
{
    let (original_output, original_error) = run_parts(original_run);
    let (compiled_output, compiled_error) = run_parts(compiled_run);
    let passed = verdict(
        &trim_text(original_output.as_str()),
        &trim_text(compiled_output.as_str()),
        &original_error,
        &compiled_error,
    );
    SproutResult { original_output, compiled_output, original_error, compiled_error, passed }
}

} // verus!
