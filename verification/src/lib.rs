//! A memoizing source-to-source compiler for functions of a JavaScript-like
//! language: a surface tree is lowered to a control-flow graph, brought into
//! SSA form, analysed for liveness, grouped into reactive scopes, rebuilt as a
//! structured tree and printed.  Every stage is an executable function whose
//! result is pinned to a mathematical model by its contract.

pub mod ast;
pub mod codegen;
pub mod error;
pub mod hir;
pub mod napi;
pub mod sprout;
pub mod text;

use crate::ast::{Function, Parsed};
use crate::codegen::{cache_size, cache_size_of, emit_function, generate_code};
use crate::error::CompilerError;
use crate::hir::budget::function_fits;
use crate::hir::inference::{infer_liveness, live_ranges};
use crate::hir::lowering::{function_cost, lower_function, LoweringContext};
use crate::hir::naming::{function_names_ok, lemma_lowered_unassigned};
use crate::hir::reactive_function::{build_reactive_function, build_tree};
use crate::hir::reactive_scopes::{construct_reactive_scopes, scopes_of};
use crate::hir::scope::ScopeV;
use crate::hir::reactive_scopes::single_definitions;
use crate::hir::schedule::{lemma_schedule_versions, schedule_of, versions_defined_once};
use crate::hir::scope_laws::lemma_scopes_apart;
use crate::hir::ssa::{enter_ssa, ssa_fits, ssa_of};
use crate::hir::ssa_defs::lemma_ssa_definitions;
use crate::hir::{single_versions, FuncV, HIRFunction, IdentV};
use crate::text::texts;
use vstd::prelude::*;
use vstd::string::*;

verus! {

/// The graph of a function in SSA form.
pub open spec fn ssa_graph(f: Function) -> FuncV {
    ssa_of(lower_function(f))
}

/// The reactive scopes of a function.
pub open spec fn function_scopes(f: Function) -> Seq<ScopeV> {
    scopes_of(ssa_graph(f), live_ranges(ssa_graph(f)))
}

/// The text that a function compiles to: it is lowered, brought into SSA
/// form, its scopes are constructed from its liveness, its tree is rebuilt
/// and printed.
pub open spec fn compiled(f: Function) -> Seq<char> {
    emit_function(build_tree(ssa_graph(f)), function_scopes(f))
}

/// Whether a function can be compiled on this machine: its temporaries,
/// instruction ids, versions and cache slots fit the machine's integers.
pub open spec fn compiles(f: Function) -> bool {
    &&& function_cost(f) <= usize::MAX
    &&& ssa_fits(lower_function(f))
    &&& cache_size(function_scopes(f)) <= usize::MAX
}

/// Whether `e` is the error for a function that does not fit the machine:
/// a lowering error whose message is `function too large`.
pub open spec fn is_too_large(e: CompilerError) -> bool {
    e matches CompilerError::LoweringError { message } && message@ == "function too large"@
}

/// SSA single definition: in the SSA form of a function that assigns no
/// variable named like a temporary, no two instructions of the schedule
/// define the same identifier, and no two instructions at all define the
/// same identifier with a version of at least 1.
pub proof fn lemma_single_definitions(f: Function)
    requires
        function_names_ok(f),
        ssa_fits(lower_function(f)),
        lower_function(f).blocks.len() <= usize::MAX,
    ensures
        single_definitions(schedule_of(ssa_graph(f))),
        single_versions(ssa_graph(f).blocks),
{
    lemma_lowered_unassigned(f);
    lemma_ssa_definitions(lower_function(f));
}

/// Dependencies and declarations are apart: in a function that assigns no
/// variable named like a temporary, no identifier is both a dependency and
/// a declaration of one of its scopes.
pub proof fn lemma_function_scopes_apart(f: Function, k: int, d: IdentV)
    requires
        function_names_ok(f),
        ssa_fits(lower_function(f)),
        lower_function(f).blocks.len() <= usize::MAX,
        0 <= k < function_scopes(f).len(),
    ensures
        !(function_scopes(f)[k].dependencies.contains(d) && function_scopes(f)[k].declarations.contains(
            d,
        )),
{
    lemma_single_definitions(f);
    lemma_scopes_apart(ssa_graph(f), live_ranges(ssa_graph(f)), k, d);
}

/// The error for a function that does not fit the machine.
fn too_large() -> (e: CompilerError)
    ensures
        is_too_large(e),
{
    CompilerError::LoweringError { message: String::from_str("function too large") }
}

/// Lowers a function and brings it into SSA form, as [`ssa_graph`] says.
/// The result is `None` exactly when the temporaries, instruction ids or
/// versions do not fit the machine.  Where the function assigns no variable
/// that is named like a temporary, every identifier with a version of at
/// least 1 has at most one defining instruction in the result, and no two
/// instructions of its schedule define the same identifier.
pub fn ssa_form(func: &Function) -> (r: Option<HIRFunction>)
    ensures
        r is Some <==> function_cost(*func) <= usize::MAX && ssa_fits(lower_function(*func)),
        r matches Some(h) ==> h.deep_view() == ssa_graph(*func),
        r matches Some(h) ==> (function_names_ok(*func) ==> single_versions(h.deep_view().blocks)),
        r matches Some(h) ==> (function_names_ok(*func) ==> versions_defined_once(
            schedule_of(h.deep_view()),
        )),
        r matches Some(h) ==> (function_names_ok(*func) ==> single_definitions(
            schedule_of(h.deep_view()),
        )),
{
    if !function_fits(func) {
        return None;
    }
    let hir = LoweringContext::new().build(func);
    proof {
        if function_names_ok(*func) {
            lemma_lowered_unassigned(*func);
        }
    }
    let count: usize = hir.blocks.len();
    assert(hir.deep_view().blocks.len() == count);
    let r = enter_ssa(hir);
    proof {
        if function_names_ok(*func) && r is Some {
            lemma_schedule_versions(r->0.deep_view());
            lemma_single_definitions(*func);
        }
    }
    r
}

/// Compiles one function, as [`compiled`] says.  It fails, with the lowering
/// error `function too large`, exactly on the functions that do not fit the
/// machine.
pub fn compile_function(func: &Function) -> (r: Result<String, CompilerError>)
    ensures
        r is Ok <==> compiles(*func),
        r matches Ok(code) ==> code@ == compiled(*func),
        r matches Err(e) ==> is_too_large(e),
{
    let ssa_hir = match ssa_form(func) {
        Some(h) => h,
        None => {
            return Err(too_large());
        },
    };
    let liveness = infer_liveness(&ssa_hir);
    let scope_result = construct_reactive_scopes(&ssa_hir, &liveness);
    if cache_size_of(&scope_result.scopes).is_none() {
        return Err(too_large());
    }
    let reactive_func = build_reactive_function(&ssa_hir, &scope_result);
    Ok(generate_code(&reactive_func, &scope_result))
}

/// The diagnostics from position `i` on, one per line, after `acc`.
pub open spec fn error_lines(errors: Seq<Seq<char>>, i: nat, acc: Seq<char>) -> Seq<char>
    decreases errors.len() - i,
{
    if i >= errors.len() {
        acc
    } else {
        error_lines(errors, i + 1, (acc + errors[i as int]).push('\n'))
    }
}

/// The text of the functions from position `i` on, each followed by a line
/// break, after `acc`.
pub open spec fn compile_all(functions: Seq<Function>, i: nat, acc: Seq<char>) -> Seq<char>
    decreases functions.len() - i,
{
    if i >= functions.len() {
        acc
    } else {
        compile_all(functions, i + 1, (acc + compiled(functions[i as int])).push('\n'))
    }
}

/// What compiling a parsed source text gives: for diagnostics, the heading
/// `Parse Errors:` and the diagnostics; for a program, its functions
/// compiled in order.
pub open spec fn compile_text(parsed: Parsed) -> Seq<char> {
    match parsed {
        Parsed::Errors(errors) => error_lines(texts(errors@), 0, "Parse Errors:\n"@),
        Parsed::Program(program) => compile_all(program.functions@, 0, Seq::empty()),
    }
}

/// Whether every function of a list can be compiled.
pub open spec fn all_compile(functions: Seq<Function>) -> bool {
    forall|i: int| 0 <= i < functions.len() ==> #[trigger] compiles(functions[i])
}

/// Whether every function of a parsed source text can be compiled.
pub open spec fn compiles_all(parsed: Parsed) -> bool {
    match parsed {
        Parsed::Errors(_) => true,
        Parsed::Program(program) => all_compile(program.functions@),
    }
}

/// Compiles a parsed source text, as [`compile_text`] says.  Diagnostics
/// are returned as text, not as an error; the only error is a function
/// that does not fit the machine.
pub fn compile(parsed: &Parsed) -> (r: Result<String, CompilerError>)
    ensures
        r is Ok <==> compiles_all(*parsed),
        r matches Ok(code) ==> code@ == compile_text(*parsed),
        r matches Err(e) ==> is_too_large(e),
{
    match parsed {
        Parsed::Errors(errors) => {
            let mut output = String::from_str("Parse Errors:\n");
            let mut i: usize = 0;
            while i < errors.len()
                invariant
                    i <= errors.len(),
                    error_lines(texts(errors@), i as nat, output@) == error_lines(
                        texts(errors@),
                        0,
                        "Parse Errors:\n"@,
                    ),
                decreases errors.len() - i,
            {
                output.append(errors[i].as_str());
                output.push('\n');
                i += 1;
            }
            Ok(output)
        },
        Parsed::Program(program) => {
            let mut output = String::new();
            let mut i: usize = 0;
            while i < program.functions.len()
                invariant
                    i <= program.functions.len(),
                    *parsed == Parsed::Program(*program),
                    forall|k: int| 0 <= k < i ==> #[trigger] compiles(program.functions@[k]),
                    compile_all(program.functions@, i as nat, output@) == compile_all(
                        program.functions@,
                        0,
                        Seq::empty(),
                    ),
                decreases program.functions.len() - i,
            {
                match compile_function(&program.functions[i]) {
                    Ok(code) => {
                        output.append(code.as_str());
                        output.push('\n');
                    },
                    Err(e) => {
                        assert(!compiles(program.functions@[i as int]));
                        return Err(e);
                    },
                }
                i += 1;
            }
            Ok(output)
        },
    }
}

/// Compiling is a function of the parsed source text: two results for the
/// same text are the same, character by character.
pub proof fn lemma_compile_deterministic(parsed: Parsed, first: Seq<char>, second: Seq<char>)
    requires
        first == compile_text(parsed),
        second == compile_text(parsed),
    ensures
        first == second,
{
}

} // verus!
