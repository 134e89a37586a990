//! Printing of the statement tree as source text, with the cache pattern
//! around every scope.

use crate::hir::budget::fits;
use crate::hir::reactive_function::{
    nullish_marker, stmts_view, CaseV, ConstantValue, RFuncV, RInstrV, RValueV, ReactiveArgument,
    ReactiveArrayElement, ReactiveFunction, ReactiveInstruction, ReactiveObjectKey,
    ReactiveObjectProperty, ReactiveStatement, ReactiveSwitchCase, ReactiveValue, StmtV,
};
use crate::hir::reactive_scopes::ReactiveScopeResult;
use crate::hir::scope::{ReactiveScope, ScopeV};
use crate::hir::{ArgV, ConstV, ElemV, IdentV, Identifier, KeyV, PropV};
use crate::text::{
    contains_text, decimal, escape_from, is_reserved_word, is_temp_name, join_from,
    push_decimal, push_escaped, push_joined, push_signed_decimal, reserved_word, signed_decimal,
    sort_texts, sorted_strings, temp_name, texts,
};
use vstd::prelude::*;
use vstd::string::*;

verus! {

broadcast use vstd::std_specs::vec::group_vec_axioms;

/// The names that decide how an identifier is printed: the parameters and
/// the names of the variables defined in the function.
pub ghost struct NamesV {
    pub params: Seq<Seq<char>>,
    pub base_names: Seq<Seq<char>>,
}

/// A temporary or reserved word prints as its name, anything else as
/// `name_version`.
pub open spec fn canonical_name(id: IdentV) -> Seq<char> {
    if is_temp_name(id.name) || is_reserved_word(id.name) {
        id.name
    } else {
        (id.name + "_"@) + decimal(id.id)
    }
}

/// How an identifier is printed: a parameter by its name; version 0 as
/// `undefined` where the function defines a variable of that name and by
/// its name otherwise; anything else canonically.
pub open spec fn ident_text(n: NamesV, id: IdentV) -> Seq<char> {
    if n.params.contains(id.name) {
        id.name
    } else if id.id == 0 {
        if n.base_names.contains(id.name) {
            "undefined"@
        } else {
            id.name
        }
    } else {
        canonical_name(id)
    }
}

pub open spec fn const_text(c: ConstV) -> Seq<char> {
    match c {
        ConstV::Int(n) => signed_decimal(n),
        ConstV::Float(s) => s,
        ConstV::String(s) => escape_from(s, 0, "\""@) + "\""@,
        ConstV::Boolean(b) => if b {
            "true"@
        } else {
            "false"@
        },
        ConstV::Null => "null"@,
        ConstV::Undefined => "undefined"@,
    }
}

pub open spec fn arg_text(n: NamesV, a: ArgV) -> Seq<char> {
    match a {
        ArgV::Regular(p) => ident_text(n, p),
        ArgV::Spread(p) => "..."@ + ident_text(n, p),
    }
}

pub open spec fn prop_text(n: NamesV, p: PropV) -> Seq<char> {
    match p {
        PropV::KeyValue { key, value } => (match key {
            KeyV::Identifier(s) => s,
            KeyV::Computed(k) => ("["@ + ident_text(n, k)) + "]"@,
        } + ": "@) + ident_text(n, value),
        PropV::Spread(v) => "..."@ + ident_text(n, v),
    }
}

pub open spec fn elem_text(n: NamesV, e: ElemV) -> Seq<char> {
    match e {
        ElemV::Regular(p) => ident_text(n, p),
        ElemV::Spread(p) => "..."@ + ident_text(n, p),
        ElemV::Hole => Seq::empty(),
    }
}

/// The text of an operation.
pub open spec fn value_text(n: NamesV, v: RValueV) -> Seq<char> {
    match v {
        RValueV::Constant(c) => const_text(c),
        RValueV::BinaryOp { op, left, right } => (((ident_text(n, left) + " "@) + op) + " "@)
            + ident_text(n, right),
        RValueV::UnaryOp { op, operand } => if op == nullish_marker() {
            ("("@ + ident_text(n, operand)) + " == null)"@
        } else {
            op + ident_text(n, operand)
        },
        RValueV::Call { callee, args } => join_from(
            Seq::new(args.len(), |i: int| arg_text(n, args[i])),
            ", "@,
            0,
            ident_text(n, callee) + "("@,
        ) + ")"@,
        RValueV::Object { properties } => join_from(
            Seq::new(properties.len(), |i: int| prop_text(n, properties[i])),
            ", "@,
            0,
            "{ "@,
        ) + " }"@,
        RValueV::Array { elements } => join_from(
            Seq::new(elements.len(), |i: int| elem_text(n, elements[i])),
            ", "@,
            0,
            "["@,
        ) + "]"@,
        RValueV::PropertyLoad { object, property } => (ident_text(n, object) + "."@) + property,
        RValueV::PropertyStore { object, property, value } => (((ident_text(n, object) + "."@)
            + property) + " = "@) + ident_text(n, value),
        RValueV::ComputedLoad { object, property } => ((ident_text(n, object) + "["@) + ident_text(
            n,
            property,
        )) + "]"@,
        RValueV::ComputedStore { object, property, value } => (((ident_text(n, object) + "["@)
            + ident_text(n, property)) + "] = "@) + ident_text(n, value),
        RValueV::LoadLocal(id) => ident_text(n, id),
        RValueV::Phi { operands } => if operands.len() > 0 {
            ident_text(n, operands[0])
        } else {
            "undefined"@
        },
    }
}

/// Two spaces per level.
pub open spec fn indent_text(level: nat) -> Seq<char>
    decreases level,
{
    if level == 0 {
        Seq::empty()
    } else {
        indent_text((level - 1) as nat) + "  "@
    }
}

/// The text printed so far.
pub ghost struct EmitV {
    pub out: Seq<char>,
}

/// One line at the given level.
pub open spec fn line(e: EmitV, level: nat, text: Seq<char>) -> EmitV {
    EmitV { out: ((e.out + indent_text(level)) + text).push('\n') }
}

/// How the identifier that an instruction assigns is printed: a parameter
/// by its name, anything else canonically.
pub open spec fn target_text(n: NamesV, id: IdentV) -> Seq<char> {
    if n.params.contains(id.name) {
        id.name
    } else {
        canonical_name(id)
    }
}

/// Whether an identifier is bound with `const` where it gets its value: a
/// temporary or a reserved word that does not print as a parameter.  Any
/// other is a parameter or a variable that the function declares at its
/// top, and is assigned plainly.
pub open spec fn binds_constant(n: NamesV, id: IdentV) -> bool {
    !n.params.contains(target_text(n, id)) && (is_temp_name(id.name) || is_reserved_word(id.name))
}

/// An instruction: nothing for a copy of a value onto itself; `const` for
/// a temporary or reserved name that does not print as a parameter; else a
/// plain assignment, to a parameter or to a variable that the function
/// declares at its top.
pub open spec fn emit_instr(n: NamesV, e: EmitV, level: nat, i: RInstrV) -> EmitV {
    let l = target_text(n, i.lvalue);
    let r = value_text(n, i.value);
    if i.value matches RValueV::LoadLocal(src) && ident_text(n, src) == l {
        e
    } else if binds_constant(n, i.lvalue) {
        line(e, level, ((("const "@ + l) + " = "@) + r) + ";"@)
    } else {
        line(e, level, ((l + " = "@) + r) + ";"@)
    }
}

/// The comparison of cache slot `i` with dependency `d`.
pub open spec fn guard_text(n: NamesV, i: nat, d: IdentV) -> Seq<char> {
    (("$["@ + decimal(i)) + "] !== "@) + ident_text(n, d)
}

/// The guard of a scope: any dependency differs from its slot; without
/// dependencies, slot 0 still holds the sentinel.
pub open spec fn scope_guard(n: NamesV, deps: Seq<IdentV>) -> Seq<char> {
    if deps.len() == 0 {
        "if ($[0] === Symbol.for(\"react.memo_cache_sentinel\")) {"@
    } else {
        join_from(Seq::new(deps.len(), |i: int| guard_text(n, i as nat, deps[i])), " || "@, 0, "if ("@)
            + ") {"@
    }
}

/// How an identifier prints in a line that stores it into the cache: one
/// that the scope defines as where it is defined, one that the scope reads
/// as where it is read.
pub open spec fn slot_ident(n: NamesV, id: IdentV, defined: bool) -> Seq<char> {
    if defined {
        target_text(n, id)
    } else {
        ident_text(n, id)
    }
}

/// The line that stores an identifier into a slot of the cache.
pub open spec fn store_text(n: NamesV, slot: nat, id: IdentV, defined: bool) -> Seq<char> {
    ((("$["@ + decimal(slot)) + "] = "@) + slot_ident(n, id, defined)) + ";"@
}

/// The line that reads a declaration back from a slot of the cache: with
/// `const` for a temporary or reserved name, else a plain assignment to
/// the variable, which the function declares at its top.
pub open spec fn load_text(n: NamesV, slot: nat, id: IdentV) -> Seq<char> {
    if binds_constant(n, id) {
        ((("const "@ + target_text(n, id)) + " = $["@) + decimal(slot)) + "];"@
    } else {
        ((target_text(n, id) + " = $["@) + decimal(slot)) + "];"@
    }
}

/// The lines that store the identifiers from `i` on into the slots from
/// `base + i` on.
pub open spec fn emit_stores(
    n: NamesV,
    e: EmitV,
    level: nat,
    ids: Seq<IdentV>,
    base: nat,
    i: nat,
    defined: bool,
) -> EmitV
    decreases ids.len() - i,
{
    if i >= ids.len() {
        e
    } else {
        emit_stores(
            n,
            line(e, level, store_text(n, base + i, ids[i as int], defined)),
            level,
            ids,
            base,
            i + 1,
            defined,
        )
    }
}

/// The lines that read the declarations from `i` on back from the slots
/// from `base + i` on.
pub open spec fn emit_loads(n: NamesV, e: EmitV, level: nat, ids: Seq<IdentV>, base: nat, i: nat) -> EmitV
    decreases ids.len() - i,
{
    if i >= ids.len() {
        e
    } else {
        emit_loads(n, line(e, level, load_text(n, base + i, ids[i as int])), level, ids, base, i + 1)
    }
}

pub open spec fn emit_stmts(n: NamesV, e: EmitV, level: nat, v: Seq<StmtV>, i: nat) -> EmitV
    decreases v, v.len() - i,
{
    if i >= v.len() {
        e
    } else {
        emit_stmts(n, emit_stmt(n, e, level, v[i as int]), level, v, i + 1)
    }
}

pub open spec fn emit_cases(n: NamesV, e: EmitV, level: nat, v: Seq<CaseV>, i: nat) -> EmitV
    decreases v, v.len() - i,
{
    if i >= v.len() {
        e
    } else {
        let head = match v[i as int].label {
            Some(l) => ("case "@ + ident_text(n, l)) + ": {"@,
            None => "default: {"@,
        };
        let e1 = emit_stmts(n, line(e, level, head), level + 1, v[i as int].body, 0);
        emit_cases(n, line(e1, level, "}"@), level, v, i + 1)
    }
}

/// A statement.  A scope prints as its guard around the body and the
/// stores of dependencies, then declarations, into the cache, followed by
/// the lines that read the declarations back from the cache; dependencies
/// take the slots from 0 and declarations the slots after them.  A scope with
/// neither dependencies nor body prints nothing.
pub open spec fn emit_stmt(n: NamesV, e: EmitV, level: nat, s: StmtV) -> EmitV
    decreases s, 0nat,
{
    match s {
        StmtV::Instruction(i) => emit_instr(n, e, level, i),
        StmtV::Scope { dependencies, declarations, body, .. } => if dependencies.len() == 0
            && body.len() == 0 {
            e
        } else {
            let e1 = line(e, level, scope_guard(n, dependencies));
            let e2 = emit_stmts(n, e1, level + 1, body, 0);
            let e3 = emit_stores(n, e2, level + 1, dependencies, 0, 0, false);
            let e4 = emit_stores(n, e3, level + 1, declarations, dependencies.len(), 0, true);
            emit_loads(n, line(e4, level, "}"@), level, declarations, dependencies.len(), 0)
        },
        StmtV::If { test, consequent, alternate } => {
            let e1 = line(e, level, ("if ("@ + ident_text(n, test)) + ") {"@);
            let e2 = emit_stmts(n, e1, level + 1, consequent, 0);
            let e3 = if alternate.len() > 0 {
                emit_stmts(n, line(e2, level, "} else {"@), level + 1, alternate, 0)
            } else {
                e2
            };
            line(e3, level, "}"@)
        },
        StmtV::While { test, body } => {
            let e1 = line(e, level, ("while ("@ + ident_text(n, test)) + ") {"@);
            line(emit_stmts(n, e1, level + 1, body, 0), level, "}"@)
        },
        StmtV::Break => line(e, level, "break;"@),
        StmtV::Continue => line(e, level, "continue;"@),
        StmtV::Return(value) => match value {
            Some(id) => line(e, level, ("return "@ + ident_text(n, id)) + ";"@),
            None => line(e, level, "return;"@),
        },
        StmtV::Switch { test, cases } => {
            let e1 = line(e, level, ("switch ("@ + ident_text(n, test)) + ") {"@);
            line(emit_cases(n, e1, level + 1, cases, 0), level, "}"@)
        },
    }
}

/// The variables to hoist and the names they are versions of.
pub ghost struct CollectV {
    pub vars: Seq<Seq<char>>,
    pub base: Seq<Seq<char>>,
}

pub open spec fn collect_stmts(params: Seq<Seq<char>>, v: Seq<StmtV>, i: nat, c: CollectV) -> CollectV
    decreases v, v.len() - i,
{
    if i >= v.len() {
        c
    } else {
        collect_stmts(params, v, i + 1, collect_stmt(params, v[i as int], c))
    }
}

pub open spec fn collect_cases(params: Seq<Seq<char>>, v: Seq<CaseV>, i: nat, c: CollectV) -> CollectV
    decreases v, v.len() - i,
{
    if i >= v.len() {
        c
    } else {
        collect_cases(params, v, i + 1, collect_stmts(params, v[i as int].body, 0, c))
    }
}

/// Whether the identifier that an instruction assigns is a variable to
/// hoist: no temporary, no reserved word, and no parameter.
pub open spec fn is_hoisted(params: Seq<Seq<char>>, id: IdentV) -> bool {
    !is_temp_name(id.name) && !is_reserved_word(id.name) && !params.contains(id.name)
}

/// What one assigned identifier adds: where it is a variable to hoist, its
/// canonical name, once; and its name, once, where its version is not 0.
pub open spec fn collect_ident(params: Seq<Seq<char>>, id: IdentV, c: CollectV) -> CollectV {
    if is_hoisted(params, id) {
        CollectV {
            vars: if c.vars.contains(canonical_name(id)) {
                c.vars
            } else {
                c.vars.push(canonical_name(id))
            },
            base: if id.id == 0 || c.base.contains(id.name) {
                c.base
            } else {
                c.base.push(id.name)
            },
        }
    } else {
        c
    }
}

/// Collects the variables that a statement assigns, as [`collect_ident`]
/// says of each.
pub open spec fn collect_stmt(params: Seq<Seq<char>>, s: StmtV, c: CollectV) -> CollectV
    decreases s, 0nat,
{
    match s {
        StmtV::Instruction(i) => collect_ident(params, i.lvalue, c),
        StmtV::If { consequent, alternate, .. } => collect_stmts(
            params,
            alternate,
            0,
            collect_stmts(params, consequent, 0, c),
        ),
        StmtV::While { body, .. } => collect_stmts(params, body, 0, c),
        StmtV::Scope { body, .. } => collect_stmts(params, body, 0, c),
        StmtV::Switch { cases, .. } => collect_cases(params, cases, 0, c),
        _ => c,
    }
}

/// The texts of `v` from position `i` on that are not among `drop`, after
/// `acc`.
pub open spec fn without(v: Seq<Seq<char>>, drop: Seq<Seq<char>>, i: nat, acc: Seq<Seq<char>>) -> Seq<
    Seq<char>,
>
    decreases v.len() - i,
{
    if i >= v.len() {
        acc
    } else {
        without(
            v,
            drop,
            i + 1,
            if drop.contains(v[i as int]) {
                acc
            } else {
                acc.push(v[i as int])
            },
        )
    }
}

/// The number of cache slots that the scopes from `i` on take.
pub open spec fn cache_slots(scopes: Seq<ScopeV>, i: nat) -> nat
    decreases scopes.len() - i,
{
    if i >= scopes.len() {
        0
    } else {
        scopes[i as int].dependencies.len() + scopes[i as int].declarations.len() + cache_slots(
            scopes,
            i + 1,
        )
    }
}

/// The size of the cache: one slot per dependency and declaration of every
/// scope, and at least one.
pub open spec fn cache_size(scopes: Seq<ScopeV>) -> nat {
    if cache_slots(scopes, 0) == 0 {
        1
    } else {
        cache_slots(scopes, 0)
    }
}

/// The statement that makes the cache of a function: a call of `_c` with
/// the size of the cache.
pub open spec fn cache_line(scopes: Seq<ScopeV>) -> Seq<char> {
    ("const $ = _c("@ + decimal(cache_size(scopes))) + ");"@
}

/// The size of the cache is the number of dependencies and declarations of
/// all scopes, and 1 where that number is 0.
pub proof fn lemma_cache_size(scopes: Seq<ScopeV>)
    ensures
        cache_size(scopes) >= 1,
        cache_slots(scopes, 0) >= 1 ==> cache_size(scopes) == cache_slots(scopes, 0),
        cache_slots(scopes, 0) == 0 ==> cache_size(scopes) == 1,
        scopes.len() == 0 ==> cache_slots(scopes, 0) == 0,
{
}

/// The names of the parameters.
pub open spec fn param_names(params: Seq<IdentV>) -> Seq<Seq<char>> {
    Seq::new(params.len(), |i: int| params[i].name)
}

/// The text of a function: the header with the parameters by name; the
/// cache of [`cache_size`] slots where there is any scope; one `let` with
/// the hoisted variables in ascending order where there is any; the body;
/// the closing brace.  A variable whose canonical name is the name of a
/// parameter is not hoisted either: it is assigned as that parameter.
pub open spec fn emit_function(f: RFuncV, scopes: Seq<ScopeV>) -> Seq<char> {
    let params = param_names(f.params);
    let start = EmitV { out: header_text(f).push('\n') };
    let e1 = if scopes.len() > 0 {
        line(start, 1, cache_line(scopes))
    } else {
        start
    };
    let c = collect_stmts(params, f.body, 0, CollectV { vars: Seq::empty(), base: Seq::empty() });
    let declared = without(c.vars, params, 0, Seq::empty());
    let e2 = if declared.len() > 0 {
        line(e1, 1, join_from(sort_texts(declared, 0, Seq::empty()), ", "@, 0, "let "@) + ";"@)
    } else {
        e1
    };
    let e3 = emit_stmts(NamesV { params, base_names: c.base }, e2, 1, f.body, 0);
    (e3.out + "}"@).push('\n')
}

/// The header of a function: `function`, the name, the parameters by name.
pub open spec fn header_text(f: RFuncV) -> Seq<char> {
    join_from(
        param_names(f.params),
        ", "@,
        0,
        ("function "@ + match f.name {
            Some(name) => name,
            None => "anonymous"@,
        }) + "("@,
    ) + ") {"@
}

/// Dropping leaves nothing that was to be dropped, and only what was
/// there or kept before.
pub proof fn lemma_without(v: Seq<Seq<char>>, drop: Seq<Seq<char>>, i: nat, acc: Seq<Seq<char>>, x: Seq<char>)
    requires
        i <= v.len(),
        without(v, drop, i, acc).contains(x),
    ensures
        acc.contains(x) || (!drop.contains(x) && v.contains(x)),
    decreases v.len() - i,
{
    if i < v.len() {
        let next = if drop.contains(v[i as int]) {
            acc
        } else {
            acc.push(v[i as int])
        };
        lemma_without(v, drop, i + 1, next, x);
        if next.contains(x) && !acc.contains(x) {
            let k = choose|k: int| 0 <= k < next.len() && next[k] == x;
            if k < acc.len() {
                assert(acc[k] == x);
            }
            assert(x == v[i as int]);
        }
    }
}

/// No parameter is among the variables that a function hoists.
pub proof fn lemma_parameters_are_not_hoisted(f: RFuncV, x: Seq<char>)
    requires
        param_names(f.params).contains(x),
    ensures
        !without(
            collect_stmts(
                param_names(f.params),
                f.body,
                0,
                CollectV { vars: Seq::empty(), base: Seq::empty() },
            ).vars,
            param_names(f.params),
            0,
            Seq::empty(),
        ).contains(x),
{
    let params = param_names(f.params);
    let c = collect_stmts(params, f.body, 0, CollectV { vars: Seq::empty(), base: Seq::empty() });
    if without(c.vars, params, 0, Seq::empty()).contains(x) {
        lemma_without(c.vars, params, 0, Seq::empty(), x);
    }
}

/// An instruction whose target prints as a parameter prints nothing, where
/// it copies the parameter onto itself, or one line that assigns to the
/// parameter by its name.
pub proof fn lemma_parameter_is_assigned(n: NamesV, e: EmitV, level: nat, i: RInstrV)
    requires
        n.params.contains(target_text(n, i.lvalue)),
    ensures
        emit_instr(n, e, level, i) == e || emit_instr(n, e, level, i) == line(
            e,
            level,
            ((target_text(n, i.lvalue) + " = "@) + value_text(n, i.value)) + ";"@,
        ),
{
}

/// A line only appends.
pub proof fn lemma_line_extends(e: EmitV, level: nat, text: Seq<char>)
    ensures
        e.out.is_prefix_of(line(e, level, text).out),
{
    let r = line(e, level, text).out;
    assert(r.subrange(0, e.out.len() as int) =~= e.out);
}

/// Being a prefix carries over.
pub proof fn lemma_prefix_trans(a: Seq<char>, b: Seq<char>, c: Seq<char>)
    requires
        a.is_prefix_of(b),
        b.is_prefix_of(c),
    ensures
        a.is_prefix_of(c),
{
    assert(c.subrange(0, a.len() as int) =~= b.subrange(0, a.len() as int));
}

/// Stores only append.
pub proof fn lemma_stores_extend(
    n: NamesV,
    e: EmitV,
    level: nat,
    ids: Seq<IdentV>,
    base: nat,
    i: nat,
    defined: bool,
)
    ensures
        e.out.is_prefix_of(emit_stores(n, e, level, ids, base, i, defined).out),
    decreases ids.len() - i,
{
    if i < ids.len() {
        let text = store_text(n, base + i, ids[i as int], defined);
        lemma_line_extends(e, level, text);
        lemma_stores_extend(n, line(e, level, text), level, ids, base, i + 1, defined);
        lemma_prefix_trans(
            e.out,
            line(e, level, text).out,
            emit_stores(n, e, level, ids, base, i, defined).out,
        );
    } else {
        assert(e.out.subrange(0, e.out.len() as int) =~= e.out);
    }
}

/// Loads only append.
pub proof fn lemma_loads_extend(n: NamesV, e: EmitV, level: nat, ids: Seq<IdentV>, base: nat, i: nat)
    ensures
        e.out.is_prefix_of(emit_loads(n, e, level, ids, base, i).out),
    decreases ids.len() - i,
{
    if i < ids.len() {
        let text = load_text(n, base + i, ids[i as int]);
        lemma_line_extends(e, level, text);
        lemma_loads_extend(n, line(e, level, text), level, ids, base, i + 1);
        lemma_prefix_trans(
            e.out,
            line(e, level, text).out,
            emit_loads(n, e, level, ids, base, i).out,
        );
    } else {
        assert(e.out.subrange(0, e.out.len() as int) =~= e.out);
    }
}

/// An instruction only appends.
pub proof fn lemma_instr_extends(n: NamesV, e: EmitV, level: nat, i: RInstrV)
    ensures
        e.out.is_prefix_of(emit_instr(n, e, level, i).out),
{
    let l = target_text(n, i.lvalue);
    let r = value_text(n, i.value);
    assert(e.out.subrange(0, e.out.len() as int) =~= e.out);
    lemma_line_extends(e, level, ((("const "@ + l) + " = "@) + r) + ";"@);
    lemma_line_extends(e, level, ((l + " = "@) + r) + ";"@);
}

/// Statements only append.
pub proof fn lemma_stmts_extend(n: NamesV, e: EmitV, level: nat, v: Seq<StmtV>, i: nat)
    ensures
        e.out.is_prefix_of(emit_stmts(n, e, level, v, i).out),
    decreases v, v.len() - i,
{
    if i < v.len() {
        lemma_stmt_extends(n, e, level, v[i as int]);
        lemma_stmts_extend(n, emit_stmt(n, e, level, v[i as int]), level, v, i + 1);
        lemma_prefix_trans(
            e.out,
            emit_stmt(n, e, level, v[i as int]).out,
            emit_stmts(n, e, level, v, i).out,
        );
    } else {
        assert(e.out.subrange(0, e.out.len() as int) =~= e.out);
    }
}

/// Cases only append.
pub proof fn lemma_cases_extend(n: NamesV, e: EmitV, level: nat, v: Seq<CaseV>, i: nat)
    ensures
        e.out.is_prefix_of(emit_cases(n, e, level, v, i).out),
    decreases v, v.len() - i,
{
    if i < v.len() {
        let head = match v[i as int].label {
            Some(l) => ("case "@ + ident_text(n, l)) + ": {"@,
            None => "default: {"@,
        };
        let e0 = line(e, level, head);
        let e1 = emit_stmts(n, e0, level + 1, v[i as int].body, 0);
        let e2 = line(e1, level, "}"@);
        lemma_line_extends(e, level, head);
        lemma_stmts_extend(n, e0, level + 1, v[i as int].body, 0);
        lemma_line_extends(e1, level, "}"@);
        lemma_cases_extend(n, e2, level, v, i + 1);
        lemma_prefix_trans(e.out, e0.out, e1.out);
        lemma_prefix_trans(e.out, e1.out, e2.out);
        lemma_prefix_trans(e.out, e2.out, emit_cases(n, e, level, v, i).out);
    } else {
        assert(e.out.subrange(0, e.out.len() as int) =~= e.out);
    }
}

/// A statement only appends.
pub proof fn lemma_stmt_extends(n: NamesV, e: EmitV, level: nat, s: StmtV)
    ensures
        e.out.is_prefix_of(emit_stmt(n, e, level, s).out),
    decreases s, 0nat,
{
    assert(e.out.subrange(0, e.out.len() as int) =~= e.out);
    match s {
        StmtV::Instruction(i) => {
            lemma_instr_extends(n, e, level, i);
        },
        StmtV::Scope { dependencies, declarations, body, .. } => {
            if !(dependencies.len() == 0 && body.len() == 0) {
                let e1 = line(e, level, scope_guard(n, dependencies));
                let e2 = emit_stmts(n, e1, level + 1, body, 0);
                let e3 = emit_stores(n, e2, level + 1, dependencies, 0, 0, false);
                let e4 = emit_stores(n, e3, level + 1, declarations, dependencies.len(), 0, true);
                let e5 = line(e4, level, "}"@);
                lemma_line_extends(e, level, scope_guard(n, dependencies));
                lemma_stmts_extend(n, e1, level + 1, body, 0);
                lemma_stores_extend(n, e2, level + 1, dependencies, 0, 0, false);
                lemma_stores_extend(n, e3, level + 1, declarations, dependencies.len(), 0, true);
                lemma_line_extends(e4, level, "}"@);
                lemma_loads_extend(n, e5, level, declarations, dependencies.len(), 0);
                lemma_prefix_trans(e.out, e1.out, e2.out);
                lemma_prefix_trans(e.out, e2.out, e3.out);
                lemma_prefix_trans(e.out, e3.out, e4.out);
                lemma_prefix_trans(e.out, e4.out, e5.out);
                lemma_prefix_trans(e.out, e5.out, emit_stmt(n, e, level, s).out);
            }
        },
        StmtV::If { test, consequent, alternate } => {
            let e1 = line(e, level, ("if ("@ + ident_text(n, test)) + ") {"@);
            let e2 = emit_stmts(n, e1, level + 1, consequent, 0);
            lemma_line_extends(e, level, ("if ("@ + ident_text(n, test)) + ") {"@);
            lemma_stmts_extend(n, e1, level + 1, consequent, 0);
            lemma_prefix_trans(e.out, e1.out, e2.out);
            let e3 = if alternate.len() > 0 {
                let e2b = line(e2, level, "} else {"@);
                lemma_line_extends(e2, level, "} else {"@);
                lemma_stmts_extend(n, e2b, level + 1, alternate, 0);
                lemma_prefix_trans(e.out, e2.out, e2b.out);
                lemma_prefix_trans(
                    e.out,
                    e2b.out,
                    emit_stmts(n, e2b, level + 1, alternate, 0).out,
                );
                emit_stmts(n, e2b, level + 1, alternate, 0)
            } else {
                e2
            };
            lemma_line_extends(e3, level, "}"@);
            lemma_prefix_trans(e.out, e3.out, line(e3, level, "}"@).out);
        },
        StmtV::While { test, body } => {
            let e1 = line(e, level, ("while ("@ + ident_text(n, test)) + ") {"@);
            let e2 = emit_stmts(n, e1, level + 1, body, 0);
            lemma_line_extends(e, level, ("while ("@ + ident_text(n, test)) + ") {"@);
            lemma_stmts_extend(n, e1, level + 1, body, 0);
            lemma_line_extends(e2, level, "}"@);
            lemma_prefix_trans(e.out, e1.out, e2.out);
            lemma_prefix_trans(e.out, e2.out, line(e2, level, "}"@).out);
        },
        StmtV::Break => {
            lemma_line_extends(e, level, "break;"@);
        },
        StmtV::Continue => {
            lemma_line_extends(e, level, "continue;"@);
        },
        StmtV::Return(value) => {
            match value {
                Some(id) => {
                    lemma_line_extends(e, level, ("return "@ + ident_text(n, id)) + ";"@);
                },
                None => {
                    lemma_line_extends(e, level, "return;"@);
                },
            }
        },
        StmtV::Switch { test, cases } => {
            let e1 = line(e, level, ("switch ("@ + ident_text(n, test)) + ") {"@);
            let e2 = emit_cases(n, e1, level + 1, cases, 0);
            lemma_line_extends(e, level, ("switch ("@ + ident_text(n, test)) + ") {"@);
            lemma_cases_extend(n, e1, level + 1, cases, 0);
            lemma_line_extends(e2, level, "}"@);
            lemma_prefix_trans(e.out, e1.out, e2.out);
            lemma_prefix_trans(e.out, e2.out, line(e2, level, "}"@).out);
        },
    }
}

/// A function with scopes makes its cache first: its text starts with the
/// header and the line that calls `_c` with the size of the cache.
pub proof fn lemma_cache_is_made(f: RFuncV, scopes: Seq<ScopeV>)
    requires
        scopes.len() > 0,
    ensures
        (((header_text(f).push('\n') + indent_text(1)) + cache_line(scopes)).push(
            '\n',
        )).is_prefix_of(emit_function(f, scopes)),
{
    let params = param_names(f.params);
    let start = EmitV { out: header_text(f).push('\n') };
    let e1 = line(start, 1, cache_line(scopes));
    let c = collect_stmts(params, f.body, 0, CollectV { vars: Seq::empty(), base: Seq::empty() });
    let declared = without(c.vars, params, 0, Seq::empty());
    let hoist = join_from(sort_texts(declared, 0, Seq::empty()), ", "@, 0, "let "@) + ";"@;
    let e2 = if declared.len() > 0 {
        line(e1, 1, hoist)
    } else {
        e1
    };
    let names = NamesV { params, base_names: c.base };
    let e3 = emit_stmts(names, e2, 1, f.body, 0);
    let whole = (e3.out + "}"@).push('\n');
    assert(e1.out.is_prefix_of(e2.out)) by {
        if declared.len() > 0 {
            lemma_line_extends(e1, 1, hoist);
        } else {
            assert(e1.out.subrange(0, e1.out.len() as int) =~= e1.out);
        }
    }
    lemma_stmts_extend(names, e2, 1, f.body, 0);
    assert(e3.out.is_prefix_of(whole)) by {
        assert(whole.subrange(0, e3.out.len() as int) =~= e3.out);
    }
    lemma_prefix_trans(e1.out, e2.out, e3.out);
    lemma_prefix_trans(e1.out, e3.out, whole);
}

/// Counts [`cache_size`], detecting overflow.
pub fn cache_size_of(scopes: &Vec<ReactiveScope>) -> (r: Option<usize>)
    ensures
        r == fits(cache_size(scopes.deep_view())),
{
    let ghost sv = scopes.deep_view();
    let mut total: usize = 0;
    let mut i: usize = scopes.len();
    while i > 0
        invariant
            i <= scopes.len(),
            sv == scopes.deep_view(),
            total == cache_slots(sv, i as nat),
        decreases i,
    {
        i -= 1;
        let d: usize = scopes[i].dependencies.len();
        let k: usize = scopes[i].declarations.len();
        assert(sv[i as int].dependencies.len() == d);
        assert(sv[i as int].declarations.len() == k);
        if d > usize::MAX - k {
            proof {
                lemma_cache_slots_from(sv, 0, i as nat);
            }
            return None;
        }
        if d + k > usize::MAX - total {
            proof {
                lemma_cache_slots_from(sv, 0, i as nat);
            }
            return None;
        }
        total = d + k + total;
    }
    if total == 0 {
        Some(1)
    } else {
        Some(total)
    }
}

/// The slots from an earlier position on are no fewer.
pub proof fn lemma_cache_slots_from(scopes: Seq<ScopeV>, i: nat, j: nat)
    requires
        i <= j <= scopes.len(),
    ensures
        cache_slots(scopes, i) >= cache_slots(scopes, j),
    decreases j - i,
{
    if i < j {
        lemma_cache_slots_from(scopes, i + 1, j);
    }
}

/// Prints one function.
pub struct CodeGenerator<'a> {
    output: String,
    scopes: &'a ReactiveScopeResult,
    cache_size: usize,
    declared_base_names: Vec<String>,
    params: Vec<String>,
}

impl<'a> CodeGenerator<'a> {
    /// The names that decide how identifiers print.
    pub closed spec fn names(&self) -> NamesV {
        NamesV { params: texts(self.params@), base_names: texts(self.declared_base_names@) }
    }

    /// The text printed so far.
    pub closed spec fn state(&self) -> EmitV {
        EmitV { out: self.output@ }
    }

    /// Nothing printed, no names known.
    pub closed spec fn fresh(&self) -> bool {
        &&& self.output@.len() == 0
        &&& self.declared_base_names@.len() == 0
        &&& self.params@.len() == 0
        &&& self.cache_size == cache_size(self.scopes.scopes.deep_view())
    }

    /// The scopes of the function being printed.
    pub closed spec fn scope_list(&self) -> Seq<ScopeV> {
        self.scopes.scopes.deep_view()
    }

    /// The number of slots of the cache that the printed function makes.
    pub closed spec fn slots(&self) -> nat {
        self.cache_size as nat
    }

    /// A printer for a function with the given scopes: its cache has one
    /// slot per dependency and declaration of the scopes, and at least one;
    /// nothing is printed yet, and no names are known.
    pub fn new(scopes: &'a ReactiveScopeResult) -> (r: Self)
        requires
            cache_size(scopes.scopes.deep_view()) <= usize::MAX,
        ensures
            r.fresh(),
            r.scope_list() == scopes.scopes.deep_view(),
            r.slots() == cache_size(scopes.scopes.deep_view()),
            r.state() == (EmitV { out: Seq::empty() }),
            r.names() == (NamesV { params: Seq::empty(), base_names: Seq::empty() }),
    {
        proof {
            assert(texts(Seq::<String>::empty()) =~= Seq::<Seq<char>>::empty());
        }
        let size = match cache_size_of(&scopes.scopes) {
            Some(n) => n,
            None => 1,
        };
        CodeGenerator {
            output: String::new(),
            scopes,
            cache_size: size,
            declared_base_names: Vec::new(),
            params: Vec::new(),
        }
    }

    /// The canonical name of an identifier, as [`canonical_name`] says.
    pub fn get_canonical_name(id: &Identifier) -> (r: String)
        ensures
            r@ == canonical_name(id.deep_view()),
    {
        if temp_name(id.name.as_str()) || reserved_word(id.name.as_str()) {
            id.name.clone()
        } else {
            let mut r = id.name.clone();
            r.append("_");
            push_decimal(&mut r, id.id as u128);
            r
        }
    }

    /// The printed name of an identifier, as [`ident_text`] says.
    fn identifier_name(&self, id: &Identifier) -> (r: String)
        ensures
            r@ == ident_text(self.names(), id.deep_view()),
    {
        if contains_text(&self.params, &id.name) {
            return id.name.clone();
        }
        if id.id == 0 {
            if contains_text(&self.declared_base_names, &id.name) {
                return String::from_str("undefined");
            }
            return id.name.clone();
        }
        Self::get_canonical_name(id)
    }

    /// The printed name of an assigned identifier, as [`target_text`] says.
    fn target_name(&self, id: &Identifier) -> (r: String)
        ensures
            r@ == target_text(self.names(), id.deep_view()),
    {
        if contains_text(&self.params, &id.name) {
            return id.name.clone();
        }
        Self::get_canonical_name(id)
    }

    /// Whether an identifier that prints as `name` where it is assigned is
    /// bound with `const`, as [`binds_constant`] says.
    fn is_constant(&self, id: &Identifier, name: &String) -> (r: bool)
        requires
            name@ == target_text(self.names(), id.deep_view()),
        ensures
            r == binds_constant(self.names(), id.deep_view()),
    {
        !contains_text(&self.params, name) && (temp_name(id.name.as_str()) || reserved_word(
            id.name.as_str(),
        ))
    }

    fn constant_text(c: &ConstantValue) -> (r: String)
        ensures
            r@ == const_text(c.deep_view()),
    {
        match c {
            ConstantValue::Number(n) => {
                let mut r = String::new();
                push_signed_decimal(&mut r, *n);
                assert(r@ =~= signed_decimal(*n as int));
                r
            },
            ConstantValue::Decimal(s) => s.clone(),
            ConstantValue::String(s) => {
                let mut r = String::from_str("\"");
                push_escaped(&mut r, s.as_str());
                r.append("\"");
                r
            },
            ConstantValue::Boolean(b) => if *b {
                String::from_str("true")
            } else {
                String::from_str("false")
            },
            ConstantValue::Null => String::from_str("null"),
            ConstantValue::Undefined => String::from_str("undefined"),
        }
    }

    fn argument_texts(&self, args: &Vec<ReactiveArgument>) -> (r: Vec<String>)
        ensures
            texts(r@) == Seq::new(
                args.deep_view().len(),
                |i: int| arg_text(self.names(), args.deep_view()[i]),
            ),
    {
        let mut r: Vec<String> = Vec::new();
        let mut i: usize = 0;
        while i < args.len()
            invariant
                i <= args.len(),
                r@.len() == i,
                forall|k: int|
                    0 <= k < i ==> (#[trigger] r@[k])@ == arg_text(
                        self.names(),
                        args.deep_view()[k],
                    ),
            decreases args.len() - i,
        {
            let t = match &args[i] {
                ReactiveArgument::Regular(id) => self.identifier_name(id),
                ReactiveArgument::Spread(id) => {
                    let mut t = String::from_str("...");
                    t.append(self.identifier_name(id).as_str());
                    t
                },
            };
            r.push(t);
            i += 1;
        }
        assert(texts(r@) =~= Seq::new(
            args.deep_view().len(),
            |i: int| arg_text(self.names(), args.deep_view()[i]),
        ));
        r
    }

    fn property_texts(&self, props: &Vec<ReactiveObjectProperty>) -> (r: Vec<String>)
        ensures
            texts(r@) == Seq::new(
                props.deep_view().len(),
                |i: int| prop_text(self.names(), props.deep_view()[i]),
            ),
    {
        let mut r: Vec<String> = Vec::new();
        let mut i: usize = 0;
        while i < props.len()
            invariant
                i <= props.len(),
                r@.len() == i,
                forall|k: int|
                    0 <= k < i ==> (#[trigger] r@[k])@ == prop_text(
                        self.names(),
                        props.deep_view()[k],
                    ),
            decreases props.len() - i,
        {
            let t = match &props[i] {
                ReactiveObjectProperty::KeyValue { key, value } => {
                    let mut t = match key {
                        ReactiveObjectKey::Identifier(s) => s.clone(),
                        ReactiveObjectKey::Computed(id) => {
                            let mut k = String::from_str("[");
                            k.append(self.identifier_name(id).as_str());
                            k.append("]");
                            k
                        },
                    };
                    t.append(": ");
                    t.append(self.identifier_name(value).as_str());
                    t
                },
                ReactiveObjectProperty::Spread(id) => {
                    let mut t = String::from_str("...");
                    t.append(self.identifier_name(id).as_str());
                    t
                },
            };
            r.push(t);
            i += 1;
        }
        assert(texts(r@) =~= Seq::new(
            props.deep_view().len(),
            |i: int| prop_text(self.names(), props.deep_view()[i]),
        ));
        r
    }

    fn element_texts(&self, elems: &Vec<ReactiveArrayElement>) -> (r: Vec<String>)
        ensures
            texts(r@) == Seq::new(
                elems.deep_view().len(),
                |i: int| elem_text(self.names(), elems.deep_view()[i]),
            ),
    {
        let mut r: Vec<String> = Vec::new();
        let mut i: usize = 0;
        while i < elems.len()
            invariant
                i <= elems.len(),
                r@.len() == i,
                forall|k: int|
                    0 <= k < i ==> (#[trigger] r@[k])@ == elem_text(
                        self.names(),
                        elems.deep_view()[k],
                    ),
            decreases elems.len() - i,
        {
            let t = match &elems[i] {
                ReactiveArrayElement::Regular(id) => self.identifier_name(id),
                ReactiveArrayElement::Spread(id) => {
                    let mut t = String::from_str("...");
                    t.append(self.identifier_name(id).as_str());
                    t
                },
                ReactiveArrayElement::Hole => String::new(),
            };
            r.push(t);
            i += 1;
        }
        assert(texts(r@) =~= Seq::new(
            elems.deep_view().len(),
            |i: int| elem_text(self.names(), elems.deep_view()[i]),
        ));
        r
    }

    /// The text of an operation, as [`value_text`] says.
    pub fn generate_value(&self, value: &ReactiveValue) -> (r: String)
        ensures
            r@ == value_text(self.names(), value.deep_view()),
    {
        match value {
            ReactiveValue::Constant(c) => Self::constant_text(c),
            ReactiveValue::BinaryOp { op, left, right } => {
                let mut r = self.identifier_name(left);
                r.append(" ");
                r.append(op.as_str());
                r.append(" ");
                r.append(self.identifier_name(right).as_str());
                r
            },
            ReactiveValue::UnaryOp { op, operand } => {
                let marker = String::from_str("__isNullish__");
                if *op == marker {
                    let mut r = String::from_str("(");
                    r.append(self.identifier_name(operand).as_str());
                    r.append(" == null)");
                    r
                } else {
                    let mut r = op.clone();
                    r.append(self.identifier_name(operand).as_str());
                    r
                }
            },
            ReactiveValue::Call { callee, args } => {
                let mut r = self.identifier_name(callee);
                r.append("(");
                let items = self.argument_texts(args);
                push_joined(&mut r, &items, ", ");
                r.append(")");
                r
            },
            ReactiveValue::Object { properties } => {
                let mut r = String::from_str("{ ");
                let items = self.property_texts(properties);
                push_joined(&mut r, &items, ", ");
                r.append(" }");
                r
            },
            ReactiveValue::Array { elements } => {
                let mut r = String::from_str("[");
                let items = self.element_texts(elements);
                push_joined(&mut r, &items, ", ");
                r.append("]");
                r
            },
            ReactiveValue::PropertyLoad { object, property } => {
                let mut r = self.identifier_name(object);
                r.append(".");
                r.append(property.as_str());
                r
            },
            ReactiveValue::PropertyStore { object, property, value } => {
                let mut r = self.identifier_name(object);
                r.append(".");
                r.append(property.as_str());
                r.append(" = ");
                r.append(self.identifier_name(value).as_str());
                r
            },
            ReactiveValue::ComputedLoad { object, property } => {
                let mut r = self.identifier_name(object);
                r.append("[");
                r.append(self.identifier_name(property).as_str());
                r.append("]");
                r
            },
            ReactiveValue::ComputedStore { object, property, value } => {
                let mut r = self.identifier_name(object);
                r.append("[");
                r.append(self.identifier_name(property).as_str());
                r.append("] = ");
                r.append(self.identifier_name(value).as_str());
                r
            },
            ReactiveValue::LoadLocal(id) => self.identifier_name(id),
            ReactiveValue::Phi { operands } => {
                if operands.len() > 0 {
                    self.identifier_name(&operands[0])
                } else {
                    String::from_str("undefined")
                }
            },
        }
    }

    /// Writes the indentation.
    fn write_indent(&mut self, indent: &str)
        ensures
            final(self).output@ == old(self).output@ + indent@,
            final(self).declared_base_names == old(self).declared_base_names,
            final(self).params == old(self).params,
            final(self).scopes == old(self).scopes,
            final(self).cache_size == old(self).cache_size,
    {
        self.output.append(indent);
    }

    /// Writes one line, as [`line`] says.
    fn write_line(&mut self, indent: &str, text: &str, Ghost(level): Ghost<nat>)
        requires
            indent@ == indent_text(level),
        ensures
            final(self).state() == line(old(self).state(), level, text@),
            final(self).names() == old(self).names(),
            final(self).scopes == old(self).scopes,
            final(self).cache_size == old(self).cache_size,
    {
        self.write_indent(indent);
        self.output.append(text);
        self.output.push('\n');
    }

    /// One level deeper.
    fn deeper(indent: &str, Ghost(level): Ghost<nat>) -> (r: String)
        requires
            indent@ == indent_text(level),
        ensures
            r@ == indent_text(level + 1),
    {
        let mut r = String::from_str(indent);
        r.append("  ");
        r
    }

    /// Prints an instruction, as [`emit_instr`] says.
    fn generate_instruction(&mut self, instr: &ReactiveInstruction, indent: &str, Ghost(level): Ghost<
        nat,
    >)
        requires
            indent@ == indent_text(level),
        ensures
            final(self).state() == emit_instr(
                old(self).names(),
                old(self).state(),
                level,
                instr.deep_view(),
            ),
            final(self).names() == old(self).names(),
            final(self).scopes == old(self).scopes,
            final(self).cache_size == old(self).cache_size,
    {
        let lvalue = self.target_name(&instr.lvalue);
        let rvalue = self.generate_value(&instr.value);
        match &instr.value {
            ReactiveValue::LoadLocal(src) => {
                if self.identifier_name(src) == lvalue {
                    return ;
                }
            },
            _ => {},
        }
        if self.is_constant(&instr.lvalue, &lvalue) {
            let mut t = String::from_str("const ");
            t.append(lvalue.as_str());
            t.append(" = ");
            t.append(rvalue.as_str());
            t.append(";");
            self.write_line(indent, t.as_str(), Ghost(level));
        } else {
            let mut t = lvalue.clone();
            t.append(" = ");
            t.append(rvalue.as_str());
            t.append(";");
            self.write_line(indent, t.as_str(), Ghost(level));
        }
    }

    fn guard_texts(&self, deps: &Vec<Identifier>) -> (r: Vec<String>)
        ensures
            texts(r@) == Seq::new(
                deps.deep_view().len(),
                |i: int| guard_text(self.names(), i as nat, deps.deep_view()[i]),
            ),
    {
        let mut r: Vec<String> = Vec::new();
        let mut i: usize = 0;
        while i < deps.len()
            invariant
                i <= deps.len(),
                r@.len() == i,
                forall|k: int|
                    0 <= k < i ==> (#[trigger] r@[k])@ == guard_text(
                        self.names(),
                        k as nat,
                        deps.deep_view()[k],
                    ),
            decreases deps.len() - i,
        {
            let mut t = String::from_str("$[");
            push_decimal(&mut t, i as u128);
            t.append("] !== ");
            t.append(self.identifier_name(&deps[i]).as_str());
            r.push(t);
            i += 1;
        }
        assert(texts(r@) =~= Seq::new(
            deps.deep_view().len(),
            |i: int| guard_text(self.names(), i as nat, deps.deep_view()[i]),
        ));
        r
    }

    /// Writes the stores into the cache, as [`emit_stores`] says.
    fn write_stores(
        &mut self,
        ids: &Vec<Identifier>,
        base: usize,
        defined: bool,
        indent: &str,
        Ghost(level): Ghost<nat>,
    )
        requires
            indent@ == indent_text(level),
        ensures
            final(self).state() == emit_stores(
                old(self).names(),
                old(self).state(),
                level,
                ids.deep_view(),
                base as nat,
                0,
                defined,
            ),
            final(self).names() == old(self).names(),
            final(self).scopes == old(self).scopes,
            final(self).cache_size == old(self).cache_size,
    {
        let ghost n = self.names();
        let mut i: usize = 0;
        while i < ids.len()
            invariant
                i <= ids.len(),
                indent@ == indent_text(level),
                self.names() == n,
                n == old(self).names(),
                self.scopes == old(self).scopes,
                self.cache_size == old(self).cache_size,
                emit_stores(n, self.state(), level, ids.deep_view(), base as nat, i as nat, defined)
                    == emit_stores(
                    n,
                    old(self).state(),
                    level,
                    ids.deep_view(),
                    base as nat,
                    0,
                    defined,
                ),
            decreases ids.len() - i,
        {
            let mut t = String::from_str("$[");
            push_decimal(&mut t, base as u128 + i as u128);
            t.append("] = ");
            if defined {
                t.append(self.target_name(&ids[i]).as_str());
            } else {
                t.append(self.identifier_name(&ids[i]).as_str());
            }
            t.append(";");
            self.write_line(indent, t.as_str(), Ghost(level));
            i += 1;
        }
    }

    /// Writes the loads from the cache, as [`emit_loads`] says.
    fn write_loads(
        &mut self,
        ids: &Vec<Identifier>,
        base: usize,
        indent: &str,
        Ghost(level): Ghost<nat>,
    )
        requires
            indent@ == indent_text(level),
        ensures
            final(self).state() == emit_loads(
                old(self).names(),
                old(self).state(),
                level,
                ids.deep_view(),
                base as nat,
                0,
            ),
            final(self).names() == old(self).names(),
            final(self).scopes == old(self).scopes,
            final(self).cache_size == old(self).cache_size,
    {
        let ghost n = self.names();
        let mut i: usize = 0;
        while i < ids.len()
            invariant
                i <= ids.len(),
                indent@ == indent_text(level),
                self.names() == n,
                n == old(self).names(),
                self.scopes == old(self).scopes,
                self.cache_size == old(self).cache_size,
                emit_loads(n, self.state(), level, ids.deep_view(), base as nat, i as nat)
                    == emit_loads(n, old(self).state(), level, ids.deep_view(), base as nat, 0),
            decreases ids.len() - i,
        {
            let name = self.target_name(&ids[i]);
            let mut t = if self.is_constant(&ids[i], &name) {
                String::from_str("const ")
            } else {
                String::new()
            };
            t.append(name.as_str());
            t.append(" = $[");
            push_decimal(&mut t, base as u128 + i as u128);
            t.append("];");
            self.write_line(indent, t.as_str(), Ghost(level));
            i += 1;
        }
    }

    /// Prints statements in order.
    fn generate_statements(&mut self, stmts: &Vec<ReactiveStatement>, indent: &str, Ghost(level): Ghost<
        nat,
    >)
        requires
            indent@ == indent_text(level),
        ensures
            final(self).state() == emit_stmts(
                old(self).names(),
                old(self).state(),
                level,
                stmts_view(*stmts),
                0,
            ),
            final(self).names() == old(self).names(),
            final(self).scopes == old(self).scopes,
            final(self).cache_size == old(self).cache_size,
        decreases stmts, 0nat,
    {
        let ghost n = self.names();
        let ghost v = stmts_view(*stmts);
        let mut i: usize = 0;
        while i < stmts.len()
            invariant
                i <= stmts.len(),
                indent@ == indent_text(level),
                v == stmts_view(*stmts),
                self.names() == n,
                n == old(self).names(),
                self.scopes == old(self).scopes,
                self.cache_size == old(self).cache_size,
                emit_stmts(n, self.state(), level, v, i as nat) == emit_stmts(
                    n,
                    old(self).state(),
                    level,
                    v,
                    0,
                ),
            decreases stmts.len() - i,
        {
            self.generate_statement(&stmts[i], indent, Ghost(level));
            i += 1;
        }
    }

    /// Prints the cases of a switch, as [`emit_cases`] says.
    fn generate_cases(&mut self, cases: &Vec<ReactiveSwitchCase>, indent: &str, Ghost(level): Ghost<
        nat,
    >)
        requires
            indent@ == indent_text(level),
        ensures
            final(self).state() == emit_cases(
                old(self).names(),
                old(self).state(),
                level,
                crate::hir::reactive_function::cases_view(*cases),
                0,
            ),
            final(self).names() == old(self).names(),
            final(self).scopes == old(self).scopes,
            final(self).cache_size == old(self).cache_size,
        decreases cases, 0nat,
    {
        let ghost n = self.names();
        let ghost v = crate::hir::reactive_function::cases_view(*cases);
        let inner = Self::deeper(indent, Ghost(level));
        let mut i: usize = 0;
        while i < cases.len()
            invariant
                i <= cases.len(),
                indent@ == indent_text(level),
                inner@ == indent_text(level + 1),
                v == crate::hir::reactive_function::cases_view(*cases),
                self.names() == n,
                n == old(self).names(),
                self.scopes == old(self).scopes,
                self.cache_size == old(self).cache_size,
                emit_cases(n, self.state(), level, v, i as nat) == emit_cases(
                    n,
                    old(self).state(),
                    level,
                    v,
                    0,
                ),
            decreases cases.len() - i,
        {
            let case = &cases[i];
            match &case.label {
                Some(label) => {
                    let mut t = String::from_str("case ");
                    t.append(self.identifier_name(label).as_str());
                    t.append(": {");
                    self.write_line(indent, t.as_str(), Ghost(level));
                },
                None => {
                    self.write_line(indent, "default: {", Ghost(level));
                },
            }
            self.generate_statements(&case.body, inner.as_str(), Ghost(level + 1));
            self.write_line(indent, "}", Ghost(level));
            i += 1;
        }
    }

    /// Prints a scope as the cache pattern, as [`emit_stmt`] says.
    fn generate_scope(
        &mut self,
        stmt: &ReactiveStatement,
        indent: &str,
        Ghost(level): Ghost<nat>,
    )
        requires
            indent@ == indent_text(level),
            stmt is Scope,
        ensures
            final(self).state() == emit_stmt(
                old(self).names(),
                old(self).state(),
                level,
                stmt.deep_view(),
            ),
            final(self).names() == old(self).names(),
            final(self).scopes == old(self).scopes,
            final(self).cache_size == old(self).cache_size,
        decreases stmt, 0nat,
    {
        match stmt {
            ReactiveStatement::Scope { dependencies, declarations, body, .. } => {
                if dependencies.len() == 0 && body.len() == 0 {
                    return ;
                }
                let inner = Self::deeper(indent, Ghost(level));
                if dependencies.len() == 0 {
                    self.write_line(
                        indent,
                        "if ($[0] === Symbol.for(\"react.memo_cache_sentinel\")) {",
                        Ghost(level),
                    );
                } else {
                    let mut t = String::from_str("if (");
                    let conditions = self.guard_texts(dependencies);
                    push_joined(&mut t, &conditions, " || ");
                    t.append(") {");
                    self.write_line(indent, t.as_str(), Ghost(level));
                }
                self.generate_statements(body, inner.as_str(), Ghost(level + 1));
                self.write_stores(dependencies, 0, false, inner.as_str(), Ghost(level + 1));
                self.write_stores(
                    declarations,
                    dependencies.len(),
                    true,
                    inner.as_str(),
                    Ghost(level + 1),
                );
                self.write_line(indent, "}", Ghost(level));
                self.write_loads(declarations, dependencies.len(), indent, Ghost(level));
            },
            _ => {},
        }
    }

    /// Prints a statement, as [`emit_stmt`] says.
    fn generate_statement(&mut self, stmt: &ReactiveStatement, indent: &str, Ghost(level): Ghost<
        nat,
    >)
        requires
            indent@ == indent_text(level),
        ensures
            final(self).state() == emit_stmt(
                old(self).names(),
                old(self).state(),
                level,
                stmt.deep_view(),
            ),
            final(self).names() == old(self).names(),
            final(self).scopes == old(self).scopes,
            final(self).cache_size == old(self).cache_size,
        decreases stmt, 1nat,
    {
        match stmt {
            ReactiveStatement::Instruction(instr) => {
                self.generate_instruction(instr, indent, Ghost(level));
            },
            ReactiveStatement::Scope { .. } => {
                self.generate_scope(stmt, indent, Ghost(level));
            },
            ReactiveStatement::If { test, consequent, alternate } => {
                let inner = Self::deeper(indent, Ghost(level));
                let mut t = String::from_str("if (");
                t.append(self.identifier_name(test).as_str());
                t.append(") {");
                self.write_line(indent, t.as_str(), Ghost(level));
                self.generate_statements(consequent, inner.as_str(), Ghost(level + 1));
                if alternate.len() > 0 {
                    self.write_line(indent, "} else {", Ghost(level));
                    self.generate_statements(alternate, inner.as_str(), Ghost(level + 1));
                }
                self.write_line(indent, "}", Ghost(level));
            },
            ReactiveStatement::While { test, body } => {
                let inner = Self::deeper(indent, Ghost(level));
                let mut t = String::from_str("while (");
                t.append(self.identifier_name(test).as_str());
                t.append(") {");
                self.write_line(indent, t.as_str(), Ghost(level));
                self.generate_statements(body, inner.as_str(), Ghost(level + 1));
                self.write_line(indent, "}", Ghost(level));
            },
            ReactiveStatement::Break => {
                self.write_line(indent, "break;", Ghost(level));
            },
            ReactiveStatement::Continue => {
                self.write_line(indent, "continue;", Ghost(level));
            },
            ReactiveStatement::Return(place) => {
                match place {
                    Some(id) => {
                        let mut t = String::from_str("return ");
                        t.append(self.identifier_name(id).as_str());
                        t.append(";");
                        self.write_line(indent, t.as_str(), Ghost(level));
                    },
                    None => {
                        self.write_line(indent, "return;", Ghost(level));
                    },
                }
            },
            ReactiveStatement::Switch { test, cases } => {
                let inner = Self::deeper(indent, Ghost(level));
                let mut t = String::from_str("switch (");
                t.append(self.identifier_name(test).as_str());
                t.append(") {");
                self.write_line(indent, t.as_str(), Ghost(level));
                self.generate_cases(cases, inner.as_str(), Ghost(level + 1));
                self.write_line(indent, "}", Ghost(level));
            },
        }
    }
}

/// Collects the variables that a list of statements assigns.
fn collect_list(
    stmts: &Vec<ReactiveStatement>,
    params: &Vec<String>,
    vars: &mut Vec<String>,
    base_names: &mut Vec<String>,
)
    ensures
        (CollectV { vars: texts(final(vars)@), base: texts(final(base_names)@) }) == collect_stmts(
            texts(params@),
            stmts_view(*stmts),
            0,
            CollectV { vars: texts(old(vars)@), base: texts(old(base_names)@) },
        ),
    decreases stmts, 0nat,
{
    let ghost v = stmts_view(*stmts);
    let ghost start = CollectV { vars: texts(vars@), base: texts(base_names@) };
    let mut i: usize = 0;
    while i < stmts.len()
        invariant
            i <= stmts.len(),
            v == stmts_view(*stmts),
            collect_stmts(
                texts(params@),
                v,
                i as nat,
                CollectV { vars: texts(vars@), base: texts(base_names@) },
            ) == collect_stmts(texts(params@), v, 0, start),
        decreases stmts.len() - i,
    {
        collect_declarations(&stmts[i], params, vars, base_names);
        i += 1;
    }
}

/// Collects the variables that the cases of a switch assign.
fn collect_case_list(
    cases: &Vec<ReactiveSwitchCase>,
    params: &Vec<String>,
    vars: &mut Vec<String>,
    base_names: &mut Vec<String>,
)
    ensures
        (CollectV { vars: texts(final(vars)@), base: texts(final(base_names)@) }) == collect_cases(
            texts(params@),
            crate::hir::reactive_function::cases_view(*cases),
            0,
            CollectV { vars: texts(old(vars)@), base: texts(old(base_names)@) },
        ),
    decreases cases, 0nat,
{
    let ghost v = crate::hir::reactive_function::cases_view(*cases);
    let ghost start = CollectV { vars: texts(vars@), base: texts(base_names@) };
    let mut i: usize = 0;
    while i < cases.len()
        invariant
            i <= cases.len(),
            v == crate::hir::reactive_function::cases_view(*cases),
            collect_cases(
                texts(params@),
                v,
                i as nat,
                CollectV { vars: texts(vars@), base: texts(base_names@) },
            ) == collect_cases(texts(params@), v, 0, start),
        decreases cases.len() - i,
    {
        collect_list(&cases[i].body, params, vars, base_names);
        i += 1;
    }
}

/// Collects the variables that a statement assigns in a function with the
/// given parameters, as [`collect_stmt`] says.
pub fn collect_declarations(
    stmt: &ReactiveStatement,
    params: &Vec<String>,
    vars: &mut Vec<String>,
    base_names: &mut Vec<String>,
)
    ensures
        (CollectV { vars: texts(final(vars)@), base: texts(final(base_names)@) }) == collect_stmt(
            texts(params@),
            stmt.deep_view(),
            CollectV { vars: texts(old(vars)@), base: texts(old(base_names)@) },
        ),
    decreases stmt, 1nat,
{
    match stmt {
        ReactiveStatement::Instruction(instr) => {
            let id = &instr.lvalue;
            let is_temp = temp_name(id.name.as_str());
            let is_reserved = reserved_word(id.name.as_str());
            if !is_temp && !is_reserved && !contains_text(params, &id.name) {
                let name = CodeGenerator::get_canonical_name(id);
                let ghost v0 = texts(vars@);
                let ghost b0 = texts(base_names@);
                if !contains_text(vars, &name) {
                    vars.push(name);
                    assert(texts(vars@) =~= v0.push(name@));
                }
                if id.id != 0 && !contains_text(base_names, &id.name) {
                    base_names.push(id.name.clone());
                    assert(texts(base_names@) =~= b0.push(id.name@));
                }
            }
        },
        ReactiveStatement::If { consequent, alternate, .. } => {
            collect_list(consequent, params, vars, base_names);
            collect_list(alternate, params, vars, base_names);
        },
        ReactiveStatement::While { body, .. } => {
            collect_list(body, params, vars, base_names);
        },
        ReactiveStatement::Scope { body, .. } => {
            collect_list(body, params, vars, base_names);
        },
        ReactiveStatement::Switch { cases, .. } => {
            collect_case_list(cases, params, vars, base_names);
        },
        _ => {},
    }
}

/// The strings of `v` that are not among `drop`, as [`without`] says.
fn strings_without(v: &Vec<String>, drop: &Vec<String>) -> (r: Vec<String>)
    ensures
        texts(r@) == without(texts(v@), texts(drop@), 0, Seq::empty()),
{
    let mut r: Vec<String> = Vec::new();
    assert(texts(r@) =~= Seq::empty());
    let mut i: usize = 0;
    while i < v.len()
        invariant
            i <= v.len(),
            without(texts(v@), texts(drop@), i as nat, texts(r@)) == without(
                texts(v@),
                texts(drop@),
                0,
                Seq::empty(),
            ),
        decreases v.len() - i,
    {
        if !contains_text(drop, &v[i]) {
            let ghost before = texts(r@);
            r.push(v[i].clone());
            assert(texts(r@) =~= before.push(v@[i as int]@));
        }
        assert(texts(v@)[i as int] == v@[i as int]@);
        i += 1;
    }
    r
}

/// The names of the parameters, as [`param_names`] says.
fn names_of(params: &Vec<Identifier>) -> (r: Vec<String>)
    ensures
        texts(r@) == param_names(params.deep_view()),
{
    let mut r: Vec<String> = Vec::new();
    let mut i: usize = 0;
    while i < params.len()
        invariant
            i <= params.len(),
            r@.len() == i,
            forall|k: int| 0 <= k < i ==> (#[trigger] r@[k])@ == params@[k].name@,
        decreases params.len() - i,
    {
        r.push(params[i].name.clone());
        i += 1;
    }
    assert(texts(r@) =~= param_names(params.deep_view()));
    r
}

impl<'a> CodeGenerator<'a> {
    /// Prints a function, as [`emit_function`] says.
    pub fn generate_function(&mut self, func: &ReactiveFunction) -> (r: String)
        requires
            old(self).fresh(),
        ensures
            r@ == emit_function(func.deep_view(), old(self).scope_list()),
    {
        let ghost scopes = self.scope_list();
        self.params = names_of(&func.params);
        let mut header = String::from_str("function ");
        match &func.name {
            Some(name) => {
                header.append(name.as_str());
            },
            None => {
                header.append("anonymous");
            },
        }
        header.append("(");
        push_joined(&mut header, &self.params, ", ");
        header.append(") {");
        self.output.append(header.as_str());
        self.output.push('\n');
        assert(self.output@ =~= header@.push('\n'));
        let top = String::new();
        let indent = Self::deeper(top.as_str(), Ghost(0));
        if self.scopes.scopes.len() > 0 {
            let mut t = String::from_str("const $ = _c(");
            push_decimal(&mut t, self.cache_size as u128);
            t.append(");");
            self.write_line(indent.as_str(), t.as_str(), Ghost(1));
        }
        let mut vars: Vec<String> = Vec::new();
        let mut base_names: Vec<String> = Vec::new();
        assert(texts(vars@) =~= Seq::empty());
        assert(texts(base_names@) =~= Seq::empty());
        collect_list(&func.body, &self.params, &mut vars, &mut base_names);
        let declared = strings_without(&vars, &self.params);
        if declared.len() > 0 {
            let sorted = sorted_strings(&declared);
            let mut t = String::from_str("let ");
            push_joined(&mut t, &sorted, ", ");
            t.append(";");
            self.write_line(indent.as_str(), t.as_str(), Ghost(1));
        }
        self.declared_base_names = base_names;
        self.generate_statements(&func.body, indent.as_str(), Ghost(1));
        self.output.append("}");
        self.output.push('\n');
        self.output.clone()
    }
}

/// Prints a function with its scopes, as [`emit_function`] says.
pub fn generate_code(func: &ReactiveFunction, scopes: &ReactiveScopeResult) -> (r: String)
    requires
        cache_size(scopes.scopes.deep_view()) <= usize::MAX,
    ensures
        r@ == emit_function(func.deep_view(), scopes.scopes.deep_view()),
{
    let mut codegen = CodeGenerator::new(scopes);
    codegen.generate_function(func)
}

} // verus!
