//! Names in lowered graphs: every instruction defines a temporary of its
//! own, and in a function whose variables are not named like temporaries no
//! temporary that an instruction defines is ever stored into.

use crate::ast::{
    ArrayItem, AssignOp, AssignmentTarget, CallArgument, Declarator, Expression, ForInit, Function,
    LogicalOp, Param, PropertyKey, PropertyNode, Statement, SwitchCase, TargetElement,
    TargetProperty,
};
use crate::hir::lowering::{
    alloc_block, alloc_blocks, branch_terminal, close_after, close_branch, compound_operator,
    continue_target, ends_in_jump,
    create_temp, default_block, initial_state, lower_arg, lower_args, lower_assignment,
    lower_case_bodies, lower_case_tests, lower_declarator, lower_declarators, lower_expr,
    lower_exprs, lower_for_init, lower_function, lower_function_from, lower_item, lower_items,
    lower_key, lower_param, lower_params, lower_prop, lower_props, lower_stmt, lower_stmts,
    lower_update, mark_header, param_ident, pop_loop, push_instr, push_loop, start_block,
    store_elements, store_properties, store_target, temp_text, terminate, terminate_prefix,
    unknown_key, variable, init_is_lowered, LoopV, LowerV,
};
use crate::hir::{
    at, distinct_versions, lvalue_at, single_versions, store_target_at, ArgV, BlockV, ConstV, ElemV, IdentV, InstrV,
    KeyV, PropV, TermV, UnaryOperator, ValueV, BinaryOperator,
};
use crate::hir::ssa::{
    globals_of, lemma_name_index, lemma_promotable_is_stored, name_index, versions_below,
    versions_ok, versions_unassigned, with_preds,
};
use crate::text::{decimal, lemma_decimal_injective};
use vstd::prelude::*;

verus! {

broadcast use vstd::std_specs::vec::group_vec_axioms;

/// Whether a name is the name of a temporary.
pub open spec fn is_temp_text(name: Seq<char>) -> bool {
    exists|n: nat| name == #[trigger] temp_text(n)
}

/// A variable name that is not the name of a temporary.
pub open spec fn plain(name: String) -> bool {
    !is_temp_text(name@)
}

/// A variable name, where there is one, that is not the name of a temporary.
pub open spec fn plain_or_none(name: Option<String>) -> bool {
    match name {
        Some(n) => plain(n),
        None => true,
    }
}

/// Different temporaries have different names.
pub proof fn lemma_temp_text_injective(a: nat, b: nat)
    requires
        temp_text(a) == temp_text(b),
    ensures
        a == b,
{
    assert(temp_text(a).subrange(1, temp_text(a).len() as int) =~= decimal(a));
    assert(temp_text(b).subrange(1, temp_text(b).len() as int) =~= decimal(b));
    lemma_decimal_injective(a, b);
}

pub open spec fn element_names_ok(e: TargetElement) -> bool {
    match e {
        TargetElement::Identifier(n) => plain(n),
        _ => true,
    }
}

pub open spec fn property_names_ok(p: TargetProperty) -> bool {
    match p {
        TargetProperty::Shorthand { name } => plain(name),
        TargetProperty::KeyValue { binding, .. } => plain_or_none(binding),
    }
}

/// No variable that the target assigns is named like a temporary.
pub open spec fn target_names_ok(t: AssignmentTarget) -> bool
    decreases t,
{
    match t {
        AssignmentTarget::Identifier(n) => plain(n),
        AssignmentTarget::StaticMember { object, .. } => expr_names_ok(*object),
        AssignmentTarget::ComputedMember { object, property } => expr_names_ok(*object)
            && expr_names_ok(*property),
        AssignmentTarget::ArrayPattern(elements) => forall|i: int|
            0 <= i < elements@.len() ==> element_names_ok(#[trigger] elements@[i]),
        AssignmentTarget::ObjectPattern(properties) => forall|i: int|
            0 <= i < properties@.len() ==> property_names_ok(#[trigger] properties@[i]),
        AssignmentTarget::Other => true,
    }
}

pub open spec fn arg_names_ok(a: CallArgument) -> bool
    decreases a,
{
    match a {
        CallArgument::Regular(e) => expr_names_ok(e),
        CallArgument::Spread(e) => expr_names_ok(e),
    }
}

pub open spec fn prop_names_ok(p: PropertyNode) -> bool
    decreases p,
{
    match p {
        PropertyNode::KeyValue { key, value } => (match key {
            PropertyKey::Computed(k) => expr_names_ok(k),
            _ => true,
        }) && expr_names_ok(value),
        PropertyNode::Spread(e) => expr_names_ok(e),
    }
}

pub open spec fn item_names_ok(a: ArrayItem) -> bool
    decreases a,
{
    match a {
        ArrayItem::Regular(e) => expr_names_ok(e),
        ArrayItem::Spread(e) => expr_names_ok(e),
        ArrayItem::Hole => true,
    }
}

/// No variable that the expression assigns is named like a temporary.
pub open spec fn expr_names_ok(e: Expression) -> bool
    decreases e,
{
    match e {
        Expression::Literal(_) => true,
        Expression::Identifier(_) => true,
        Expression::Binary { left, right, .. } => expr_names_ok(*left) && expr_names_ok(*right),
        Expression::Unary { argument, .. } => expr_names_ok(*argument),
        Expression::Update { target, .. } => plain_or_none(target),
        Expression::Assignment { target, value, .. } => target_names_ok(*target) && expr_names_ok(
            *value,
        ),
        Expression::Call { callee, arguments } => expr_names_ok(*callee) && forall|i: int|
            0 <= i < arguments@.len() ==> arg_names_ok(#[trigger] arguments@[i]),
        Expression::Object { properties } => forall|i: int|
            0 <= i < properties@.len() ==> prop_names_ok(#[trigger] properties@[i]),
        Expression::Array { elements } => forall|i: int|
            0 <= i < elements@.len() ==> item_names_ok(#[trigger] elements@[i]),
        Expression::StaticMember { object, .. } => expr_names_ok(*object),
        Expression::ComputedMember { object, property } => expr_names_ok(*object)
            && expr_names_ok(*property),
        Expression::Logical { left, right, .. } => expr_names_ok(*left) && expr_names_ok(*right),
        Expression::Conditional { test, consequent, alternate } => expr_names_ok(*test)
            && expr_names_ok(*consequent) && expr_names_ok(*alternate),
        Expression::Other => true,
    }
}

pub open spec fn declarator_names_ok(d: Declarator) -> bool
    decreases d,
{
    plain_or_none(d.binding) && match d.init {
        Some(e) => expr_names_ok(e),
        None => true,
    }
}

pub open spec fn for_init_names_ok(init: ForInit) -> bool
    decreases init,
{
    match init {
        ForInit::Declaration(ds) => forall|i: int|
            0 <= i < ds@.len() ==> declarator_names_ok(#[trigger] ds@[i]),
        ForInit::Sequence(es) => forall|i: int|
            0 <= i < es@.len() ==> expr_names_ok(#[trigger] es@[i]),
        ForInit::Expression(e) => expr_names_ok(e),
    }
}

pub open spec fn case_names_ok(c: SwitchCase) -> bool
    decreases c,
{
    (match c.test {
        Some(e) => expr_names_ok(e),
        None => true,
    }) && forall|i: int| 0 <= i < c.consequent@.len() ==> stmt_names_ok(#[trigger] c.consequent@[i])
}

/// No variable that the statement assigns is named like a temporary.
pub open spec fn stmt_names_ok(st: Statement) -> bool
    decreases st,
{
    match st {
        Statement::Return(argument) => match argument {
            Some(e) => expr_names_ok(e),
            None => true,
        },
        Statement::VariableDeclaration(ds) => forall|i: int|
            0 <= i < ds@.len() ==> declarator_names_ok(#[trigger] ds@[i]),
        Statement::Expression(e) => expr_names_ok(e),
        Statement::If { test, consequent, alternate } => expr_names_ok(test) && stmt_names_ok(
            *consequent,
        ) && match alternate {
            Some(a) => stmt_names_ok(*a),
            None => true,
        },
        Statement::While { test, body } => expr_names_ok(test) && stmt_names_ok(*body),
        Statement::For { init, test, update, body } => (match init {
            Some(i) => for_init_names_ok(i),
            None => true,
        }) && (match test {
            Some(e) => expr_names_ok(e),
            None => true,
        }) && (match update {
            Some(e) => expr_names_ok(e),
            None => true,
        }) && stmt_names_ok(*body),
        Statement::Block(stmts) => forall|i: int|
            0 <= i < stmts@.len() ==> stmt_names_ok(#[trigger] stmts@[i]),
        Statement::Break => true,
        Statement::Continue => true,
        Statement::Switch { discriminant, cases } => expr_names_ok(discriminant) && forall|i: int|
            0 <= i < cases@.len() ==> case_names_ok(#[trigger] cases@[i]),
        Statement::Other => true,
    }
}

pub open spec fn param_names_ok(p: Param) -> bool {
    match p {
        Param::Identifier(_) => true,
        Param::Pattern(t) => target_names_ok(t),
    }
}

/// No variable that the function assigns is named like a temporary.
pub open spec fn function_names_ok(f: Function) -> bool {
    &&& forall|i: int| 0 <= i < f.params@.len() ==> param_names_ok(#[trigger] f.params@[i])
    &&& forall|i: int| 0 <= i < f.body@.len() ==> stmt_names_ok(#[trigger] f.body@[i])
}

/// No instruction defines the temporary `m`.
pub open spec fn free(blocks: Seq<BlockV>, m: nat) -> bool {
    forall|b: int, i: int|
        #![trigger lvalue_at(blocks, b, i)]
        at(blocks, b, i) ==> lvalue_at(blocks, b, i).id != m
}

/// A name that may be stored into: a plain name, or the name of a
/// temporary that was taken and that no instruction defines.
pub open spec fn store_name_ok(blocks: Seq<BlockV>, next_temp: nat, name: Seq<char>) -> bool {
    !is_temp_text(name) || exists|m: nat|
        name == temp_text(m) && m < next_temp && #[trigger] free(blocks, m)
}

/// The builder state keeps temporaries and variables apart: every
/// instruction defines the temporary that carries its own number, no two
/// define the same, and every store goes into a name that may be stored
/// into.
#[verifier::opaque]
pub open spec fn named(s: LowerV) -> bool {
    &&& s.current < s.blocks.len()
    &&& distinct_versions(s.blocks)
    &&& forall|b: int, i: int|
        #![trigger lvalue_at(s.blocks, b, i)]
        at(s.blocks, b, i) ==> lvalue_at(s.blocks, b, i).id < s.next_temp && lvalue_at(
            s.blocks,
            b,
            i,
        ).name == temp_text(lvalue_at(s.blocks, b, i).id)
    &&& forall|b: int, i: int|
        #![trigger store_target_at(s.blocks, b, i)]
        at(s.blocks, b, i) ==> (store_target_at(s.blocks, b, i) matches Some(t) ==> store_name_ok(
            s.blocks,
            s.next_temp,
            t.name,
        ))
}

/// The later state has taken no temporary back and made no block
/// disappear, and a temporary that no instruction defined is still
/// undefined.
pub open spec fn extends(s: LowerV, later: LowerV) -> bool {
    &&& later.next_temp >= s.next_temp
    &&& later.blocks.len() >= s.blocks.len()
    &&& forall|m: nat|
        m < s.next_temp && #[trigger] free(s.blocks, m) ==> free(later.blocks, m)
}

/// A state with the same blocks, temporaries and cursor is as good.
pub proof fn lemma_same(s: LowerV, later: LowerV)
    requires
        named(s),
        later.blocks == s.blocks,
        later.next_temp == s.next_temp,
        later.current == s.current,
    ensures
        named(later),
        extends(s, later),
{
    reveal(named);
}

/// Taking a temporary yields one that no instruction defines.
pub proof fn lemma_create_temp(s: LowerV)
    requires
        named(s),
    ensures
        named(create_temp(s).0),
        extends(s, create_temp(s).0),
        create_temp(s).1 == (IdentV { name: temp_text(s.next_temp), id: s.next_temp }),
        free(create_temp(s).0.blocks, s.next_temp),
        create_temp(s).0.next_temp == s.next_temp + 1,
        create_temp(s).0.blocks == s.blocks,
        create_temp(s).0.current == s.current,
{
    reveal(named);
    reveal(create_temp);
    let s1 = create_temp(s).0;
    assert forall|b: int, i: int|
        #![trigger store_target_at(s1.blocks, b, i)]
        at(s1.blocks, b, i) implies (store_target_at(s1.blocks, b, i) matches Some(t)
        ==> store_name_ok(s1.blocks, s1.next_temp, t.name)) by {
        match store_target_at(s.blocks, b, i) {
            Some(t) => {
                assert(store_name_ok(s.blocks, s.next_temp, t.name));
                if is_temp_text(t.name) {
                    let m = choose|m: nat|
                        t.name == temp_text(m) && m < s.next_temp && #[trigger] free(s.blocks, m);
                    assert(free(s1.blocks, m));
                }
            },
            None => {},
        }
    }
}

/// Blocks that keep their instructions, and new blocks without any, keep
/// the names apart.
pub proof fn lemma_blocks_kept(s: LowerV, later: LowerV)
    requires
        named(s),
        later.next_temp == s.next_temp,
        later.current < later.blocks.len(),
        later.blocks.len() >= s.blocks.len(),
        forall|b: int|
            0 <= b < s.blocks.len() ==> (#[trigger] later.blocks[b]).instructions
                == s.blocks[b].instructions,
        forall|b: int|
            s.blocks.len() <= b < later.blocks.len() ==> (#[trigger] later.blocks[b]).instructions.len()
                == 0,
    ensures
        named(later),
        extends(s, later),
{
    reveal(named);
    assert forall|b: int, i: int| at(later.blocks, b, i) implies at(s.blocks, b, i)
        && #[trigger] lvalue_at(later.blocks, b, i) == lvalue_at(s.blocks, b, i)
        && store_target_at(later.blocks, b, i) == store_target_at(s.blocks, b, i) by {
        if b >= s.blocks.len() {
            assert(later.blocks[b].instructions.len() == 0);
        } else {
            assert(later.blocks[b].instructions == s.blocks[b].instructions);
        }
    }
    assert forall|m: nat| free(s.blocks, m) implies #[trigger] free(later.blocks, m) by {
        assert forall|b: int, i: int|
            #![trigger lvalue_at(later.blocks, b, i)]
            at(later.blocks, b, i) implies lvalue_at(later.blocks, b, i).id != m by {
            assert(lvalue_at(later.blocks, b, i) == lvalue_at(s.blocks, b, i));
        }
    }
    assert forall|b1: int, i1: int, b2: int, i2: int|
        #![trigger lvalue_at(later.blocks, b1, i1), lvalue_at(later.blocks, b2, i2)]
        at(later.blocks, b1, i1) && at(later.blocks, b2, i2) && (b1 != b2 || i1 != i2)
        implies lvalue_at(later.blocks, b1, i1).id != lvalue_at(later.blocks, b2, i2).id by {
        assert(lvalue_at(later.blocks, b1, i1) == lvalue_at(s.blocks, b1, i1));
        assert(lvalue_at(later.blocks, b2, i2) == lvalue_at(s.blocks, b2, i2));
    }
    assert forall|b: int, i: int|
        #![trigger lvalue_at(later.blocks, b, i)]
        at(later.blocks, b, i) implies lvalue_at(later.blocks, b, i).id < later.next_temp
        && lvalue_at(later.blocks, b, i).name == temp_text(lvalue_at(later.blocks, b, i).id) by {
        assert(lvalue_at(later.blocks, b, i) == lvalue_at(s.blocks, b, i));
    }
    assert forall|b: int, i: int|
        #![trigger store_target_at(later.blocks, b, i)]
        at(later.blocks, b, i) implies (store_target_at(later.blocks, b, i) matches Some(t)
        ==> store_name_ok(later.blocks, later.next_temp, t.name)) by {
        assert(lvalue_at(later.blocks, b, i) == lvalue_at(s.blocks, b, i));
        match store_target_at(s.blocks, b, i) {
            Some(t) => {
                assert(store_name_ok(s.blocks, s.next_temp, t.name));
                if is_temp_text(t.name) {
                    let m = choose|m: nat|
                        t.name == temp_text(m) && m < s.next_temp && #[trigger] free(s.blocks, m);
                    assert(free(later.blocks, m));
                }
            },
            None => {},
        }
    }
}

/// A new block keeps the names apart.
pub proof fn lemma_alloc_block(s: LowerV)
    requires
        named(s),
    ensures
        named(alloc_block(s).0),
        extends(s, alloc_block(s).0),
        alloc_block(s).1 == s.blocks.len(),
        alloc_block(s).0.blocks.len() == s.blocks.len() + 1,
        alloc_block(s).0.next_temp == s.next_temp,
        alloc_block(s).0.current == s.current,
{
    reveal(alloc_block);
    assert(s.current < s.blocks.len()) by {
        reveal(named);
    }
    lemma_blocks_kept(s, alloc_block(s).0);
}

/// Closing a block keeps the names apart.
pub proof fn lemma_terminate(s: LowerV, t: TermV)
    requires
        named(s),
    ensures
        named(terminate(s, t)),
        extends(s, terminate(s, t)),
        terminate(s, t).next_temp == s.next_temp,
{
    reveal(terminate);
    reveal(terminate_prefix);
    reveal(alloc_block);
    assert(s.current < s.blocks.len()) by {
        reveal(named);
    }
    lemma_blocks_kept(s, terminate(s, t));
}

/// Moving the cursor to a block keeps the names apart.
pub proof fn lemma_start_block(s: LowerV, id: nat)
    requires
        named(s),
        id < s.blocks.len(),
    ensures
        named(start_block(s, id)),
        extends(s, start_block(s, id)),
        start_block(s, id).next_temp == s.next_temp,
        start_block(s, id).blocks == s.blocks,
{
    lemma_blocks_kept(s, start_block(s, id));
}

/// Entering a loop keeps the names apart.
pub proof fn lemma_loops(s: LowerV, l: LoopV, h: nat)
    requires
        named(s),
    ensures
        named(push_loop(s, l)),
        extends(s, push_loop(s, l)),
        named(pop_loop(s)),
        extends(s, pop_loop(s)),
        named(mark_header(s, h)),
        extends(s, mark_header(s, h)),
{
    lemma_same(s, push_loop(s, l));
    lemma_same(s, pop_loop(s));
    lemma_same(s, mark_header(s, h));
}

/// Closing a branch keeps the names apart.
pub proof fn lemma_close_branch(s: LowerV, checked: nat, target: nat)
    requires
        named(s),
    ensures
        named(close_branch(s, checked, target)),
        extends(s, close_branch(s, checked, target)),
{
    lemma_same(s, s);
    lemma_terminate(s, TermV::Goto(target));
}

/// Closing a branch where it falls off keeps the names apart.
pub proof fn lemma_close_after(s: LowerV, jumped: bool, target: nat)
    requires
        named(s),
    ensures
        named(close_after(s, jumped, target)),
        extends(s, close_after(s, jumped, target)),
{
    lemma_same(s, s);
    lemma_close_branch(s, s.current, target);
}

/// Whether an operation may be appended: a store goes into a name that may
/// be stored into.
pub open spec fn value_ok(s: LowerV, value: ValueV) -> bool {
    value matches ValueV::StoreLocal(t, _) ==> store_name_ok(s.blocks, s.next_temp, t.name)
}

/// Appending an instruction keeps the names apart.
pub proof fn lemma_push_instr(s: LowerV, value: ValueV)
    requires
        named(s),
        value_ok(s, value),
    ensures
        named(push_instr(s, value).0),
        extends(s, push_instr(s, value).0),
        push_instr(s, value).0.next_temp == s.next_temp + 1,
        push_instr(s, value).0.blocks.len() == s.blocks.len(),
        push_instr(s, value).0.current == s.current,
{
    reveal(named);
    reveal(push_instr);
    reveal(create_temp);
    let s1 = push_instr(s, value).0;
    let cur = s.current as int;
    let last = s.blocks[cur].instructions.len() as int;
    let t = IdentV { name: temp_text(s.next_temp), id: s.next_temp };
    assert forall|b: int, i: int| at(s1.blocks, b, i) implies if b == cur && i == last {
        #[trigger] lvalue_at(s1.blocks, b, i) == t && s1.blocks[b].instructions[i].value == value
    } else {
        at(s.blocks, b, i) && lvalue_at(s1.blocks, b, i) == lvalue_at(s.blocks, b, i)
            && store_target_at(s1.blocks, b, i) == store_target_at(s.blocks, b, i)
    } by {}
    assert forall|m: nat| m < s.next_temp && free(s.blocks, m) implies #[trigger] free(
        s1.blocks,
        m,
    ) by {
        assert forall|b: int, i: int|
            #![trigger lvalue_at(s1.blocks, b, i)]
            at(s1.blocks, b, i) implies lvalue_at(s1.blocks, b, i).id != m by {
            if !(b == cur && i == last) {
                assert(lvalue_at(s1.blocks, b, i) == lvalue_at(s.blocks, b, i));
            }
        }
    }
    assert forall|b1: int, i1: int, b2: int, i2: int|
        #![trigger lvalue_at(s1.blocks, b1, i1), lvalue_at(s1.blocks, b2, i2)]
        at(s1.blocks, b1, i1) && at(s1.blocks, b2, i2) && (b1 != b2 || i1 != i2)
        implies lvalue_at(s1.blocks, b1, i1).id != lvalue_at(s1.blocks, b2, i2).id by {
        if b1 == cur && i1 == last {
            assert(lvalue_at(s1.blocks, b2, i2) == lvalue_at(s.blocks, b2, i2));
        } else if b2 == cur && i2 == last {
            assert(lvalue_at(s1.blocks, b1, i1) == lvalue_at(s.blocks, b1, i1));
        } else {
            assert(lvalue_at(s1.blocks, b1, i1) == lvalue_at(s.blocks, b1, i1));
            assert(lvalue_at(s1.blocks, b2, i2) == lvalue_at(s.blocks, b2, i2));
        }
    }
    assert forall|b: int, i: int|
        #![trigger lvalue_at(s1.blocks, b, i)]
        at(s1.blocks, b, i) implies lvalue_at(s1.blocks, b, i).id < s1.next_temp && lvalue_at(
        s1.blocks,
        b,
        i,
    ).name == temp_text(lvalue_at(s1.blocks, b, i).id) by {
        if !(b == cur && i == last) {
            assert(lvalue_at(s1.blocks, b, i) == lvalue_at(s.blocks, b, i));
        }
    }
    assert forall|b: int, i: int|
        #![trigger store_target_at(s1.blocks, b, i)]
        at(s1.blocks, b, i) implies (store_target_at(s1.blocks, b, i) matches Some(x)
        ==> store_name_ok(s1.blocks, s1.next_temp, x.name)) by {
        match store_target_at(s1.blocks, b, i) {
            Some(x) => {
                if b == cur && i == last {
                    assert(store_name_ok(s.blocks, s.next_temp, x.name));
                } else {
                    assert(store_target_at(s.blocks, b, i) == Some(x));
                    assert(store_name_ok(s.blocks, s.next_temp, x.name));
                }
                if is_temp_text(x.name) {
                    let m = choose|m: nat|
                        x.name == temp_text(m) && m < s.next_temp && #[trigger] free(s.blocks, m);
                    assert(free(s1.blocks, m));
                }
            },
            None => {},
        }
    }
}

/// A plain name may be stored into.
pub proof fn lemma_plain_store(s: LowerV, name: String, value: IdentV)
    requires
        plain(name),
    ensures
        value_ok(s, ValueV::StoreLocal(variable(name@), value)),
{
}

/// A temporary that no instruction defines may be stored into.
pub proof fn lemma_local_store(s: LowerV, local: IdentV, value: IdentV)
    requires
        local.name == temp_text(local.id),
        local.id < s.next_temp,
        free(s.blocks, local.id),
    ensures
        value_ok(s, ValueV::StoreLocal(local, value)),
{
}

/// Lowering `++` or `--` keeps the names apart.
pub proof fn lemma_update(s: LowerV, increment: bool, prefix: bool, target: Option<String>)
    requires
        named(s),
        plain_or_none(target),
    ensures
        named(lower_update(s, increment, prefix, target).0),
        extends(s, lower_update(s, increment, prefix, target).0),
{
    match target {
        None => {
            lemma_create_temp(s);
        },
        Some(name) => {
            let (s1, current) = push_instr(s, ValueV::LoadLocal(variable(name@)));
            lemma_push_instr(s, ValueV::LoadLocal(variable(name@)));
            let (s2, one) = push_instr(s1, ValueV::Constant(ConstV::Int(1)));
            lemma_push_instr(s1, ValueV::Constant(ConstV::Int(1)));
            let op = if increment {
                BinaryOperator::Add
            } else {
                BinaryOperator::Sub
            };
            let (s3, updated) = push_instr(s2, ValueV::BinaryOp { op, left: current, right: one });
            lemma_push_instr(s2, ValueV::BinaryOp { op, left: current, right: one });
            lemma_push_instr(s3, ValueV::StoreLocal(variable(name@), updated));
        },
    }
}

/// Array destructuring keeps the names apart.
pub proof fn lemma_store_elements(s: LowerV, v: Vec<TargetElement>, i: nat, value: IdentV)
    requires
        named(s),
        forall|k: int| 0 <= k < v@.len() ==> element_names_ok(#[trigger] v@[k]),
    ensures
        named(store_elements(s, v, i, value)),
        extends(s, store_elements(s, v, i, value)),
    decreases v.len() - i,
{
    if i >= v.len() {
        lemma_same(s, s);
    } else {
        assert(element_names_ok(v@[i as int]));
        let s1 = match v[i as int] {
            TargetElement::Hole => {
                lemma_same(s, s);
                s
            },
            TargetElement::Identifier(name) => {
                let (a, index) = push_instr(s, ValueV::Constant(ConstV::Int(i as i64 as int)));
                lemma_push_instr(s, ValueV::Constant(ConstV::Int(i as i64 as int)));
                let (b, element) = push_instr(
                    a,
                    ValueV::ComputedLoad { object: value, property: index },
                );
                lemma_push_instr(a, ValueV::ComputedLoad { object: value, property: index });
                lemma_push_instr(b, ValueV::StoreLocal(variable(name@), element));
                push_instr(b, ValueV::StoreLocal(variable(name@), element)).0
            },
            TargetElement::Other => {
                let (a, index) = push_instr(s, ValueV::Constant(ConstV::Int(i as i64 as int)));
                lemma_push_instr(s, ValueV::Constant(ConstV::Int(i as i64 as int)));
                lemma_push_instr(a, ValueV::ComputedLoad { object: value, property: index });
                push_instr(a, ValueV::ComputedLoad { object: value, property: index }).0
            },
        };
        lemma_store_elements(s1, v, i + 1, value);
    }
}

/// Object destructuring keeps the names apart.
pub proof fn lemma_store_properties(s: LowerV, v: Vec<TargetProperty>, i: nat, value: IdentV)
    requires
        named(s),
        forall|k: int| 0 <= k < v@.len() ==> property_names_ok(#[trigger] v@[k]),
    ensures
        named(store_properties(s, v, i, value)),
        extends(s, store_properties(s, v, i, value)),
    decreases v.len() - i,
{
    if i >= v.len() {
        lemma_same(s, s);
    } else {
        assert(property_names_ok(v@[i as int]));
        let s1 = match v[i as int] {
            TargetProperty::Shorthand { name } => {
                let (a, loaded) = push_instr(
                    s,
                    ValueV::PropertyLoad { object: value, property: name@ },
                );
                lemma_push_instr(s, ValueV::PropertyLoad { object: value, property: name@ });
                lemma_push_instr(a, ValueV::StoreLocal(variable(name@), loaded));
                push_instr(a, ValueV::StoreLocal(variable(name@), loaded)).0
            },
            TargetProperty::KeyValue { key: None, .. } => {
                lemma_same(s, s);
                s
            },
            TargetProperty::KeyValue { key: Some(k), binding } => {
                let (a, loaded) = push_instr(
                    s,
                    ValueV::PropertyLoad { object: value, property: k@ },
                );
                lemma_push_instr(s, ValueV::PropertyLoad { object: value, property: k@ });
                match binding {
                    Some(name) => {
                        lemma_push_instr(a, ValueV::StoreLocal(variable(name@), loaded));
                        push_instr(a, ValueV::StoreLocal(variable(name@), loaded)).0
                    },
                    None => a,
                }
            },
        };
        lemma_store_properties(s1, v, i + 1, value);
    }
}

/// Storing into a target keeps the names apart.
pub proof fn lemma_store_target(s: LowerV, t: AssignmentTarget, value: IdentV)
    requires
        named(s),
        target_names_ok(t),
    ensures
        named(store_target(s, t, value)),
        extends(s, store_target(s, t, value)),
    decreases t, 0nat,
{
    match t {
        AssignmentTarget::Identifier(name) => {
            lemma_push_instr(s, ValueV::StoreLocal(variable(name@), value));
        },
        AssignmentTarget::StaticMember { object, property } => {
            lemma_expr(s, *object);
            let (s1, o) = lower_expr(s, *object);
            lemma_push_instr(s1, ValueV::PropertyStore { object: o, property: property@, value });
        },
        AssignmentTarget::ComputedMember { object, property } => {
            lemma_expr(s, *object);
            let (s1, o) = lower_expr(s, *object);
            lemma_expr(s1, *property);
            let (s2, p) = lower_expr(s1, *property);
            lemma_push_instr(s2, ValueV::ComputedStore { object: o, property: p, value });
        },
        AssignmentTarget::ArrayPattern(elements) => {
            lemma_store_elements(s, elements, 0, value);
        },
        AssignmentTarget::ObjectPattern(properties) => {
            lemma_store_properties(s, properties, 0, value);
        },
        AssignmentTarget::Other => {
            lemma_same(s, s);
        },
    }
}

/// Lowering an assignment keeps the names apart.
pub proof fn lemma_assignment(s: LowerV, e: Expression)
    requires
        named(s),
        expr_names_ok(e),
    ensures
        named(lower_assignment(s, e).0),
        extends(s, lower_assignment(s, e).0),
    decreases e, 0nat,
{
    match e {
        Expression::Assignment { op, target, value } => {
            lemma_expr(s, *value);
            let (s1, right) = lower_expr(s, *value);
            if op == AssignOp::Assign {
                lemma_store_target(s1, *target, right);
            } else {
                match (*target, compound_operator(op)) {
                    (AssignmentTarget::Identifier(name), Some(bop)) => {
                        lemma_push_instr(s1, ValueV::LoadLocal(variable(name@)));
                        let (s2, left) = push_instr(s1, ValueV::LoadLocal(variable(name@)));
                        lemma_push_instr(s2, ValueV::BinaryOp { op: bop, left, right });
                        let (s3, result) = push_instr(
                            s2,
                            ValueV::BinaryOp { op: bop, left, right },
                        );
                        lemma_store_target(s3, *target, result);
                    },
                    _ => {
                        lemma_create_temp(s1);
                    },
                }
            }
        },
        _ => {
            lemma_create_temp(s);
        },
    }
}

/// Lowering a call argument keeps the names apart.
pub proof fn lemma_arg(s: LowerV, a: CallArgument)
    requires
        named(s),
        arg_names_ok(a),
    ensures
        named(lower_arg(s, a).0),
        extends(s, lower_arg(s, a).0),
    decreases a, 0nat,
{
    match a {
        CallArgument::Regular(e) => {
            lemma_expr(s, e);
        },
        CallArgument::Spread(e) => {
            lemma_expr(s, e);
        },
    }
}

/// Lowering call arguments keeps the names apart.
pub proof fn lemma_args(s: LowerV, v: Vec<CallArgument>, i: nat, acc: Seq<ArgV>)
    requires
        named(s),
        forall|k: int| 0 <= k < v@.len() ==> arg_names_ok(#[trigger] v@[k]),
    ensures
        named(lower_args(s, v, i, acc).0),
        extends(s, lower_args(s, v, i, acc).0),
    decreases v, v.len() - i,
{
    if i >= v.len() {
        lemma_same(s, s);
    } else {
        assert(arg_names_ok(v@[i as int]));
        lemma_arg(s, v[i as int]);
        let (s1, a) = lower_arg(s, v[i as int]);
        lemma_args(s1, v, i + 1, acc.push(a));
    }
}

/// Lowering an object-literal member keeps the names apart.
pub proof fn lemma_prop(s: LowerV, p: PropertyNode)
    requires
        named(s),
        prop_names_ok(p),
    ensures
        named(lower_prop(s, p).0),
        extends(s, lower_prop(s, p).0),
    decreases p, 1nat,
{
    match p {
        PropertyNode::KeyValue { key, value } => {
            lemma_key(s, key);
            let (s1, k) = lower_key(s, key);
            lemma_expr(s1, value);
        },
        PropertyNode::Spread(e) => {
            lemma_expr(s, e);
        },
    }
}

/// Lowering an object-literal key keeps the names apart.
pub proof fn lemma_key(s: LowerV, key: PropertyKey)
    requires
        named(s),
        key matches PropertyKey::Computed(k) ==> expr_names_ok(k),
    ensures
        named(lower_key(s, key).0),
        extends(s, lower_key(s, key).0),
    decreases key, 0nat,
{
    match key {
        PropertyKey::Computed(e) => {
            lemma_expr(s, e);
        },
        _ => {
            lemma_same(s, s);
        },
    }
}

/// Lowering object-literal members keeps the names apart.
pub proof fn lemma_props(s: LowerV, v: Vec<PropertyNode>, i: nat, acc: Seq<PropV>)
    requires
        named(s),
        forall|k: int| 0 <= k < v@.len() ==> prop_names_ok(#[trigger] v@[k]),
    ensures
        named(lower_props(s, v, i, acc).0),
        extends(s, lower_props(s, v, i, acc).0),
    decreases v, v.len() - i,
{
    if i >= v.len() {
        lemma_same(s, s);
    } else {
        assert(prop_names_ok(v@[i as int]));
        lemma_prop(s, v[i as int]);
        let (s1, p) = lower_prop(s, v[i as int]);
        lemma_props(s1, v, i + 1, acc.push(p));
    }
}

/// Lowering an array-literal element keeps the names apart.
pub proof fn lemma_item(s: LowerV, a: ArrayItem)
    requires
        named(s),
        item_names_ok(a),
    ensures
        named(lower_item(s, a).0),
        extends(s, lower_item(s, a).0),
    decreases a, 0nat,
{
    match a {
        ArrayItem::Regular(e) => {
            lemma_expr(s, e);
        },
        ArrayItem::Spread(e) => {
            lemma_expr(s, e);
        },
        ArrayItem::Hole => {
            lemma_same(s, s);
        },
    }
}

/// Lowering array-literal elements keeps the names apart.
pub proof fn lemma_items(s: LowerV, v: Vec<ArrayItem>, i: nat, acc: Seq<ElemV>)
    requires
        named(s),
        forall|k: int| 0 <= k < v@.len() ==> item_names_ok(#[trigger] v@[k]),
    ensures
        named(lower_items(s, v, i, acc).0),
        extends(s, lower_items(s, v, i, acc).0),
    decreases v, v.len() - i,
{
    if i >= v.len() {
        lemma_same(s, s);
    } else {
        assert(item_names_ok(v@[i as int]));
        lemma_item(s, v[i as int]);
        let (s1, a) = lower_item(s, v[i as int]);
        lemma_items(s1, v, i + 1, acc.push(a));
    }
}

/// The two stores and the load of a diamond keep the names apart.
pub proof fn lemma_diamond(
    s5: LowerV,
    s6: LowerV,
    result: IdentV,
    first_block: nat,
    first_value: IdentV,
    second_block: nat,
    second: Expression,
    merge_block: nat,
)
    requires
        named(s5),
        named(s6),
        extends(s5, s6),
        result.name == temp_text(result.id),
        result.id < s5.next_temp,
        free(s5.blocks, result.id),
        first_block < s5.blocks.len(),
        second_block < s5.blocks.len(),
        merge_block < s5.blocks.len(),
        expr_names_ok(second),
    ensures
        ({
            let s7 = push_instr(
                start_block(s6, first_block),
                ValueV::StoreLocal(result, first_value),
            ).0;
            let s8 = terminate(s7, TermV::Goto(merge_block));
            let (s9, r) = lower_expr(start_block(s8, second_block), second);
            let s10 = push_instr(s9, ValueV::StoreLocal(result, r)).0;
            let s11 = terminate(s10, TermV::Goto(merge_block));
            let last = push_instr(start_block(s11, merge_block), ValueV::LoadLocal(result)).0;
            named(last) && extends(s5, last)
        }),
    decreases second, 2nat,
{
    let a = start_block(s6, first_block);
    lemma_start_block(s6, first_block);
    lemma_local_store(a, result, first_value);
    lemma_push_instr(a, ValueV::StoreLocal(result, first_value));
    let s7 = push_instr(a, ValueV::StoreLocal(result, first_value)).0;
    lemma_terminate(s7, TermV::Goto(merge_block));
    let s8 = terminate(s7, TermV::Goto(merge_block));
    let b = start_block(s8, second_block);
    lemma_start_block(s8, second_block);
    lemma_expr(b, second);
    let (s9, r) = lower_expr(b, second);
    assert(free(s9.blocks, result.id));
    lemma_local_store(s9, result, r);
    lemma_push_instr(s9, ValueV::StoreLocal(result, r));
    let s10 = push_instr(s9, ValueV::StoreLocal(result, r)).0;
    lemma_terminate(s10, TermV::Goto(merge_block));
    let s11 = terminate(s10, TermV::Goto(merge_block));
    let c = start_block(s11, merge_block);
    lemma_start_block(s11, merge_block);
    lemma_push_instr(c, ValueV::LoadLocal(result));
}

/// Lowering an expression keeps the names apart.
pub proof fn lemma_expr(s: LowerV, e: Expression)
    requires
        named(s),
        expr_names_ok(e),
    ensures
        named(lower_expr(s, e).0),
        extends(s, lower_expr(s, e).0),
    decreases e, 1nat,
{
    match e {
        Expression::Literal(c) => {
            lemma_push_instr(s, ValueV::Constant(c.deep_view()));
        },
        Expression::Identifier(name) => {
            lemma_push_instr(s, ValueV::LoadLocal(variable(name@)));
        },
        Expression::Binary { op, left, right } => match crate::hir::lowering::binary_operator(op) {
            Some(o) => {
                lemma_expr(s, *left);
                let (s1, l) = lower_expr(s, *left);
                lemma_expr(s1, *right);
                let (s2, r) = lower_expr(s1, *right);
                lemma_push_instr(s2, ValueV::BinaryOp { op: o, left: l, right: r });
            },
            None => {
                lemma_create_temp(s);
            },
        },
        Expression::Unary { op, argument } => {
            lemma_expr(s, *argument);
            let (s1, a) = lower_expr(s, *argument);
            lemma_push_instr(
                s1,
                ValueV::UnaryOp { op: crate::hir::lowering::unary_operator(op), operand: a },
            );
        },
        Expression::Update { increment, prefix, target } => {
            lemma_update(s, increment, prefix, target);
        },
        Expression::Assignment { .. } => {
            lemma_assignment(s, e);
        },
        Expression::Call { callee, arguments } => {
            lemma_expr(s, *callee);
            let (s1, c) = lower_expr(s, *callee);
            lemma_args(s1, arguments, 0, Seq::empty());
            let (s2, args) = lower_args(s1, arguments, 0, Seq::empty());
            lemma_push_instr(s2, ValueV::Call { callee: c, args });
        },
        Expression::Object { properties } => {
            lemma_props(s, properties, 0, Seq::empty());
            let (s1, props) = lower_props(s, properties, 0, Seq::empty());
            lemma_push_instr(s1, ValueV::Object { properties: props });
        },
        Expression::Array { elements } => {
            lemma_items(s, elements, 0, Seq::empty());
            let (s1, elems) = lower_items(s, elements, 0, Seq::empty());
            lemma_push_instr(s1, ValueV::Array { elements: elems });
        },
        Expression::StaticMember { object, property } => {
            lemma_expr(s, *object);
            let (s1, o) = lower_expr(s, *object);
            lemma_push_instr(s1, ValueV::PropertyLoad { object: o, property: property@ });
        },
        Expression::ComputedMember { object, property } => {
            lemma_expr(s, *object);
            let (s1, o) = lower_expr(s, *object);
            lemma_expr(s1, *property);
            let (s2, p) = lower_expr(s1, *property);
            lemma_push_instr(s2, ValueV::ComputedLoad { object: o, property: p });
        },
        Expression::Logical { op, left, right } => {
            lemma_expr(s, *left);
            let (s1, l) = lower_expr(s, *left);
            lemma_alloc_block(s1);
            let (s2, right_block) = alloc_block(s1);
            lemma_alloc_block(s2);
            let (s3, short_block) = alloc_block(s2);
            lemma_alloc_block(s3);
            let (s4, merge_block) = alloc_block(s3);
            lemma_create_temp(s4);
            let (s5, result) = create_temp(s4);
            let s6 = match op {
                LogicalOp::And => {
                    lemma_terminate(s5, branch_terminal(l, right_block, short_block));
                    terminate(s5, branch_terminal(l, right_block, short_block))
                },
                LogicalOp::Or => {
                    lemma_terminate(s5, branch_terminal(l, short_block, right_block));
                    terminate(s5, branch_terminal(l, short_block, right_block))
                },
                LogicalOp::Coalesce => {
                    lemma_push_instr(
                        s5,
                        ValueV::UnaryOp { op: UnaryOperator::IsNullish, operand: l },
                    );
                    let (a, nullish) = push_instr(
                        s5,
                        ValueV::UnaryOp { op: UnaryOperator::IsNullish, operand: l },
                    );
                    lemma_terminate(a, branch_terminal(nullish, right_block, short_block));
                    terminate(a, branch_terminal(nullish, right_block, short_block))
                },
            };
            lemma_diamond(s5, s6, result, short_block, l, right_block, *right, merge_block);
        },
        Expression::Conditional { test, consequent, alternate } => {
            lemma_expr(s, *test);
            let (s1, t) = lower_expr(s, *test);
            lemma_alloc_block(s1);
            let (s2, then_block) = alloc_block(s1);
            lemma_alloc_block(s2);
            let (s3, else_block) = alloc_block(s2);
            lemma_alloc_block(s3);
            let (s4, merge_block) = alloc_block(s3);
            lemma_create_temp(s4);
            let (s5, result) = create_temp(s4);
            lemma_terminate(s5, branch_terminal(t, then_block, else_block));
            let s6 = terminate(s5, branch_terminal(t, then_block, else_block));
            lemma_start_block(s6, then_block);
            lemma_expr(start_block(s6, then_block), *consequent);
            let (s7, c) = lower_expr(start_block(s6, then_block), *consequent);
            assert(free(s7.blocks, result.id));
            lemma_local_store(s7, result, c);
            lemma_push_instr(s7, ValueV::StoreLocal(result, c));
            let s8 = push_instr(s7, ValueV::StoreLocal(result, c)).0;
            lemma_terminate(s8, TermV::Goto(merge_block));
            let s9 = terminate(s8, TermV::Goto(merge_block));
            lemma_start_block(s9, else_block);
            lemma_expr(start_block(s9, else_block), *alternate);
            let (s10, a) = lower_expr(start_block(s9, else_block), *alternate);
            assert(free(s10.blocks, result.id));
            lemma_local_store(s10, result, a);
            lemma_push_instr(s10, ValueV::StoreLocal(result, a));
            let s11 = push_instr(s10, ValueV::StoreLocal(result, a)).0;
            lemma_terminate(s11, TermV::Goto(merge_block));
            let s12 = terminate(s11, TermV::Goto(merge_block));
            lemma_start_block(s12, merge_block);
            lemma_push_instr(start_block(s12, merge_block), ValueV::LoadLocal(result));
        },
        Expression::Other => {
            lemma_create_temp(s);
        },
    }
}

/// Lowering a declarator keeps the names apart.
pub proof fn lemma_declarator(s: LowerV, d: Declarator)
    requires
        named(s),
        declarator_names_ok(d),
    ensures
        named(lower_declarator(s, d)),
        extends(s, lower_declarator(s, d)),
    decreases d, 0nat,
{
    match d.init {
        Some(e) => {
            lemma_expr(s, e);
            let (s1, v) = lower_expr(s, e);
            match d.binding {
                Some(name) => {
                    lemma_push_instr(s1, ValueV::StoreLocal(variable(name@), v));
                },
                None => {},
            }
        },
        None => {
            lemma_same(s, s);
        },
    }
}

/// Lowering declarators keeps the names apart.
pub proof fn lemma_declarators(s: LowerV, v: Vec<Declarator>, i: nat)
    requires
        named(s),
        forall|k: int| 0 <= k < v@.len() ==> declarator_names_ok(#[trigger] v@[k]),
    ensures
        named(lower_declarators(s, v, i)),
        extends(s, lower_declarators(s, v, i)),
    decreases v, v.len() - i,
{
    if i >= v.len() {
        lemma_same(s, s);
    } else {
        assert(declarator_names_ok(v@[i as int]));
        lemma_declarator(s, v[i as int]);
        lemma_declarators(lower_declarator(s, v[i as int]), v, i + 1);
    }
}

/// Lowering a list of expressions keeps the names apart.
pub proof fn lemma_exprs(s: LowerV, v: Vec<Expression>, i: nat)
    requires
        named(s),
        forall|k: int| 0 <= k < v@.len() ==> expr_names_ok(#[trigger] v@[k]),
    ensures
        named(lower_exprs(s, v, i)),
        extends(s, lower_exprs(s, v, i)),
    decreases v, v.len() - i,
{
    if i >= v.len() {
        lemma_same(s, s);
    } else {
        assert(expr_names_ok(v@[i as int]));
        lemma_expr(s, v[i as int]);
        lemma_exprs(lower_expr(s, v[i as int]).0, v, i + 1);
    }
}

/// Lowering a loop initialiser keeps the names apart.
pub proof fn lemma_for_init(s: LowerV, init: ForInit)
    requires
        named(s),
        for_init_names_ok(init),
    ensures
        named(lower_for_init(s, init)),
        extends(s, lower_for_init(s, init)),
    decreases init, 0nat,
{
    match init {
        ForInit::Declaration(ds) => {
            lemma_declarators(s, ds, 0);
        },
        ForInit::Sequence(es) => {
            lemma_exprs(s, es, 0);
        },
        ForInit::Expression(e) => {
            if init_is_lowered(e) {
                lemma_expr(s, e);
            } else {
                lemma_same(s, s);
            }
        },
    }
}

/// Making blocks keeps the names apart.
pub proof fn lemma_alloc_blocks(s: LowerV, n: nat)
    requires
        named(s),
    ensures
        named(alloc_blocks(s, n)),
        extends(s, alloc_blocks(s, n)),
        alloc_blocks(s, n).blocks.len() == s.blocks.len() + n,
    decreases n,
{
    if n == 0 {
        lemma_same(s, s);
    } else {
        lemma_alloc_block(s);
        lemma_alloc_blocks(alloc_block(s).0, (n - 1) as nat);
    }
}

/// Lowering the tests of switch cases keeps the names apart.
pub proof fn lemma_case_tests(
    s: LowerV,
    cases: Vec<SwitchCase>,
    first: nat,
    i: nat,
    acc: Seq<(IdentV, nat)>,
)
    requires
        named(s),
        forall|k: int| 0 <= k < cases@.len() ==> case_names_ok(#[trigger] cases@[k]),
    ensures
        named(lower_case_tests(s, cases, first, i, acc).0),
        extends(s, lower_case_tests(s, cases, first, i, acc).0),
    decreases cases, cases.len() - i,
{
    if i >= cases.len() {
        lemma_same(s, s);
    } else {
        assert(case_names_ok(cases@[i as int]));
        match cases[i as int].test {
            Some(e) => {
                lemma_expr(s, e);
                let (s1, p) = lower_expr(s, e);
                lemma_case_tests(s1, cases, first, i + 1, acc.push((p, first + i)));
            },
            None => {
                lemma_case_tests(s, cases, first, i + 1, acc);
            },
        }
    }
}

/// Lowering the bodies of switch cases keeps the names apart.
pub proof fn lemma_case_bodies(s: LowerV, cases: Vec<SwitchCase>, first: nat, exit: nat, i: nat)
    requires
        named(s),
        first + cases.len() <= s.blocks.len(),
        forall|k: int| 0 <= k < cases@.len() ==> case_names_ok(#[trigger] cases@[k]),
    ensures
        named(lower_case_bodies(s, cases, first, exit, i)),
        extends(s, lower_case_bodies(s, cases, first, exit, i)),
    decreases cases, cases.len() - i,
{
    if i >= cases.len() {
        lemma_same(s, s);
    } else {
        assert(case_names_ok(cases@[i as int]));
        lemma_start_block(s, first + i);
        lemma_stmts(start_block(s, first + i), cases[i as int].consequent, 0);
        let s1 = lower_stmts(start_block(s, first + i), cases[i as int].consequent, 0);
        let next = if i + 1 < cases.len() {
            first + i + 1
        } else {
            exit
        };
        lemma_close_branch(s1, s1.current, next);
        lemma_case_bodies(close_branch(s1, s1.current, next), cases, first, exit, i + 1);
    }
}

/// Lowering statements keeps the names apart.
pub proof fn lemma_stmts(s: LowerV, v: Vec<Statement>, i: nat)
    requires
        named(s),
        forall|k: int| 0 <= k < v@.len() ==> stmt_names_ok(#[trigger] v@[k]),
    ensures
        named(lower_stmts(s, v, i)),
        extends(s, lower_stmts(s, v, i)),
    decreases v, v.len() - i,
{
    if i >= v.len() {
        lemma_same(s, s);
    } else {
        assert(stmt_names_ok(v@[i as int]));
        lemma_stmt(s, v[i as int]);
        lemma_stmts(lower_stmt(s, v[i as int]), v, i + 1);
    }
}

/// Lowering a statement keeps the names apart.
pub proof fn lemma_stmt(s: LowerV, st: Statement)
    requires
        named(s),
        stmt_names_ok(st),
    ensures
        named(lower_stmt(s, st)),
        extends(s, lower_stmt(s, st)),
    decreases st, 0nat,
{
    match st {
        Statement::Return(argument) => {
            match argument {
                Some(e) => {
                    lemma_expr(s, e);
                    let (s1, p) = lower_expr(s, e);
                    lemma_terminate(s1, TermV::Return(Some(p)));
                },
                None => {
                    lemma_terminate(s, TermV::Return(None));
                },
            }
        },
        Statement::VariableDeclaration(ds) => {
            lemma_declarators(s, ds, 0);
        },
        Statement::Expression(e) => {
            lemma_expr(s, e);
        },
        Statement::If { test, consequent, alternate } => {
            lemma_expr(s, test);
            let (s1, t) = lower_expr(s, test);
            lemma_alloc_block(s1);
            let (s2, then_block) = alloc_block(s1);
            lemma_alloc_block(s2);
            let (s3, else_block) = alloc_block(s2);
            lemma_alloc_block(s3);
            let (s4, merge_block) = alloc_block(s3);
            lemma_terminate(s4, branch_terminal(t, then_block, else_block));
            let s5 = terminate(s4, branch_terminal(t, then_block, else_block));
            lemma_start_block(s5, then_block);
            lemma_stmt(start_block(s5, then_block), *consequent);
            let s6 = lower_stmt(start_block(s5, then_block), *consequent);
            let then_jumped = ends_in_jump(*consequent, s5.loops);
            lemma_close_after(s6, then_jumped, merge_block);
            lemma_start_block(close_after(s6, then_jumped, merge_block), else_block);
            let s7 = start_block(close_after(s6, then_jumped, merge_block), else_block);
            let s8 = match alternate {
                Some(a) => {
                    lemma_stmt(s7, *a);
                    lemma_close_after(lower_stmt(s7, *a), ends_in_jump(*a, s7.loops), merge_block);
                    close_after(lower_stmt(s7, *a), ends_in_jump(*a, s7.loops), merge_block)
                },
                None => {
                    lemma_close_after(s7, false, merge_block);
                    close_after(s7, false, merge_block)
                },
            };
            lemma_start_block(s8, merge_block);
        },
        Statement::While { test, body } => {
            lemma_alloc_block(s);
            let (s1, header) = alloc_block(s);
            lemma_alloc_block(s1);
            let (s2, body_block) = alloc_block(s1);
            lemma_alloc_block(s2);
            let (s3, exit) = alloc_block(s2);
            lemma_terminate(s3, TermV::Goto(header));
            let s4 = terminate(s3, TermV::Goto(header));
            lemma_start_block(s4, header);
            lemma_expr(start_block(s4, header), test);
            let (s5, t) = lower_expr(start_block(s4, header), test);
            lemma_terminate(s5, branch_terminal(t, body_block, exit));
            let s6 = terminate(s5, branch_terminal(t, body_block, exit));
            lemma_start_block(s6, body_block);
            let l = LoopV { break_target: exit, continue_target: Some(header) };
            lemma_loops(start_block(s6, body_block), l, header);
            lemma_loops(push_loop(start_block(s6, body_block), l), l, header);
            let s7 = mark_header(push_loop(start_block(s6, body_block), l), header);
            lemma_stmt(s7, *body);
            lemma_loops(lower_stmt(s7, *body), l, header);
            let s8 = pop_loop(lower_stmt(s7, *body));
            lemma_close_branch(s8, s8.current, header);
            lemma_start_block(close_branch(s8, s8.current, header), exit);
        },
        Statement::For { init, test, update, body } => {
            let s0 = match init {
                Some(i) => {
                    lemma_for_init(s, i);
                    lower_for_init(s, i)
                },
                None => {
                    lemma_same(s, s);
                    s
                },
            };
            lemma_alloc_block(s0);
            let (s1, header) = alloc_block(s0);
            lemma_alloc_block(s1);
            let (s2, body_block) = alloc_block(s1);
            lemma_alloc_block(s2);
            let (s3, update_block) = alloc_block(s2);
            lemma_alloc_block(s3);
            let (s4, exit) = alloc_block(s3);
            lemma_terminate(s4, TermV::Goto(header));
            lemma_start_block(terminate(s4, TermV::Goto(header)), header);
            let s5 = start_block(terminate(s4, TermV::Goto(header)), header);
            let (s6, t) = match test {
                Some(e) => {
                    lemma_expr(s5, e);
                    lower_expr(s5, e)
                },
                None => {
                    lemma_push_instr(s5, ValueV::Constant(ConstV::Boolean(true)));
                    push_instr(s5, ValueV::Constant(ConstV::Boolean(true)))
                },
            };
            lemma_terminate(s6, branch_terminal(t, body_block, exit));
            let s7 = terminate(s6, branch_terminal(t, body_block, exit));
            lemma_start_block(s7, body_block);
            let l = LoopV { break_target: exit, continue_target: Some(update_block) };
            lemma_loops(start_block(s7, body_block), l, header);
            lemma_loops(push_loop(start_block(s7, body_block), l), l, header);
            let s8 = mark_header(push_loop(start_block(s7, body_block), l), header);
            lemma_stmt(s8, *body);
            lemma_loops(lower_stmt(s8, *body), l, header);
            let s9 = pop_loop(lower_stmt(s8, *body));
            lemma_close_branch(s9, s9.current, update_block);
            lemma_start_block(close_branch(s9, s9.current, update_block), update_block);
            let s10 = start_block(close_branch(s9, s9.current, update_block), update_block);
            let s11 = match update {
                Some(e) => {
                    lemma_expr(s10, e);
                    lower_expr(s10, e).0
                },
                None => s10,
            };
            lemma_terminate(s11, TermV::Goto(header));
            lemma_start_block(terminate(s11, TermV::Goto(header)), exit);
        },
        Statement::Block(stmts) => {
            lemma_stmts(s, stmts, 0);
        },
        Statement::Break => {
            if s.loops.len() > 0 {
                lemma_terminate(s, TermV::Goto(s.loops.last().break_target));
            } else {
                lemma_same(s, s);
            }
        },
        Statement::Continue => {
            match continue_target(s.loops) {
                Some(t) => {
                    lemma_terminate(s, TermV::Goto(t));
                },
                None => {
                    lemma_same(s, s);
                },
            }
        },
        Statement::Switch { discriminant, cases } => {
            lemma_expr(s, discriminant);
            let (s1, d) = lower_expr(s, discriminant);
            lemma_alloc_block(s1);
            let (s2, exit) = alloc_block(s1);
            let l = LoopV { break_target: exit, continue_target: None };
            lemma_loops(s2, l, 0);
            let s3 = push_loop(s2, l);
            let first = s3.blocks.len();
            lemma_alloc_blocks(s3, cases@.len());
            let s4 = alloc_blocks(s3, cases@.len());
            lemma_case_tests(s4, cases, first, 0, Seq::empty());
            let (s5, table) = lower_case_tests(s4, cases, first, 0, Seq::empty());
            let term = TermV::Switch {
                test: d,
                cases: table,
                default: default_block(cases, first, 0, exit),
                merge_target: Some(exit),
            };
            lemma_terminate(s5, term);
            let s6 = terminate(s5, term);
            lemma_case_bodies(s6, cases, first, exit, 0);
            let s7 = lower_case_bodies(s6, cases, first, exit, 0);
            lemma_loops(s7, l, 0);
            lemma_start_block(pop_loop(s7), exit);
        },
        Statement::Other => {
            lemma_same(s, s);
        },
    }
}

/// Unpacking a parameter keeps the names apart.
pub proof fn lemma_param(s: LowerV, p: Param, idx: nat)
    requires
        named(s),
        param_names_ok(p),
    ensures
        named(lower_param(s, p, idx)),
        extends(s, lower_param(s, p, idx)),
{
    match p {
        Param::Identifier(_) => {
            lemma_same(s, s);
        },
        Param::Pattern(t) => {
            lemma_push_instr(s, ValueV::LoadLocal(param_ident(p, idx)));
            let (a, loaded) = push_instr(s, ValueV::LoadLocal(param_ident(p, idx)));
            lemma_store_target(a, t, loaded);
        },
    }
}

/// Unpacking the parameters keeps the names apart.
pub proof fn lemma_params(s: LowerV, v: Vec<Param>, i: nat)
    requires
        named(s),
        forall|k: int| 0 <= k < v@.len() ==> param_names_ok(#[trigger] v@[k]),
    ensures
        named(lower_params(s, v, i)),
        extends(s, lower_params(s, v, i)),
    decreases v.len() - i,
{
    if i >= v.len() {
        lemma_same(s, s);
    } else {
        assert(param_names_ok(v@[i as int]));
        lemma_param(s, v[i as int], i);
        lemma_params(lower_param(s, v[i as int], i), v, i + 1);
    }
}

/// The state before anything is lowered keeps the names apart.
pub proof fn lemma_initial()
    ensures
        named(initial_state()),
{
    reveal(named);
    let s = initial_state();
    assert forall|b: int, i: int| !at(s.blocks, b, i) by {
        if 0 <= b < s.blocks.len() {
            assert(s.blocks[b].instructions.len() == 0);
        }
    }
}

/// In the graph of a function that assigns no variable named like a
/// temporary, no version has been given out: every instruction defines a
/// temporary of its own, and none of these temporaries is stored into.
pub proof fn lemma_lowered_unassigned(f: Function)
    requires
        function_names_ok(f),
    ensures
        versions_unassigned(lower_function(f)),
        distinct_versions(lower_function(f).blocks),
{
    lemma_initial();
    let s0 = initial_state();
    lemma_params(s0, f.params, 0);
    let s1 = lower_params(s0, f.params, 0);
    lemma_stmts(s1, f.body, 0);
    let s2 = lower_stmts(s1, f.body, 0);
    let blocks = lower_function(f).blocks;
    assert(blocks == s2.blocks);
    reveal(named);
    let linked = with_preds(blocks);
    let names = globals_of(linked).names;
    let ones = Seq::new(names.len(), |k: int| 1usize);
    assert forall|b: int, i: int|
        #![trigger lvalue_at(blocks, b, i)]
        at(blocks, b, i) implies (name_index(names, lvalue_at(blocks, b, i).name, 0) matches Some(
        k,
    ) ==> lvalue_at(blocks, b, i).id < ones[k as int]) by {
        let lv = lvalue_at(blocks, b, i);
        lemma_name_index(names, lv.name, 0);
        if name_index(names, lv.name, 0) is Some && lv.id >= 1 {
            lemma_promotable_is_stored(linked, lv.name);
            let (sb, si) = choose|sb: int, si: int|
                at(linked, sb, si) && (#[trigger] store_target_at(linked, sb, si) matches Some(t)
                    && t.name == lv.name);
            assert(store_target_at(blocks, sb, si) == store_target_at(linked, sb, si));
            assert(at(blocks, sb, si));
            assert(store_name_ok(blocks, s2.next_temp, lv.name));
            assert(lv.name == temp_text(lv.id));
            assert(is_temp_text(lv.name));
            let m = choose|m: nat|
                lv.name == temp_text(m) && m < s2.next_temp && #[trigger] free(blocks, m);
            lemma_temp_text_injective(m, lv.id);
            assert(false);
        }
    }
    assert(versions_below(names, blocks, ones));
    assert(single_versions(blocks));
}

} // verus!
