//! Whether a function is small enough to lower: the temporaries that
//! lowering takes are counted ahead, with overflow detected.

use crate::ast::{
    ArrayItem, AssignmentTarget, CallArgument, Declarator, Expression, ForInit, Function, Param,
    PropertyKey, PropertyNode, Statement, SwitchCase,
};
use crate::hir::lowering::{
    arg_cost, args_cost, case_bodies_cost, case_tests_cost, declarator_cost, declarators_cost,
    expr_cost, exprs_cost, for_init_cost, function_cost, item_cost, items_cost, key_cost,
    param_cost, params_cost, prop_cost, props_cost, stmt_cost, stmts_cost, target_cost,
};
use vstd::prelude::*;

verus! {

broadcast use vstd::std_specs::vec::group_vec_axioms;

/// A natural number as a machine integer, where it fits.
pub open spec fn fits(n: nat) -> Option<usize> {
    if n <= usize::MAX {
        Some(n as usize)
    } else {
        None
    }
}

/// Adds two counts, detecting overflow.
fn add_fits(a: Option<usize>, b: Option<usize>, Ghost(x): Ghost<nat>, Ghost(y): Ghost<nat>) -> (r:
    Option<usize>)
    requires
        a == fits(x),
        b == fits(y),
    ensures
        r == fits(x + y),
{
    match (a, b) {
        (Some(m), Some(n)) => {
            if m > usize::MAX - n {
                None
            } else {
                Some(m + n)
            }
        },
        _ => None,
    }
}

/// A length times a small factor, detecting overflow.
fn scaled(len: usize, factor: usize) -> (r: Option<usize>)
    requires
        1 <= factor <= 3,
    ensures
        r == fits((factor * len) as nat),
{
    if len > usize::MAX / factor {
        assert(factor * len > usize::MAX) by (nonlinear_arith)
            requires
                len > usize::MAX / factor,
                1 <= factor <= 3,
        ;
        None
    } else {
        assert(factor * len <= usize::MAX) by (nonlinear_arith)
            requires
                len <= usize::MAX / factor,
                1 <= factor <= 3,
        ;
        Some(factor * len)
    }
}

/// Counts [`target_cost`].
pub fn target_cost_of(t: &AssignmentTarget) -> (r: Option<usize>)
    ensures
        r == fits(target_cost(*t)),
    decreases t,
{
    match t {
        AssignmentTarget::Identifier(_) => Some(1),
        AssignmentTarget::StaticMember { object, .. } => add_fits(
            Some(1),
            expr_cost_of(object),
            Ghost(1),
            Ghost(expr_cost(**object)),
        ),
        AssignmentTarget::ComputedMember { object, property } => {
            let a = add_fits(Some(1), expr_cost_of(object), Ghost(1), Ghost(expr_cost(**object)));
            add_fits(
                a,
                expr_cost_of(property),
                Ghost(1 + expr_cost(**object)),
                Ghost(expr_cost(**property)),
            )
        },
        AssignmentTarget::ArrayPattern(elements) => scaled(elements.len(), 3),
        AssignmentTarget::ObjectPattern(properties) => scaled(properties.len(), 2),
        AssignmentTarget::Other => Some(0),
    }
}

/// Counts [`expr_cost`].
pub fn expr_cost_of(e: &Expression) -> (r: Option<usize>)
    ensures
        r == fits(expr_cost(*e)),
    decreases e,
{
    match e {
        Expression::Literal(_) => Some(1),
        Expression::Identifier(_) => Some(1),
        Expression::Binary { left, right, .. } => {
            let a = add_fits(Some(1), expr_cost_of(left), Ghost(1), Ghost(expr_cost(**left)));
            add_fits(a, expr_cost_of(right), Ghost(1 + expr_cost(**left)), Ghost(expr_cost(**right)))
        },
        Expression::Unary { argument, .. } => add_fits(
            Some(1),
            expr_cost_of(argument),
            Ghost(1),
            Ghost(expr_cost(**argument)),
        ),
        Expression::Update { .. } => Some(4),
        Expression::Assignment { target, value, .. } => {
            let a = add_fits(Some(2), expr_cost_of(value), Ghost(2), Ghost(expr_cost(**value)));
            add_fits(
                a,
                target_cost_of(target),
                Ghost(2 + expr_cost(**value)),
                Ghost(target_cost(**target)),
            )
        },
        Expression::Call { callee, arguments } => {
            let a = add_fits(Some(1), expr_cost_of(callee), Ghost(1), Ghost(expr_cost(**callee)));
            add_fits(
                a,
                args_cost_of(arguments),
                Ghost(1 + expr_cost(**callee)),
                Ghost(args_cost(*arguments, 0)),
            )
        },
        Expression::Object { properties } => add_fits(
            Some(1),
            props_cost_of(properties),
            Ghost(1),
            Ghost(props_cost(*properties, 0)),
        ),
        Expression::Array { elements } => add_fits(
            Some(1),
            items_cost_of(elements),
            Ghost(1),
            Ghost(items_cost(*elements, 0)),
        ),
        Expression::StaticMember { object, .. } => add_fits(
            Some(1),
            expr_cost_of(object),
            Ghost(1),
            Ghost(expr_cost(**object)),
        ),
        Expression::ComputedMember { object, property } => {
            let a = add_fits(Some(1), expr_cost_of(object), Ghost(1), Ghost(expr_cost(**object)));
            add_fits(
                a,
                expr_cost_of(property),
                Ghost(1 + expr_cost(**object)),
                Ghost(expr_cost(**property)),
            )
        },
        Expression::Logical { left, right, .. } => {
            let a = add_fits(Some(5), expr_cost_of(left), Ghost(5), Ghost(expr_cost(**left)));
            add_fits(a, expr_cost_of(right), Ghost(5 + expr_cost(**left)), Ghost(expr_cost(**right)))
        },
        Expression::Conditional { test, consequent, alternate } => {
            let a = add_fits(Some(4), expr_cost_of(test), Ghost(4), Ghost(expr_cost(**test)));
            let b = add_fits(
                a,
                expr_cost_of(consequent),
                Ghost(4 + expr_cost(**test)),
                Ghost(expr_cost(**consequent)),
            );
            add_fits(
                b,
                expr_cost_of(alternate),
                Ghost(4 + expr_cost(**test) + expr_cost(**consequent)),
                Ghost(expr_cost(**alternate)),
            )
        },
        Expression::Other => Some(1),
    }
}

fn arg_cost_of(a: &CallArgument) -> (r: Option<usize>)
    ensures
        r == fits(arg_cost(*a)),
    decreases a,
{
    match a {
        CallArgument::Regular(e) => expr_cost_of(e),
        CallArgument::Spread(e) => expr_cost_of(e),
    }
}

fn key_cost_of(key: &PropertyKey) -> (r: Option<usize>)
    ensures
        r == fits(key_cost(*key)),
    decreases key,
{
    match key {
        PropertyKey::Computed(k) => expr_cost_of(k),
        _ => Some(0),
    }
}

fn prop_cost_of(p: &PropertyNode) -> (r: Option<usize>)
    ensures
        r == fits(prop_cost(*p)),
    decreases p,
{
    match p {
        PropertyNode::KeyValue { key, value } => add_fits(
            key_cost_of(key),
            expr_cost_of(value),
            Ghost(key_cost(*key)),
            Ghost(expr_cost(*value)),
        ),
        PropertyNode::Spread(e) => expr_cost_of(e),
    }
}

fn item_cost_of(a: &ArrayItem) -> (r: Option<usize>)
    ensures
        r == fits(item_cost(*a)),
    decreases a,
{
    match a {
        ArrayItem::Regular(e) => expr_cost_of(e),
        ArrayItem::Spread(e) => expr_cost_of(e),
        ArrayItem::Hole => Some(0),
    }
}

fn declarator_cost_of(d: &Declarator) -> (r: Option<usize>)
    ensures
        r == fits(declarator_cost(*d)),
    decreases d,
{
    match &d.init {
        Some(e) => add_fits(Some(1), expr_cost_of(e), Ghost(1), Ghost(expr_cost(*e))),
        None => Some(0),
    }
}

fn case_test_cost_of(c: &SwitchCase) -> (r: Option<usize>)
    ensures
        r == fits(
            match c.test {
                Some(e) => expr_cost(e),
                None => 0,
            },
        ),
    decreases c,
{
    match &c.test {
        Some(e) => expr_cost_of(e),
        None => Some(0),
    }
}

fn param_cost_of(p: &Param) -> (r: Option<usize>)
    ensures
        r == fits(param_cost(*p)),
{
    match p {
        Param::Identifier(_) => Some(0),
        Param::Pattern(t) => add_fits(Some(1), target_cost_of(t), Ghost(1), Ghost(target_cost(*t))),
    }
}

fn for_init_cost_of(init: &ForInit) -> (r: Option<usize>)
    ensures
        r == fits(for_init_cost(*init)),
    decreases init,
{
    match init {
        ForInit::Declaration(ds) => declarators_cost_of(ds),
        ForInit::Sequence(es) => exprs_cost_of(es),
        ForInit::Expression(e) => expr_cost_of(e),
    }
}

/// Counts the cost of call arguments.
pub fn args_cost_of(v: &Vec<CallArgument>) -> (r: Option<usize>)
    ensures
        r == fits(args_cost(*v, 0)),
    decreases v, 0nat,
{
    let mut acc: Option<usize> = Some(0);
    let mut i: usize = v.len();
    while i > 0
        invariant
            i <= v.len(),
            acc == fits(args_cost(*v, i as nat)),
        decreases i,
    {
        i -= 1;
        let c = arg_cost_of(&v[i]);
        acc = add_fits(c, acc, Ghost(arg_cost(v[i as int])), Ghost(args_cost(*v, (i + 1) as nat)));
    }
    acc
}

/// Counts the cost of object-literal members.
pub fn props_cost_of(v: &Vec<PropertyNode>) -> (r: Option<usize>)
    ensures
        r == fits(props_cost(*v, 0)),
    decreases v, 0nat,
{
    let mut acc: Option<usize> = Some(0);
    let mut i: usize = v.len();
    while i > 0
        invariant
            i <= v.len(),
            acc == fits(props_cost(*v, i as nat)),
        decreases i,
    {
        i -= 1;
        let c = prop_cost_of(&v[i]);
        acc = add_fits(c, acc, Ghost(prop_cost(v[i as int])), Ghost(props_cost(*v, (i + 1) as nat)));
    }
    acc
}

/// Counts the cost of array-literal elements.
pub fn items_cost_of(v: &Vec<ArrayItem>) -> (r: Option<usize>)
    ensures
        r == fits(items_cost(*v, 0)),
    decreases v, 0nat,
{
    let mut acc: Option<usize> = Some(0);
    let mut i: usize = v.len();
    while i > 0
        invariant
            i <= v.len(),
            acc == fits(items_cost(*v, i as nat)),
        decreases i,
    {
        i -= 1;
        let c = item_cost_of(&v[i]);
        acc = add_fits(c, acc, Ghost(item_cost(v[i as int])), Ghost(items_cost(*v, (i + 1) as nat)));
    }
    acc
}

/// Counts the cost of declarators.
pub fn declarators_cost_of(v: &Vec<Declarator>) -> (r: Option<usize>)
    ensures
        r == fits(declarators_cost(*v, 0)),
    decreases v, 0nat,
{
    let mut acc: Option<usize> = Some(0);
    let mut i: usize = v.len();
    while i > 0
        invariant
            i <= v.len(),
            acc == fits(declarators_cost(*v, i as nat)),
        decreases i,
    {
        i -= 1;
        let c = declarator_cost_of(&v[i]);
        acc = add_fits(c, acc, Ghost(declarator_cost(v[i as int])), Ghost(declarators_cost(*v, (i + 1) as nat)));
    }
    acc
}

/// Counts the cost of a list of expressions.
pub fn exprs_cost_of(v: &Vec<Expression>) -> (r: Option<usize>)
    ensures
        r == fits(exprs_cost(*v, 0)),
    decreases v, 0nat,
{
    let mut acc: Option<usize> = Some(0);
    let mut i: usize = v.len();
    while i > 0
        invariant
            i <= v.len(),
            acc == fits(exprs_cost(*v, i as nat)),
        decreases i,
    {
        i -= 1;
        let c = expr_cost_of(&v[i]);
        acc = add_fits(c, acc, Ghost(expr_cost(v[i as int])), Ghost(exprs_cost(*v, (i + 1) as nat)));
    }
    acc
}

/// Counts the cost of a list of statements.
pub fn stmts_cost_of(v: &Vec<Statement>) -> (r: Option<usize>)
    ensures
        r == fits(stmts_cost(*v, 0)),
    decreases v, 0nat,
{
    let mut acc: Option<usize> = Some(0);
    let mut i: usize = v.len();
    while i > 0
        invariant
            i <= v.len(),
            acc == fits(stmts_cost(*v, i as nat)),
        decreases i,
    {
        i -= 1;
        let c = stmt_cost_of(&v[i]);
        acc = add_fits(c, acc, Ghost(stmt_cost(v[i as int])), Ghost(stmts_cost(*v, (i + 1) as nat)));
    }
    acc
}

/// Counts the cost of the tests of switch cases.
pub fn case_tests_cost_of(v: &Vec<SwitchCase>) -> (r: Option<usize>)
    ensures
        r == fits(case_tests_cost(*v, 0)),
    decreases v, 0nat,
{
    let mut acc: Option<usize> = Some(0);
    let mut i: usize = v.len();
    while i > 0
        invariant
            i <= v.len(),
            acc == fits(case_tests_cost(*v, i as nat)),
        decreases i,
    {
        i -= 1;
        let c = case_test_cost_of(&v[i]);
        acc = add_fits(c, acc, Ghost(match v[i as int].test { Some(e) => expr_cost(e), None => 0 }), Ghost(case_tests_cost(*v, (i + 1) as nat)));
    }
    acc
}

/// Counts the cost of the bodies of switch cases.
pub fn case_bodies_cost_of(v: &Vec<SwitchCase>) -> (r: Option<usize>)
    ensures
        r == fits(case_bodies_cost(*v, 0)),
    decreases v, 0nat,
{
    let mut acc: Option<usize> = Some(0);
    let mut i: usize = v.len();
    while i > 0
        invariant
            i <= v.len(),
            acc == fits(case_bodies_cost(*v, i as nat)),
        decreases i,
    {
        i -= 1;
        let c = stmts_cost_of(&v[i].consequent);
        acc = add_fits(c, acc, Ghost(stmts_cost(v[i as int].consequent, 0)), Ghost(case_bodies_cost(*v, (i + 1) as nat)));
    }
    acc
}

/// Counts the cost of parameters.
pub fn params_cost_of(v: &Vec<Param>) -> (r: Option<usize>)
    ensures
        r == fits(params_cost(*v, 0)),
    decreases 0nat,
{
    let mut acc: Option<usize> = Some(0);
    let mut i: usize = v.len();
    while i > 0
        invariant
            i <= v.len(),
            acc == fits(params_cost(*v, i as nat)),
        decreases i,
    {
        i -= 1;
        let c = param_cost_of(&v[i]);
        acc = add_fits(c, acc, Ghost(param_cost(v[i as int])), Ghost(params_cost(*v, (i + 1) as nat)));
    }
    acc
}

/// Counts [`stmt_cost`].
pub fn stmt_cost_of(st: &Statement) -> (r: Option<usize>)
    ensures
        r == fits(stmt_cost(*st)),
    decreases st,
{
    match st {
        Statement::Return(argument) => match argument {
            Some(e) => expr_cost_of(e),
            None => Some(0),
        },
        Statement::VariableDeclaration(ds) => declarators_cost_of(ds),
        Statement::Expression(e) => expr_cost_of(e),
        Statement::If { test, consequent, alternate } => {
            let a = add_fits(
                expr_cost_of(test),
                stmt_cost_of(consequent),
                Ghost(expr_cost(*test)),
                Ghost(stmt_cost(**consequent)),
            );
            let (b, Ghost(y)): (Option<usize>, Ghost<nat>) = match alternate {
                Some(alt) => (stmt_cost_of(alt), Ghost(stmt_cost(**alt))),
                None => (Some(0), Ghost(0)),
            };
            add_fits(a, b, Ghost(expr_cost(*test) + stmt_cost(**consequent)), Ghost(y))
        },
        Statement::While { test, body } => add_fits(
            expr_cost_of(test),
            stmt_cost_of(body),
            Ghost(expr_cost(*test)),
            Ghost(stmt_cost(**body)),
        ),
        Statement::For { init, test, update, body } => {
            let (a, Ghost(x)): (Option<usize>, Ghost<nat>) = match init {
                Some(i) => (for_init_cost_of(i), Ghost(for_init_cost(*i))),
                None => (Some(0), Ghost(0)),
            };
            let (b, Ghost(y)): (Option<usize>, Ghost<nat>) = match test {
                Some(e) => (expr_cost_of(e), Ghost(expr_cost(*e))),
                None => (Some(1), Ghost(1)),
            };
            let (c, Ghost(z)): (Option<usize>, Ghost<nat>) = match update {
                Some(e) => (expr_cost_of(e), Ghost(expr_cost(*e))),
                None => (Some(0), Ghost(0)),
            };
            let ab = add_fits(a, b, Ghost(x), Ghost(y));
            let abc = add_fits(ab, c, Ghost(x + y), Ghost(z));
            add_fits(abc, stmt_cost_of(body), Ghost(x + y + z), Ghost(stmt_cost(**body)))
        },
        Statement::Block(stmts) => stmts_cost_of(stmts),
        Statement::Break => Some(0),
        Statement::Continue => Some(0),
        Statement::Switch { discriminant, cases } => {
            let a = add_fits(
                expr_cost_of(discriminant),
                case_tests_cost_of(cases),
                Ghost(expr_cost(*discriminant)),
                Ghost(case_tests_cost(*cases, 0)),
            );
            add_fits(
                a,
                case_bodies_cost_of(cases),
                Ghost(expr_cost(*discriminant) + case_tests_cost(*cases, 0)),
                Ghost(case_bodies_cost(*cases, 0)),
            )
        },
        Statement::Other => Some(0),
    }
}

/// Whether lowering `func` stays within the machine's integers.
pub fn function_fits(func: &Function) -> (b: bool)
    ensures
        b == (function_cost(*func) <= usize::MAX),
{
    let r = add_fits(
        params_cost_of(&func.params),
        stmts_cost_of(&func.body),
        Ghost(params_cost(func.params, 0)),
        Ghost(stmts_cost(func.body, 0)),
    );
    r.is_some()
}

} // verus!
