//! Lowering of the surface tree to the control-flow graph.
//!
//! Lowering is defined twice: as a mathematical function that threads
//! a model of the builder state through the tree ([`lower_expr`],
//! [`lower_stmt`], ...), and as the executable builder, whose contracts say
//! that it computes exactly that function.

use crate::ast::{
    ArrayItem, AssignOp, AssignmentTarget, BinaryOp, CallArgument, Declarator, Expression, ForInit,
    Function, LogicalOp, Param, PropertyKey, PropertyNode, Statement, SwitchCase, TargetElement,
    TargetProperty, UnaryOp,
};
use crate::hir::{
    at, distinct_versions, lemma_deep_push, lemma_deep_update, lvalue_at, single_versions,
    term_successors, well_formed, ArgV, Argument, ArrayElement, BasicBlock, BinaryOperator,
    BlockId, BlockV, ConstV, Constant, ElemV, FuncV, HIRFunction, IdentV, Identifier, InstrId,
    InstrV, Instruction, InstructionValue, KeyV, ObjectProperty, ObjectPropertyKey, Place, PropV,
    TermV, Terminal, UnaryOperator, ValueV,
};
use crate::text::{decimal, push_decimal};
use vstd::prelude::*;
use vstd::string::*;

verus! {

broadcast use vstd::std_specs::vec::group_vec_axioms;

/// Where `break` and `continue` lead inside a loop or switch.
#[derive(Clone, Copy)]
pub struct LoopInfo {
    pub break_target: BlockId,
    pub continue_target: Option<BlockId>,
}

pub ghost struct LoopV {
    pub break_target: nat,
    pub continue_target: Option<nat>,
}

impl DeepView for LoopInfo {
    type V = LoopV;

    open spec fn deep_view(&self) -> LoopV {
        LoopV {
            break_target: self.break_target.deep_view(),
            continue_target: self.continue_target.deep_view(),
        }
    }
}

/// Model of the builder: the blocks made so far, the cursor, the counters for
/// instruction ids and temporaries, the enclosing loops and switches, which
/// blocks have received their terminal, and the loop headers.
pub ghost struct LowerV {
    pub blocks: Seq<BlockV>,
    pub current: nat,
    pub next_instr: nat,
    pub next_temp: nat,
    pub loops: Seq<LoopV>,
    pub terminated: Seq<bool>,
    pub headers: Seq<nat>,
}

/// A block without instructions that returns nothing.
pub open spec fn empty_block(id: nat) -> BlockV {
    BlockV { id, instructions: Seq::empty(), terminal: TermV::Return(None), preds: Seq::empty() }
}

/// The builder before anything is lowered: the entry block alone.
pub open spec fn initial_state() -> LowerV {
    LowerV {
        blocks: seq![empty_block(0)],
        current: 0,
        next_instr: 0,
        next_temp: 0,
        loops: Seq::empty(),
        terminated: seq![false],
        headers: Seq::empty(),
    }
}

/// Adds an empty block and returns its id.
#[verifier::opaque]
pub open spec fn alloc_block(s: LowerV) -> (LowerV, nat) {
    (
        LowerV {
            blocks: s.blocks.push(empty_block(s.blocks.len())),
            terminated: s.terminated.push(false),
            ..s
        },
        s.blocks.len(),
    )
}

/// The name of the `n`-th temporary: `t` followed by the numeral of `n`.
pub open spec fn temp_text(n: nat) -> Seq<char> {
    seq!['t'] + decimal(n)
}

/// Takes the next temporary.
#[verifier::opaque]
pub open spec fn create_temp(s: LowerV) -> (LowerV, IdentV) {
    (LowerV { next_temp: s.next_temp + 1, ..s }, IdentV { name: temp_text(s.next_temp), id: s.next_temp })
}

/// Appends `value` to the current block, assigned to a fresh temporary.
#[verifier::opaque]
pub open spec fn push_instr(s: LowerV, value: ValueV) -> (LowerV, IdentV) {
    let (s1, t) = create_temp(s);
    let b = s1.blocks[s1.current as int];
    let instr = InstrV { id: s1.next_instr, lvalue: t, value, scope: None };
    (
        LowerV {
            blocks: s1.blocks.update(
                s1.current as int,
                BlockV { instructions: b.instructions.push(instr), ..b },
            ),
            next_instr: s1.next_instr + 1,
            ..s1
        },
        t,
    )
}

/// Closes the current block with `t` and moves the cursor to a fresh block.
#[verifier::opaque]
pub open spec fn terminate(s: LowerV, t: TermV) -> LowerV {
    let (s2, fresh) = alloc_block(terminate_prefix(s, t));
    LowerV { current: fresh, ..s2 }
}

/// The current block marked as terminated and closed with `t`.
#[verifier::opaque]
pub open spec fn terminate_prefix(s: LowerV, t: TermV) -> LowerV {
    let b = s.blocks[s.current as int];
    LowerV {
        terminated: s.terminated.update(s.current as int, true),
        blocks: s.blocks.update(s.current as int, BlockV { terminal: t, ..b }),
        ..s
    }
}

/// Moves the cursor.
pub open spec fn start_block(s: LowerV, id: nat) -> LowerV {
    LowerV { current: id, ..s }
}

/// Enters a loop or switch.
pub open spec fn push_loop(s: LowerV, l: LoopV) -> LowerV {
    LowerV { loops: s.loops.push(l), ..s }
}

/// Leaves the innermost loop or switch.
pub open spec fn pop_loop(s: LowerV) -> LowerV {
    if s.loops.len() > 0 {
        LowerV { loops: s.loops.drop_last(), ..s }
    } else {
        s
    }
}

/// Records a loop header.
pub open spec fn mark_header(s: LowerV, h: nat) -> LowerV {
    LowerV { headers: s.headers.push(h), ..s }
}

/// Every target of a terminal is below `n`.
pub open spec fn targets_below(t: TermV, n: nat) -> bool {
    match t {
        TermV::Goto(target) => target < n,
        TermV::If { consequent, alternate, .. } => consequent < n && alternate < n,
        TermV::Return(_) => true,
        TermV::Switch { cases, default, .. } => default < n && forall|k: int|
            0 <= k < cases.len() ==> (#[trigger] cases[k]).1 < n,
    }
}

/// The builder state is consistent: the cursor and all jump targets name
/// existing blocks, each block sits at its id, no instruction id is ahead
/// of the temporaries, and every instruction defines a temporary of its
/// own that was taken already.
#[verifier::opaque]
pub open spec fn state_ok(s: LowerV) -> bool {
    &&& s.current < s.blocks.len()
    &&& s.terminated.len() == s.blocks.len()
    &&& s.next_instr <= s.next_temp
    &&& forall|i: int| 0 <= i < s.blocks.len() ==> (#[trigger] s.blocks[i]).id == i
    &&& forall|i: int|
        0 <= i < s.blocks.len() ==> targets_below((#[trigger] s.blocks[i]).terminal, s.blocks.len())
    &&& forall|j: int|
        0 <= j < s.loops.len() ==> {
            &&& (#[trigger] s.loops[j]).break_target < s.blocks.len()
            &&& s.loops[j].continue_target matches Some(c) ==> c < s.blocks.len()
        }
    &&& forall|j: int| 0 <= j < s.headers.len() ==> #[trigger] s.headers[j] < s.blocks.len()
    &&& temps_ok(s.blocks, s.next_temp)
}

/// Every instruction defines an identifier whose version is below
/// `next_temp`, and no two define the same version.
pub open spec fn temps_ok(blocks: Seq<BlockV>, next_temp: nat) -> bool {
    &&& forall|b: int, i: int|
        #![trigger lvalue_at(blocks, b, i)]
        at(blocks, b, i) ==> lvalue_at(blocks, b, i).id < next_temp
    &&& distinct_versions(blocks)
}

/// Blocks that keep their instructions, and new blocks without any, keep
/// the temporaries in order.
pub proof fn lemma_temps_kept(before: Seq<BlockV>, after: Seq<BlockV>, next_temp: nat, later: nat)
    requires
        temps_ok(before, next_temp),
        later >= next_temp,
        after.len() >= before.len(),
        forall|b: int|
            0 <= b < before.len() ==> (#[trigger] after[b]).instructions == before[b].instructions,
        forall|b: int|
            before.len() <= b < after.len() ==> (#[trigger] after[b]).instructions.len() == 0,
    ensures
        temps_ok(after, later),
{
    assert forall|b: int, i: int| at(after, b, i) implies at(before, b, i) && #[trigger] lvalue_at(
        after,
        b,
        i,
    ) == lvalue_at(before, b, i) by {
        if b >= before.len() {
            assert(after[b].instructions.len() == 0);
        } else {
            assert(after[b].instructions == before[b].instructions);
        }
    }
    assert forall|b1: int, i1: int, b2: int, i2: int|
        #![trigger lvalue_at(after, b1, i1), lvalue_at(after, b2, i2)]
        at(after, b1, i1) && at(after, b2, i2) && (b1 != b2 || i1 != i2) implies lvalue_at(
        after,
        b1,
        i1,
    ).id != lvalue_at(after, b2, i2).id by {
        assert(lvalue_at(after, b1, i1) == lvalue_at(before, b1, i1));
        assert(lvalue_at(after, b2, i2) == lvalue_at(before, b2, i2));
    }
}

/// An instruction that defines the next temporary, appended to a block,
/// keeps the temporaries in order.
pub proof fn lemma_temp_added(before: Seq<BlockV>, cur: int, instr: InstrV, next_temp: nat)
    requires
        temps_ok(before, next_temp),
        0 <= cur < before.len(),
        instr.lvalue.id == next_temp,
    ensures
        temps_ok(
            before.update(
                cur,
                BlockV { instructions: before[cur].instructions.push(instr), ..before[cur] },
            ),
            next_temp + 1,
        ),
{
    let after = before.update(
        cur,
        BlockV { instructions: before[cur].instructions.push(instr), ..before[cur] },
    );
    let last = before[cur].instructions.len() as int;
    assert forall|b: int, i: int| at(after, b, i) implies if b == cur && i == last {
        #[trigger] lvalue_at(after, b, i) == instr.lvalue
    } else {
        at(before, b, i) && lvalue_at(after, b, i) == lvalue_at(before, b, i)
    } by {}
    assert forall|b: int, i: int|
        #![trigger lvalue_at(after, b, i)]
        at(after, b, i) implies lvalue_at(after, b, i).id < next_temp + 1 by {
        if !(b == cur && i == last) {
            assert(lvalue_at(after, b, i) == lvalue_at(before, b, i));
        }
    }
    assert forall|b1: int, i1: int, b2: int, i2: int|
        #![trigger lvalue_at(after, b1, i1), lvalue_at(after, b2, i2)]
        at(after, b1, i1) && at(after, b2, i2) && (b1 != b2 || i1 != i2) implies lvalue_at(
        after,
        b1,
        i1,
    ).id != lvalue_at(after, b2, i2).id by {
        if b1 == cur && i1 == last {
            assert(lvalue_at(after, b2, i2) == lvalue_at(before, b2, i2));
        } else if b2 == cur && i2 == last {
            assert(lvalue_at(after, b1, i1) == lvalue_at(before, b1, i1));
        } else {
            assert(lvalue_at(after, b1, i1) == lvalue_at(before, b1, i1));
            assert(lvalue_at(after, b2, i2) == lvalue_at(before, b2, i2));
        }
    }
}

/// The graph operator of a surface binary operator.  Exponentiation has
/// none: the graph does not support it.
pub open spec fn binary_operator(op: BinaryOp) -> Option<BinaryOperator> {
    match op {
        BinaryOp::Addition => Some(BinaryOperator::Add),
        BinaryOp::Subtraction => Some(BinaryOperator::Sub),
        BinaryOp::Multiplication => Some(BinaryOperator::Mul),
        BinaryOp::Division => Some(BinaryOperator::Div),
        BinaryOp::Remainder => Some(BinaryOperator::Mod),
        BinaryOp::Exponential => None,
        BinaryOp::LessThan => Some(BinaryOperator::LessThan),
        BinaryOp::LessEqualThan => Some(BinaryOperator::LessThanEqual),
        BinaryOp::GreaterThan => Some(BinaryOperator::GreaterThan),
        BinaryOp::GreaterEqualThan => Some(BinaryOperator::GreaterThanEqual),
        BinaryOp::Equality => Some(BinaryOperator::Equal),
        BinaryOp::Inequality => Some(BinaryOperator::NotEqual),
        BinaryOp::StrictEquality => Some(BinaryOperator::StrictEqual),
        BinaryOp::StrictInequality => Some(BinaryOperator::StrictNotEqual),
        BinaryOp::BitwiseAnd => Some(BinaryOperator::BitwiseAnd),
        BinaryOp::BitwiseOr => Some(BinaryOperator::BitwiseOr),
        BinaryOp::BitwiseXor => Some(BinaryOperator::BitwiseXor),
        BinaryOp::ShiftLeft => Some(BinaryOperator::LeftShift),
        BinaryOp::ShiftRight => Some(BinaryOperator::RightShift),
        BinaryOp::ShiftRightZeroFill => Some(BinaryOperator::UnsignedRightShift),
        BinaryOp::Instanceof => Some(BinaryOperator::InstanceOf),
        BinaryOp::In => Some(BinaryOperator::In),
    }
}

/// The graph operator of a surface prefix operator.
pub open spec fn unary_operator(op: UnaryOp) -> UnaryOperator {
    match op {
        UnaryOp::LogicalNot => UnaryOperator::Not,
        UnaryOp::UnaryNegation => UnaryOperator::Negate,
        UnaryOp::UnaryPlus => UnaryOperator::Plus,
        UnaryOp::BitwiseNot => UnaryOperator::BitwiseNot,
        UnaryOp::Typeof => UnaryOperator::TypeOf,
        UnaryOp::Void => UnaryOperator::Void,
        UnaryOp::Delete => UnaryOperator::Delete,
    }
}

/// The binary operator that a compound assignment applies, if it has one.
pub open spec fn compound_operator(op: AssignOp) -> Option<BinaryOperator> {
    match op {
        AssignOp::Assign => None,
        AssignOp::Addition => Some(BinaryOperator::Add),
        AssignOp::Subtraction => Some(BinaryOperator::Sub),
        AssignOp::Multiplication => Some(BinaryOperator::Mul),
        AssignOp::Division => Some(BinaryOperator::Div),
        AssignOp::Remainder => Some(BinaryOperator::Mod),
        AssignOp::BitwiseOr => Some(BinaryOperator::BitwiseOr),
        AssignOp::BitwiseXor => Some(BinaryOperator::BitwiseXor),
        AssignOp::BitwiseAnd => Some(BinaryOperator::BitwiseAnd),
        AssignOp::ShiftLeft => Some(BinaryOperator::LeftShift),
        AssignOp::ShiftRight => Some(BinaryOperator::RightShift),
        AssignOp::ShiftRightZeroFill => Some(BinaryOperator::UnsignedRightShift),
        AssignOp::Other => None,
    }
}

/// A user variable before versions are assigned.
pub open spec fn variable(name: Seq<char>) -> IdentV {
    IdentV { name, id: 0 }
}

/// The key text used where a property key cannot be read.
pub open spec fn unknown_key() -> Seq<char> {
    "__unknown__"@
}

/// `++` and `--`: load, add or subtract one, store; the result is the new
/// value for the prefix form and the old value otherwise.  An operand that is
/// not a plain identifier yields a fresh temporary and nothing else.
pub open spec fn lower_update(s: LowerV, increment: bool, prefix: bool, target: Option<String>) -> (
    LowerV,
    IdentV,
) {
    match target {
        None => create_temp(s),
        Some(name) => {
            let (s1, current) = push_instr(s, ValueV::LoadLocal(variable(name@)));
            let (s2, one) = push_instr(s1, ValueV::Constant(ConstV::Int(1)));
            let op = if increment {
                BinaryOperator::Add
            } else {
                BinaryOperator::Sub
            };
            let (s3, updated) = push_instr(s2, ValueV::BinaryOp { op, left: current, right: one });
            let (s4, _) = push_instr(s3, ValueV::StoreLocal(variable(name@), updated));
            (
                s4,
                if prefix {
                    updated
                } else {
                    current
                },
            )
        },
    }
}

/// Array destructuring from position `i` on: every position that is not
/// elided loads the element by its index, and stores it where the position
/// binds a variable.
pub open spec fn store_elements(s: LowerV, v: Vec<TargetElement>, i: nat, value: IdentV) -> LowerV
    decreases v.len() - i,
{
    if i >= v.len() {
        s
    } else {
        let s1 = match v[i as int] {
            TargetElement::Hole => s,
            TargetElement::Identifier(name) => {
                let (a, index) = push_instr(s, ValueV::Constant(ConstV::Int(i as i64 as int)));
                let (b, element) = push_instr(
                    a,
                    ValueV::ComputedLoad { object: value, property: index },
                );
                push_instr(b, ValueV::StoreLocal(variable(name@), element)).0
            },
            TargetElement::Other => {
                let (a, index) = push_instr(s, ValueV::Constant(ConstV::Int(i as i64 as int)));
                push_instr(a, ValueV::ComputedLoad { object: value, property: index }).0
            },
        };
        store_elements(s1, v, i + 1, value)
    }
}

/// Object destructuring from property `i` on: one property load per readable
/// key, stored where the property binds a variable.
pub open spec fn store_properties(s: LowerV, v: Vec<TargetProperty>, i: nat, value: IdentV) -> LowerV
    decreases v.len() - i,
{
    if i >= v.len() {
        s
    } else {
        let s1 = match v[i as int] {
            TargetProperty::Shorthand { name } => {
                let (a, loaded) = push_instr(
                    s,
                    ValueV::PropertyLoad { object: value, property: name@ },
                );
                push_instr(a, ValueV::StoreLocal(variable(name@), loaded)).0
            },
            TargetProperty::KeyValue { key: None, .. } => s,
            TargetProperty::KeyValue { key: Some(k), binding } => {
                let (a, loaded) = push_instr(
                    s,
                    ValueV::PropertyLoad { object: value, property: k@ },
                );
                match binding {
                    Some(name) => push_instr(a, ValueV::StoreLocal(variable(name@), loaded)).0,
                    None => a,
                }
            },
        };
        store_properties(s1, v, i + 1, value)
    }
}

/// Stores `value` into an assignment target.
pub open spec fn store_target(s: LowerV, t: AssignmentTarget, value: IdentV) -> LowerV
    decreases t, 0nat,
{
    match t {
        AssignmentTarget::Identifier(name) => push_instr(
            s,
            ValueV::StoreLocal(variable(name@), value),
        ).0,
        AssignmentTarget::StaticMember { object, property } => {
            let (s1, o) = lower_expr(s, *object);
            push_instr(s1, ValueV::PropertyStore { object: o, property: property@, value }).0
        },
        AssignmentTarget::ComputedMember { object, property } => {
            let (s1, o) = lower_expr(s, *object);
            let (s2, p) = lower_expr(s1, *property);
            push_instr(s2, ValueV::ComputedStore { object: o, property: p, value }).0
        },
        AssignmentTarget::ArrayPattern(elements) => store_elements(s, elements, 0, value),
        AssignmentTarget::ObjectPattern(properties) => store_properties(s, properties, 0, value),
        AssignmentTarget::Other => s,
    }
}

/// An assignment: the right side is lowered first.  A plain assignment
/// stores it; a compound assignment to a variable loads the variable,
/// applies the operator and stores the result.  Any other compound
/// assignment is not modelled and yields a fresh temporary.
pub open spec fn lower_assignment(s: LowerV, e: Expression) -> (LowerV, IdentV)
    decreases e, 0nat,
{
    match e {
        Expression::Assignment { op, target, value } => {
            let (s1, right) = lower_expr(s, *value);
            if op == AssignOp::Assign {
                (store_target(s1, *target, right), right)
            } else {
                match (*target, compound_operator(op)) {
                    (AssignmentTarget::Identifier(name), Some(bop)) => {
                        let (s2, left) = push_instr(s1, ValueV::LoadLocal(variable(name@)));
                        let (s3, result) = push_instr(
                            s2,
                            ValueV::BinaryOp { op: bop, left, right },
                        );
                        (store_target(s3, *target, result), result)
                    },
                    _ => create_temp(s1),
                }
            }
        },
        _ => create_temp(s),
    }
}

/// Lowers one call argument.
pub open spec fn lower_arg(s: LowerV, a: CallArgument) -> (LowerV, ArgV)
    decreases a, 0nat,
{
    match a {
        CallArgument::Regular(e) => {
            let (s1, p) = lower_expr(s, e);
            (s1, ArgV::Regular(p))
        },
        CallArgument::Spread(e) => {
            let (s1, p) = lower_expr(s, e);
            (s1, ArgV::Spread(p))
        },
    }
}

/// Lowers the call arguments from position `i` on, after those in `acc`.
pub open spec fn lower_args(s: LowerV, v: Vec<CallArgument>, i: nat, acc: Seq<ArgV>) -> (
    LowerV,
    Seq<ArgV>,
)
    decreases v, v.len() - i,
{
    if i >= v.len() {
        (s, acc)
    } else {
        let (s1, a) = lower_arg(s, v[i as int]);
        lower_args(s1, v, i + 1, acc.push(a))
    }
}

/// Lowers an object-literal key: a computed key is an expression, a name
/// stands for itself, anything else reads as [`unknown_key`].
pub open spec fn lower_key(s: LowerV, key: PropertyKey) -> (LowerV, KeyV)
    decreases key, 0nat,
{
    match key {
        PropertyKey::Named(name) => (s, KeyV::Identifier(name@)),
        PropertyKey::Computed(e) => {
            let (s1, p) = lower_expr(s, e);
            (s1, KeyV::Computed(p))
        },
        PropertyKey::Unknown => (s, KeyV::Identifier(unknown_key())),
    }
}

/// Lowers one object-literal member: the key, then the value.
pub open spec fn lower_prop(s: LowerV, p: PropertyNode) -> (LowerV, PropV)
    decreases p, 0nat,
{
    match p {
        PropertyNode::KeyValue { key, value } => {
            let (s1, k) = lower_key(s, key);
            let (s2, v) = lower_expr(s1, value);
            (s2, PropV::KeyValue { key: k, value: v })
        },
        PropertyNode::Spread(e) => {
            let (s1, p) = lower_expr(s, e);
            (s1, PropV::Spread(p))
        },
    }
}

/// Lowers the object-literal members from position `i` on.
pub open spec fn lower_props(s: LowerV, v: Vec<PropertyNode>, i: nat, acc: Seq<PropV>) -> (
    LowerV,
    Seq<PropV>,
)
    decreases v, v.len() - i,
{
    if i >= v.len() {
        (s, acc)
    } else {
        let (s1, p) = lower_prop(s, v[i as int]);
        lower_props(s1, v, i + 1, acc.push(p))
    }
}

/// Lowers one array-literal element.
pub open spec fn lower_item(s: LowerV, a: ArrayItem) -> (LowerV, ElemV)
    decreases a, 0nat,
{
    match a {
        ArrayItem::Regular(e) => {
            let (s1, p) = lower_expr(s, e);
            (s1, ElemV::Regular(p))
        },
        ArrayItem::Spread(e) => {
            let (s1, p) = lower_expr(s, e);
            (s1, ElemV::Spread(p))
        },
        ArrayItem::Hole => (s, ElemV::Hole),
    }
}

/// Lowers the array-literal elements from position `i` on.
pub open spec fn lower_items(s: LowerV, v: Vec<ArrayItem>, i: nat, acc: Seq<ElemV>) -> (
    LowerV,
    Seq<ElemV>,
)
    decreases v, v.len() - i,
{
    if i >= v.len() {
        (s, acc)
    } else {
        let (s1, a) = lower_item(s, v[i as int]);
        lower_items(s1, v, i + 1, acc.push(a))
    }
}

/// A diamond that leaves one of two values in a synthetic local: `test`
/// selects between the blocks `first` and `second`.
pub open spec fn branch_terminal(test: IdentV, consequent: nat, alternate: nat) -> TermV {
    TermV::If { test, consequent, alternate }
}

/// Lowers an expression to instructions and returns the place that holds
/// its value.
pub open spec fn lower_expr(s: LowerV, e: Expression) -> (LowerV, IdentV)
    decreases e, 1nat,
{
    match e {
        Expression::Literal(c) => push_instr(s, ValueV::Constant(c.deep_view())),
        Expression::Identifier(name) => push_instr(s, ValueV::LoadLocal(variable(name@))),
        Expression::Binary { op, left, right } => match binary_operator(op) {
            Some(o) => {
                let (s1, l) = lower_expr(s, *left);
                let (s2, r) = lower_expr(s1, *right);
                push_instr(s2, ValueV::BinaryOp { op: o, left: l, right: r })
            },
            None => create_temp(s),
        },
        Expression::Unary { op, argument } => {
            let (s1, a) = lower_expr(s, *argument);
            push_instr(s1, ValueV::UnaryOp { op: unary_operator(op), operand: a })
        },
        Expression::Update { increment, prefix, target } => lower_update(
            s,
            increment,
            prefix,
            target,
        ),
        Expression::Assignment { .. } => lower_assignment(s, e),
        Expression::Call { callee, arguments } => {
            let (s1, c) = lower_expr(s, *callee);
            let (s2, args) = lower_args(s1, arguments, 0, Seq::empty());
            push_instr(s2, ValueV::Call { callee: c, args })
        },
        Expression::Object { properties } => {
            let (s1, props) = lower_props(s, properties, 0, Seq::empty());
            push_instr(s1, ValueV::Object { properties: props })
        },
        Expression::Array { elements } => {
            let (s1, elems) = lower_items(s, elements, 0, Seq::empty());
            push_instr(s1, ValueV::Array { elements: elems })
        },
        Expression::StaticMember { object, property } => {
            let (s1, o) = lower_expr(s, *object);
            push_instr(s1, ValueV::PropertyLoad { object: o, property: property@ })
        },
        Expression::ComputedMember { object, property } => {
            let (s1, o) = lower_expr(s, *object);
            let (s2, p) = lower_expr(s1, *property);
            push_instr(s2, ValueV::ComputedLoad { object: o, property: p })
        },
        Expression::Logical { op, left, right } => {
            let (s1, l) = lower_expr(s, *left);
            let (s2, right_block) = alloc_block(s1);
            let (s3, short_block) = alloc_block(s2);
            let (s4, merge_block) = alloc_block(s3);
            let (s5, result) = create_temp(s4);
            let s6 = match op {
                LogicalOp::And => terminate(s5, branch_terminal(l, right_block, short_block)),
                LogicalOp::Or => terminate(s5, branch_terminal(l, short_block, right_block)),
                LogicalOp::Coalesce => {
                    let (a, nullish) = push_instr(
                        s5,
                        ValueV::UnaryOp { op: UnaryOperator::IsNullish, operand: l },
                    );
                    terminate(a, branch_terminal(nullish, right_block, short_block))
                },
            };
            let s7 = push_instr(start_block(s6, short_block), ValueV::StoreLocal(result, l)).0;
            let s8 = terminate(s7, TermV::Goto(merge_block));
            let (s9, r) = lower_expr(start_block(s8, right_block), *right);
            let s10 = push_instr(s9, ValueV::StoreLocal(result, r)).0;
            let s11 = terminate(s10, TermV::Goto(merge_block));
            push_instr(start_block(s11, merge_block), ValueV::LoadLocal(result))
        },
        Expression::Conditional { test, consequent, alternate } => {
            let (s1, t) = lower_expr(s, *test);
            let (s2, then_block) = alloc_block(s1);
            let (s3, else_block) = alloc_block(s2);
            let (s4, merge_block) = alloc_block(s3);
            let (s5, result) = create_temp(s4);
            let s6 = terminate(s5, branch_terminal(t, then_block, else_block));
            let (s7, c) = lower_expr(start_block(s6, then_block), *consequent);
            let s8 = push_instr(s7, ValueV::StoreLocal(result, c)).0;
            let s9 = terminate(s8, TermV::Goto(merge_block));
            let (s10, a) = lower_expr(start_block(s9, else_block), *alternate);
            let s11 = push_instr(s10, ValueV::StoreLocal(result, a)).0;
            let s12 = terminate(s11, TermV::Goto(merge_block));
            push_instr(start_block(s12, merge_block), ValueV::LoadLocal(result))
        },
        Expression::Other => create_temp(s),
    }
}

/// One declarator: the initialiser is lowered and, where a plain name is
/// declared, stored into it.  A declarator without initialiser does nothing.
pub open spec fn lower_declarator(s: LowerV, d: Declarator) -> LowerV
    decreases d, 0nat,
{
    match d.init {
        Some(e) => {
            let (s1, v) = lower_expr(s, e);
            match d.binding {
                Some(name) => push_instr(s1, ValueV::StoreLocal(variable(name@), v)).0,
                None => s1,
            }
        },
        None => s,
    }
}

pub open spec fn lower_declarators(s: LowerV, v: Vec<Declarator>, i: nat) -> LowerV
    decreases v, v.len() - i,
{
    if i >= v.len() {
        s
    } else {
        lower_declarators(lower_declarator(s, v[i as int]), v, i + 1)
    }
}

/// Lowers expressions in order and drops their values.
pub open spec fn lower_exprs(s: LowerV, v: Vec<Expression>, i: nat) -> LowerV
    decreases v, v.len() - i,
{
    if i >= v.len() {
        s
    } else {
        lower_exprs(lower_expr(s, v[i as int]).0, v, i + 1)
    }
}

/// Whether an expression standing alone as a loop initialiser is lowered:
/// assignments, updates, binary and prefix operations and calls are.
pub open spec fn init_is_lowered(e: Expression) -> bool {
    e is Assignment || e is Update || e is Binary || e is Unary || e is Call
}

pub open spec fn lower_for_init(s: LowerV, init: ForInit) -> LowerV
    decreases init, 0nat,
{
    match init {
        ForInit::Declaration(ds) => lower_declarators(s, ds, 0),
        ForInit::Sequence(es) => lower_exprs(s, es, 0),
        ForInit::Expression(e) => if init_is_lowered(e) {
            lower_expr(s, e).0
        } else {
            s
        },
    }
}

/// Closes the current block with a jump to `target` unless block `checked`
/// already has its terminal.
pub open spec fn close_branch(s: LowerV, checked: nat, target: nat) -> LowerV {
    if s.terminated[checked as int] {
        s
    } else {
        terminate(s, TermV::Goto(target))
    }
}

/// Whether a statement ends in a jump: `return`, `break` inside a loop or
/// switch, `continue` inside a loop, or a block whose last statement ends
/// in one.  `loops` are the loops and switches around the statement.
pub open spec fn ends_in_jump(st: Statement, loops: Seq<LoopV>) -> bool
    decreases st,
{
    match st {
        Statement::Return(_) => true,
        Statement::Break => loops.len() > 0,
        Statement::Continue => continue_target(loops) is Some,
        Statement::Block(stmts) => stmts.len() > 0 && ends_in_jump(stmts[stmts.len() - 1], loops),
        _ => false,
    }
}

/// A branch is closed where it falls off its end: unless it ended in a
/// jump, the block in which it ends jumps to `target`.
pub open spec fn close_after(s: LowerV, jumped: bool, target: nat) -> LowerV {
    if jumped {
        s
    } else {
        close_branch(s, s.current, target)
    }
}

/// The continue target of the innermost enclosing loop; switches have none
/// and are skipped.
pub open spec fn continue_target(loops: Seq<LoopV>) -> Option<nat>
    decreases loops.len(),
{
    if loops.len() == 0 {
        None
    } else {
        match loops.last().continue_target {
            Some(t) => Some(t),
            None => continue_target(loops.drop_last()),
        }
    }
}

/// Adds `n` empty blocks.
pub open spec fn alloc_blocks(s: LowerV, n: nat) -> LowerV
    decreases n,
{
    if n == 0 {
        s
    } else {
        alloc_blocks(alloc_block(s).0, (n - 1) as nat)
    }
}

/// The block of the last `default` among the cases from `i` on, where case
/// `k` has block `first + k`; `acc` where there is none.
pub open spec fn default_block(cases: Vec<SwitchCase>, first: nat, i: nat, acc: nat) -> nat
    decreases cases.len() - i,
{
    if i >= cases.len() {
        acc
    } else {
        default_block(
            cases,
            first,
            i + 1,
            if cases[i as int].test is None {
                first + i
            } else {
                acc
            },
        )
    }
}

/// Lowers the tests of the cases from `i` on, in order, into the jump table.
pub open spec fn lower_case_tests(
    s: LowerV,
    cases: Vec<SwitchCase>,
    first: nat,
    i: nat,
    acc: Seq<(IdentV, nat)>,
) -> (LowerV, Seq<(IdentV, nat)>)
    decreases cases, cases.len() - i,
{
    if i >= cases.len() {
        (s, acc)
    } else {
        match cases[i as int].test {
            Some(e) => {
                let (s1, p) = lower_expr(s, e);
                lower_case_tests(s1, cases, first, i + 1, acc.push((p, first + i)))
            },
            None => lower_case_tests(s, cases, first, i + 1, acc),
        }
    }
}

/// Lowers the bodies of the cases from `i` on, each into its block; a body
/// that leaves its last block open falls through to the next case, the last
/// one to `exit`.
pub open spec fn lower_case_bodies(s: LowerV, cases: Vec<SwitchCase>, first: nat, exit: nat, i: nat) -> LowerV
    decreases cases, cases.len() - i,
{
    if i >= cases.len() {
        s
    } else {
        let s1 = lower_stmts(start_block(s, first + i), cases[i as int].consequent, 0);
        let next = if i + 1 < cases.len() {
            first + i + 1
        } else {
            exit
        };
        lower_case_bodies(close_branch(s1, s1.current, next), cases, first, exit, i + 1)
    }
}

pub open spec fn lower_stmts(s: LowerV, v: Vec<Statement>, i: nat) -> LowerV
    decreases v, v.len() - i,
{
    if i >= v.len() {
        s
    } else {
        lower_stmts(lower_stmt(s, v[i as int]), v, i + 1)
    }
}

/// Lowers a statement.
pub open spec fn lower_stmt(s: LowerV, st: Statement) -> LowerV
    decreases st, 0nat,
{
    match st {
        Statement::Return(argument) => match argument {
            Some(e) => {
                let (s1, p) = lower_expr(s, e);
                terminate(s1, TermV::Return(Some(p)))
            },
            None => terminate(s, TermV::Return(None)),
        },
        Statement::VariableDeclaration(ds) => lower_declarators(s, ds, 0),
        Statement::Expression(e) => lower_expr(s, e).0,
        Statement::If { test, consequent, alternate } => {
            let (s1, t) = lower_expr(s, test);
            let (s2, then_block) = alloc_block(s1);
            let (s3, else_block) = alloc_block(s2);
            let (s4, merge_block) = alloc_block(s3);
            let s5 = terminate(s4, branch_terminal(t, then_block, else_block));
            let s6 = lower_stmt(start_block(s5, then_block), *consequent);
            let s7 = start_block(
                close_after(s6, ends_in_jump(*consequent, s5.loops), merge_block),
                else_block,
            );
            let s8 = match alternate {
                Some(a) => close_after(lower_stmt(s7, *a), ends_in_jump(*a, s7.loops), merge_block),
                None => close_after(s7, false, merge_block),
            };
            start_block(s8, merge_block)
        },
        Statement::While { test, body } => {
            let (s1, header) = alloc_block(s);
            let (s2, body_block) = alloc_block(s1);
            let (s3, exit) = alloc_block(s2);
            let s4 = terminate(s3, TermV::Goto(header));
            let (s5, t) = lower_expr(start_block(s4, header), test);
            let s6 = terminate(s5, branch_terminal(t, body_block, exit));
            let s7 = mark_header(
                push_loop(
                    start_block(s6, body_block),
                    LoopV { break_target: exit, continue_target: Some(header) },
                ),
                header,
            );
            let s8 = pop_loop(lower_stmt(s7, *body));
            start_block(close_branch(s8, s8.current, header), exit)
        },
        Statement::For { init, test, update, body } => {
            let s0 = match init {
                Some(i) => lower_for_init(s, i),
                None => s,
            };
            let (s1, header) = alloc_block(s0);
            let (s2, body_block) = alloc_block(s1);
            let (s3, update_block) = alloc_block(s2);
            let (s4, exit) = alloc_block(s3);
            let s5 = start_block(terminate(s4, TermV::Goto(header)), header);
            let (s6, t) = match test {
                Some(e) => lower_expr(s5, e),
                None => push_instr(s5, ValueV::Constant(ConstV::Boolean(true))),
            };
            let s7 = terminate(s6, branch_terminal(t, body_block, exit));
            let s8 = mark_header(
                push_loop(
                    start_block(s7, body_block),
                    LoopV { break_target: exit, continue_target: Some(update_block) },
                ),
                header,
            );
            let s9 = pop_loop(lower_stmt(s8, *body));
            let s10 = start_block(close_branch(s9, s9.current, update_block), update_block);
            let s11 = match update {
                Some(e) => lower_expr(s10, e).0,
                None => s10,
            };
            start_block(terminate(s11, TermV::Goto(header)), exit)
        },
        Statement::Block(stmts) => lower_stmts(s, stmts, 0),
        Statement::Break => if s.loops.len() > 0 {
            terminate(s, TermV::Goto(s.loops.last().break_target))
        } else {
            s
        },
        Statement::Continue => match continue_target(s.loops) {
            Some(t) => terminate(s, TermV::Goto(t)),
            None => s,
        },
        Statement::Switch { discriminant, cases } => {
            let (s1, d) = lower_expr(s, discriminant);
            let (s2, exit) = alloc_block(s1);
            let s3 = push_loop(s2, LoopV { break_target: exit, continue_target: None });
            let first = s3.blocks.len();
            let s4 = alloc_blocks(s3, cases@.len());
            let (s5, table) = lower_case_tests(s4, cases, first, 0, Seq::empty());
            let s6 = terminate(
                s5,
                TermV::Switch {
                    test: d,
                    cases: table,
                    default: default_block(cases, first, 0, exit),
                    merge_target: Some(exit),
                },
            );
            let s7 = lower_case_bodies(s6, cases, first, exit, 0);
            start_block(pop_loop(s7), exit)
        },
        Statement::Other => s,
    }
}

/// The identifier of parameter `idx`: its own name, or a synthetic name for
/// a destructuring pattern.
pub open spec fn param_ident(p: Param, idx: nat) -> IdentV {
    match p {
        Param::Identifier(name) => IdentV { name: name@, id: 0 },
        Param::Pattern(_) => IdentV { name: "_param"@ + decimal(idx), id: idx },
    }
}

/// A destructuring parameter is unpacked at function entry: the parameter
/// is loaded and stored into its pattern.
pub open spec fn lower_param(s: LowerV, p: Param, idx: nat) -> LowerV {
    match p {
        Param::Identifier(_) => s,
        Param::Pattern(t) => {
            let (a, loaded) = push_instr(s, ValueV::LoadLocal(param_ident(p, idx)));
            store_target(a, t, loaded)
        },
    }
}

pub open spec fn lower_params(s: LowerV, v: Vec<Param>, i: nat) -> LowerV
    decreases v.len() - i,
{
    if i >= v.len() {
        s
    } else {
        lower_params(lower_param(s, v[i as int], i), v, i + 1)
    }
}

/// The graph of a function, built from builder state `s`.
pub open spec fn lower_function_from(s: LowerV, f: Function) -> FuncV {
    let s1 = lower_params(s, f.params, 0);
    let s2 = lower_stmts(s1, f.body, 0);
    FuncV {
        name: f.name.deep_view(),
        params: Seq::new(f.params@.len(), |i: int| param_ident(f.params[i], i as nat)),
        entry: 0,
        blocks: s2.blocks,
        loop_headers: s2.headers,
    }
}

/// The graph of a function.
pub open spec fn lower_function(f: Function) -> FuncV {
    lower_function_from(initial_state(), f)
}

/// An upper bound on the temporaries that lowering an assignment target takes.
pub open spec fn target_cost(t: AssignmentTarget) -> nat
    decreases t,
{
    match t {
        AssignmentTarget::Identifier(_) => 1,
        AssignmentTarget::StaticMember { object, .. } => 1 + expr_cost(*object),
        AssignmentTarget::ComputedMember { object, property } => 1 + expr_cost(*object)
            + expr_cost(*property),
        AssignmentTarget::ArrayPattern(elements) => 3 * elements@.len(),
        AssignmentTarget::ObjectPattern(properties) => 2 * properties@.len(),
        AssignmentTarget::Other => 0,
    }
}

/// An upper bound on the temporaries that lowering an expression takes.
pub open spec fn expr_cost(e: Expression) -> nat
    decreases e,
{
    match e {
        Expression::Literal(_) => 1,
        Expression::Identifier(_) => 1,
        Expression::Binary { left, right, .. } => 1 + expr_cost(*left) + expr_cost(*right),
        Expression::Unary { argument, .. } => 1 + expr_cost(*argument),
        Expression::Update { .. } => 4,
        Expression::Assignment { target, value, .. } => 2 + expr_cost(*value) + target_cost(
            *target,
        ),
        Expression::Call { callee, arguments } => 1 + expr_cost(*callee) + args_cost(arguments, 0),
        Expression::Object { properties } => 1 + props_cost(properties, 0),
        Expression::Array { elements } => 1 + items_cost(elements, 0),
        Expression::StaticMember { object, .. } => 1 + expr_cost(*object),
        Expression::ComputedMember { object, property } => 1 + expr_cost(*object) + expr_cost(
            *property,
        ),
        Expression::Logical { left, right, .. } => 5 + expr_cost(*left) + expr_cost(*right),
        Expression::Conditional { test, consequent, alternate } => 4 + expr_cost(*test)
            + expr_cost(*consequent) + expr_cost(*alternate),
        Expression::Other => 1,
    }
}

pub open spec fn arg_cost(a: CallArgument) -> nat
    decreases a,
{
    match a {
        CallArgument::Regular(e) => expr_cost(e),
        CallArgument::Spread(e) => expr_cost(e),
    }
}

pub open spec fn args_cost(v: Vec<CallArgument>, i: nat) -> nat
    decreases v, v.len() - i,
{
    if i >= v.len() {
        0
    } else {
        arg_cost(v[i as int]) + args_cost(v, i + 1)
    }
}

pub open spec fn key_cost(key: PropertyKey) -> nat
    decreases key,
{
    match key {
        PropertyKey::Computed(k) => expr_cost(k),
        _ => 0,
    }
}

pub open spec fn prop_cost(p: PropertyNode) -> nat
    decreases p,
{
    match p {
        PropertyNode::KeyValue { key, value } => key_cost(key) + expr_cost(value),
        PropertyNode::Spread(e) => expr_cost(e),
    }
}

pub open spec fn props_cost(v: Vec<PropertyNode>, i: nat) -> nat
    decreases v, v.len() - i,
{
    if i >= v.len() {
        0
    } else {
        prop_cost(v[i as int]) + props_cost(v, i + 1)
    }
}

pub open spec fn item_cost(a: ArrayItem) -> nat
    decreases a,
{
    match a {
        ArrayItem::Regular(e) => expr_cost(e),
        ArrayItem::Spread(e) => expr_cost(e),
        ArrayItem::Hole => 0,
    }
}

pub open spec fn items_cost(v: Vec<ArrayItem>, i: nat) -> nat
    decreases v, v.len() - i,
{
    if i >= v.len() {
        0
    } else {
        item_cost(v[i as int]) + items_cost(v, i + 1)
    }
}

pub open spec fn declarator_cost(d: Declarator) -> nat
    decreases d,
{
    match d.init {
        Some(e) => 1 + expr_cost(e),
        None => 0,
    }
}

pub open spec fn declarators_cost(v: Vec<Declarator>, i: nat) -> nat
    decreases v, v.len() - i,
{
    if i >= v.len() {
        0
    } else {
        declarator_cost(v[i as int]) + declarators_cost(v, i + 1)
    }
}

pub open spec fn exprs_cost(v: Vec<Expression>, i: nat) -> nat
    decreases v, v.len() - i,
{
    if i >= v.len() {
        0
    } else {
        expr_cost(v[i as int]) + exprs_cost(v, i + 1)
    }
}

pub open spec fn for_init_cost(init: ForInit) -> nat
    decreases init,
{
    match init {
        ForInit::Declaration(ds) => declarators_cost(ds, 0),
        ForInit::Sequence(es) => exprs_cost(es, 0),
        ForInit::Expression(e) => expr_cost(e),
    }
}

pub open spec fn case_tests_cost(v: Vec<SwitchCase>, i: nat) -> nat
    decreases v, v.len() - i,
{
    if i >= v.len() {
        0
    } else {
        (match v[i as int].test {
            Some(e) => expr_cost(e),
            None => 0,
        }) + case_tests_cost(v, i + 1)
    }
}

pub open spec fn case_bodies_cost(v: Vec<SwitchCase>, i: nat) -> nat
    decreases v, v.len() - i,
{
    if i >= v.len() {
        0
    } else {
        stmts_cost(v[i as int].consequent, 0) + case_bodies_cost(v, i + 1)
    }
}

pub open spec fn stmts_cost(v: Vec<Statement>, i: nat) -> nat
    decreases v, v.len() - i,
{
    if i >= v.len() {
        0
    } else {
        stmt_cost(v[i as int]) + stmts_cost(v, i + 1)
    }
}

/// An upper bound on the temporaries that lowering a statement takes.
pub open spec fn stmt_cost(st: Statement) -> nat
    decreases st,
{
    match st {
        Statement::Return(argument) => match argument {
            Some(e) => expr_cost(e),
            None => 0,
        },
        Statement::VariableDeclaration(ds) => declarators_cost(ds, 0),
        Statement::Expression(e) => expr_cost(e),
        Statement::If { test, consequent, alternate } => expr_cost(test) + stmt_cost(*consequent)
            + match alternate {
            Some(a) => stmt_cost(*a),
            None => 0,
        },
        Statement::While { test, body } => expr_cost(test) + stmt_cost(*body),
        Statement::For { init, test, update, body } => (match init {
            Some(i) => for_init_cost(i),
            None => 0,
        }) + (match test {
            Some(e) => expr_cost(e),
            None => 1,
        }) + (match update {
            Some(e) => expr_cost(e),
            None => 0,
        }) + stmt_cost(*body),
        Statement::Block(stmts) => stmts_cost(stmts, 0),
        Statement::Break => 0,
        Statement::Continue => 0,
        Statement::Switch { discriminant, cases } => expr_cost(discriminant) + case_tests_cost(
            cases,
            0,
        ) + case_bodies_cost(cases, 0),
        Statement::Other => 0,
    }
}

pub open spec fn param_cost(p: Param) -> nat {
    match p {
        Param::Identifier(_) => 0,
        Param::Pattern(t) => 1 + target_cost(t),
    }
}

pub open spec fn params_cost(v: Vec<Param>, i: nat) -> nat
    decreases v.len() - i,
{
    if i >= v.len() {
        0
    } else {
        param_cost(v[i as int]) + params_cost(v, i + 1)
    }
}

/// An upper bound on the temporaries that lowering a function takes.
pub open spec fn function_cost(f: Function) -> nat {
    params_cost(f.params, 0) + stmts_cost(f.body, 0)
}

/// Builds the control-flow graph of one function.
pub struct LoweringContext {
    blocks: Vec<BasicBlock>,
    current_block_id: BlockId,
    next_instr_id: usize,
    next_temp_id: usize,
    loop_stack: Vec<LoopInfo>,
    terminated_blocks: Vec<bool>,
    loop_headers: Vec<BlockId>,
}

impl LoweringContext {
    /// The model of the builder.
    #[verifier::opaque]
    pub closed spec fn model(&self) -> LowerV {
        LowerV {
            blocks: self.blocks.deep_view(),
            current: self.current_block_id.deep_view(),
            next_instr: self.next_instr_id as nat,
            next_temp: self.next_temp_id as nat,
            loops: self.loop_stack.deep_view(),
            terminated: self.terminated_blocks@,
            headers: self.loop_headers.deep_view(),
        }
    }

    /// The number of temporaries taken so far.
    pub closed spec fn temps(&self) -> nat {
        self.next_temp_id as nat
    }
}

impl LoweringContext {
    /// A builder that holds the empty entry block and has taken no temporary.
    pub fn new() -> (ctx: Self)
        ensures
            ctx.model() == initial_state(),
            state_ok(ctx.model()),
            ctx.temps() == 0,
    {
        proof {
            reveal(state_ok);
            reveal(LoweringContext::model);
            reveal(alloc_block);
            reveal(create_temp);
            reveal(push_instr);
            reveal(terminate);
            reveal(terminate_prefix);
        }
        let entry = BasicBlock {
            id: BlockId(0),
            instructions: Vec::new(),
            terminal: Terminal::Return(None),
            preds: Vec::new(),
        };
        assert(entry.deep_view().instructions =~= Seq::empty());
        assert(entry.deep_view().preds =~= Seq::empty());
        let mut blocks: Vec<BasicBlock> = Vec::new();
        blocks.push(entry);
        let mut terminated: Vec<bool> = Vec::new();
        terminated.push(false);
        let ctx = LoweringContext {
            blocks,
            current_block_id: BlockId(0),
            next_instr_id: 0,
            next_temp_id: 0,
            loop_stack: Vec::new(),
            terminated_blocks: terminated,
            loop_headers: Vec::new(),
        };
        proof {
            let s = ctx.model();
            assert(s.blocks =~= seq![empty_block(0)]);
            assert(s.loops =~= Seq::empty());
            assert(s.terminated =~= seq![false]);
            assert(s.headers =~= Seq::empty());
            assert(term_successors(TermV::Return(None)) =~= Seq::empty());
            assert(temps_ok(s.blocks, 0)) by {
                assert forall|b: int, i: int| !at(s.blocks, b, i) by {}
            }
        }
        ctx
    }

    fn next_block_id(&mut self) -> (id: BlockId)
        requires
            state_ok(old(self).model()),
        ensures
            (final(self).model(), id.deep_view()) == alloc_block(old(self).model()),
            state_ok(final(self).model()),
            id.0 == old(self).blocks.len(),
            final(self).blocks.len() == old(self).blocks.len() + 1,
            final(self).next_temp_id == old(self).next_temp_id,
    {
        proof {
            reveal(state_ok);
            reveal(LoweringContext::model);
            reveal(alloc_block);
            reveal(create_temp);
            reveal(push_instr);
            reveal(terminate);
            reveal(terminate_prefix);
        }
        let n: usize = self.blocks.len();
        let block = BasicBlock {
            id: BlockId(n),
            instructions: Vec::new(),
            terminal: Terminal::Return(None),
            preds: Vec::new(),
        };
        proof {
            assert(block.deep_view().instructions =~= Seq::empty());
            assert(block.deep_view().preds =~= Seq::empty());
            assert(term_successors(TermV::Return(None)) =~= Seq::empty());
        }
        let ghost before = self.blocks;
        self.blocks.push(block);
        self.terminated_blocks.push(false);
        proof {
            lemma_deep_push(before, self.blocks, block);
            lemma_temps_kept(
                old(self).model().blocks,
                self.model().blocks,
                self.model().next_temp,
                self.model().next_temp,
            );
        }
        BlockId(n)
    }

    fn create_temp(&mut self) -> (p: Place)
        requires
            old(self).next_temp_id < usize::MAX,
        ensures
            (final(self).model(), p.deep_view()) == create_temp(old(self).model()),
            final(self).next_temp_id == old(self).next_temp_id + 1,
            final(self).next_instr_id == old(self).next_instr_id,
            final(self).blocks == old(self).blocks,
            final(self).current_block_id == old(self).current_block_id,
            state_ok(old(self).model()) ==> state_ok(final(self).model()),
    {
        proof {
            reveal(state_ok);
            reveal(LoweringContext::model);
            reveal(alloc_block);
            reveal(create_temp);
            reveal(push_instr);
            reveal(terminate);
            reveal(terminate_prefix);
        }
        let id: usize = self.next_temp_id;
        self.next_temp_id = self.next_temp_id + 1;
        let mut name = String::new();
        name.push('t');
        push_decimal(&mut name, id as u128);
        assert(name@ =~= temp_text(id as nat));
        proof {
            let s0 = old(self).model();
            let s1 = self.model();
            assert(s1.blocks == s0.blocks);
            assert(s1.loops == s0.loops);
            assert(s1.headers == s0.headers);
            if temps_ok(s0.blocks, s0.next_temp) {
                lemma_temps_kept(s0.blocks, s1.blocks, s0.next_temp, s1.next_temp);
            }
        }
        Place { identifier: Identifier { name, id } }
    }

    fn push_instruction(&mut self, value: InstructionValue) -> (p: Place)
        requires
            state_ok(old(self).model()),
            old(self).next_temp_id < usize::MAX,
        ensures
            (final(self).model(), p.deep_view()) == push_instr(
                old(self).model(),
                value.deep_view(),
            ),
            state_ok(final(self).model()),
            final(self).next_temp_id == old(self).next_temp_id + 1,
            final(self).blocks.len() == old(self).blocks.len(),
    {
        proof {
            reveal(state_ok);
            reveal(LoweringContext::model);
            reveal(alloc_block);
            reveal(create_temp);
            reveal(push_instr);
            reveal(terminate);
            reveal(terminate_prefix);
        }
        let temp = self.create_temp();
        let id = InstrId(self.next_instr_id);
        self.next_instr_id = self.next_instr_id + 1;
        let instr = Instruction { id, lvalue: temp.clone(), value, scope: None };
        let cur: usize = self.current_block_id.0;
        let ghost before = self.blocks;
        let ghost before_instrs = self.blocks[cur as int].instructions;
        self.blocks[cur].instructions.push(instr);
        proof {
            lemma_deep_push(before_instrs, self.blocks[cur as int].instructions, instr);
            lemma_deep_update(before, self.blocks, cur as int, self.blocks[cur as int]);
            let s0 = old(self).model();
            let s1 = self.model();
            assert forall|i: int| 0 <= i < s1.blocks.len() implies (#[trigger] s1.blocks[i]).id == i
                && targets_below(s1.blocks[i].terminal, s1.blocks.len()) by {
                assert(s0.blocks[i].id == i);
                assert(targets_below(s0.blocks[i].terminal, s0.blocks.len()));
            }
            lemma_temp_added(s0.blocks, cur as int, instr.deep_view(), s0.next_temp);
        }
        temp
    }

    fn start_block(&mut self, id: BlockId)
        requires
            state_ok(old(self).model()),
            id.0 < old(self).blocks.len(),
        ensures
            final(self).model() == start_block(old(self).model(), id.deep_view()),
            state_ok(final(self).model()),
            final(self).next_temp_id == old(self).next_temp_id,
            final(self).blocks.len() == old(self).blocks.len(),
    {
        proof {
            reveal(state_ok);
            reveal(LoweringContext::model);
        }
        self.current_block_id = id;
        proof {
            let s0 = old(self).model();
            let s1 = self.model();
            assert(s1.blocks == s0.blocks);
            assert(s1.loops == s0.loops);
            assert(s1.headers == s0.headers);
            assert(state_ok(s1));
        }
    }

    fn is_block_terminated(&self, id: BlockId) -> (b: bool)
        requires
            state_ok(self.model()),
            id.0 < self.blocks.len(),
        ensures
            b == self.model().terminated[id.deep_view() as int],
    {
        proof {
            reveal(state_ok);
            reveal(LoweringContext::model);
        }
        self.terminated_blocks[id.0]
    }

    fn terminate_block(&mut self, terminal: Terminal)
        requires
            state_ok(old(self).model()),
            targets_below(terminal.deep_view(), old(self).blocks.len() as nat),
        ensures
            final(self).model() == terminate(old(self).model(), terminal.deep_view()),
            state_ok(final(self).model()),
            final(self).next_temp_id == old(self).next_temp_id,
            final(self).blocks.len() == old(self).blocks.len() + 1,
    {
        proof {
            reveal(state_ok);
            reveal(LoweringContext::model);
            reveal(alloc_block);
            reveal(create_temp);
            reveal(push_instr);
            reveal(terminate);
            reveal(terminate_prefix);
        }
        let cur: usize = self.current_block_id.0;
        self.terminated_blocks[cur] = true;
        let ghost before = self.blocks;
        self.blocks[cur].terminal = terminal;
        proof {
            lemma_deep_update(before, self.blocks, cur as int, self.blocks[cur as int]);
            let s0 = old(self).model();
            let s1 = self.model();
            assert(s1.loops == s0.loops);
            assert(s1.headers == s0.headers);
            assert forall|i: int| 0 <= i < s1.blocks.len() implies (#[trigger] s1.blocks[i]).id == i
                && targets_below(s1.blocks[i].terminal, s1.blocks.len()) by {
                assert(s0.blocks[i].id == i);
                assert(targets_below(s0.blocks[i].terminal, s0.blocks.len()));
            }
            assert forall|j: int| 0 <= j < s1.headers.len() implies #[trigger] s1.headers[j]
                < s1.blocks.len() by {
                assert(s0.headers[j] < s0.blocks.len());
            }
            lemma_temps_kept(s0.blocks, s1.blocks, s0.next_temp, s1.next_temp);
            assert(state_ok(s1));
        }
        let fresh = self.next_block_id();
        self.current_block_id = fresh;
        proof {
            let s2 = self.model();
            let s3 = alloc_block(terminate_prefix(old(self).model(), terminal.deep_view())).0;
            assert(s2.blocks == s3.blocks);
            assert(s2.loops == s3.loops);
            assert(s2.headers == s3.headers);
        }
    }

    /// Enters a loop or switch.
    fn push_loop(&mut self, info: LoopInfo)
        requires
            state_ok(old(self).model()),
            info.break_target.0 < old(self).blocks.len(),
            info.continue_target matches Some(c) ==> c.0 < old(self).blocks.len(),
        ensures
            final(self).model() == push_loop(old(self).model(), info.deep_view()),
            state_ok(final(self).model()),
            final(self).next_temp_id == old(self).next_temp_id,
            final(self).blocks.len() == old(self).blocks.len(),
    {
        proof {
            reveal(state_ok);
            reveal(LoweringContext::model);
        }
        let ghost before = self.loop_stack;
        self.loop_stack.push(info);
        proof {
            lemma_deep_push(before, self.loop_stack, info);
            let s0 = old(self).model();
            let s1 = self.model();
            assert(s1.blocks == s0.blocks);
            assert(s1.headers == s0.headers);
            assert forall|j: int| 0 <= j < s1.loops.len() implies {
                &&& (#[trigger] s1.loops[j]).break_target < s1.blocks.len()
                &&& s1.loops[j].continue_target matches Some(c) ==> c < s1.blocks.len()
            } by {
                if j < s0.loops.len() {
                    assert(s0.loops[j].break_target < s0.blocks.len());
                }
            }
        }
    }

    /// Leaves the innermost loop or switch.
    fn end_loop(&mut self)
        requires
            state_ok(old(self).model()),
        ensures
            final(self).model() == pop_loop(old(self).model()),
            state_ok(final(self).model()),
            final(self).next_temp_id == old(self).next_temp_id,
            final(self).blocks.len() == old(self).blocks.len(),
    {
        proof {
            reveal(state_ok);
            reveal(LoweringContext::model);
        }
        let ghost before = self.loop_stack;
        self.loop_stack.pop();
        proof {
            let s0 = old(self).model();
            let s1 = self.model();
            assert(s1.blocks == s0.blocks);
            assert(s1.headers == s0.headers);
            if s0.loops.len() > 0 {
                assert(s1.loops =~= s0.loops.drop_last());
            } else {
                assert(s1.loops =~= s0.loops);
            }
            assert forall|j: int| 0 <= j < s1.loops.len() implies {
                &&& (#[trigger] s1.loops[j]).break_target < s1.blocks.len()
                &&& s1.loops[j].continue_target matches Some(c) ==> c < s1.blocks.len()
            } by {
                assert(s0.loops[j].break_target < s0.blocks.len());
            }
        }
    }

    /// Enters a loop with the given header, break target and continue target.
    fn start_loop(&mut self, header: BlockId, break_target: BlockId, continue_target: Option<BlockId>)
        requires
            state_ok(old(self).model()),
            header.0 < old(self).blocks.len(),
            break_target.0 < old(self).blocks.len(),
            continue_target matches Some(c) ==> c.0 < old(self).blocks.len(),
        ensures
            final(self).model() == mark_header(
                push_loop(
                    old(self).model(),
                    LoopV {
                        break_target: break_target.deep_view(),
                        continue_target: continue_target.deep_view(),
                    },
                ),
                header.deep_view(),
            ),
            state_ok(final(self).model()),
            final(self).next_temp_id == old(self).next_temp_id,
            final(self).blocks.len() == old(self).blocks.len(),
    {
        self.push_loop(LoopInfo { break_target, continue_target });
        proof {
            reveal(state_ok);
            reveal(LoweringContext::model);
        }
        let ghost mid = *self;
        let ghost before = self.loop_headers;
        self.loop_headers.push(header);
        proof {
            lemma_deep_push(before, self.loop_headers, header);
            let s0 = mid.model();
            let s1 = self.model();
            assert(s1.blocks == s0.blocks);
            assert(s1.loops == s0.loops);
            assert forall|j: int| 0 <= j < s1.headers.len() implies #[trigger] s1.headers[j]
                < s1.blocks.len() by {
                if j < s0.headers.len() {
                    assert(s0.headers[j] < s0.blocks.len());
                }
            }
        }
    }


    /// A place for the user variable `name`, not yet versioned.
    fn variable_place(name: &String) -> (p: Place)
        ensures
            p.deep_view() == variable(name@),
    {
        Place { identifier: Identifier { name: name.clone(), id: 0 } }
    }

    fn map_binary_operator(op: BinaryOp) -> (r: Option<BinaryOperator>)
        ensures
            r == binary_operator(op),
    {
        match op {
            BinaryOp::Addition => Some(BinaryOperator::Add),
            BinaryOp::Subtraction => Some(BinaryOperator::Sub),
            BinaryOp::Multiplication => Some(BinaryOperator::Mul),
            BinaryOp::Division => Some(BinaryOperator::Div),
            BinaryOp::Remainder => Some(BinaryOperator::Mod),
            BinaryOp::Exponential => None,
            BinaryOp::LessThan => Some(BinaryOperator::LessThan),
            BinaryOp::LessEqualThan => Some(BinaryOperator::LessThanEqual),
            BinaryOp::GreaterThan => Some(BinaryOperator::GreaterThan),
            BinaryOp::GreaterEqualThan => Some(BinaryOperator::GreaterThanEqual),
            BinaryOp::Equality => Some(BinaryOperator::Equal),
            BinaryOp::Inequality => Some(BinaryOperator::NotEqual),
            BinaryOp::StrictEquality => Some(BinaryOperator::StrictEqual),
            BinaryOp::StrictInequality => Some(BinaryOperator::StrictNotEqual),
            BinaryOp::BitwiseAnd => Some(BinaryOperator::BitwiseAnd),
            BinaryOp::BitwiseOr => Some(BinaryOperator::BitwiseOr),
            BinaryOp::BitwiseXor => Some(BinaryOperator::BitwiseXor),
            BinaryOp::ShiftLeft => Some(BinaryOperator::LeftShift),
            BinaryOp::ShiftRight => Some(BinaryOperator::RightShift),
            BinaryOp::ShiftRightZeroFill => Some(BinaryOperator::UnsignedRightShift),
            BinaryOp::Instanceof => Some(BinaryOperator::InstanceOf),
            BinaryOp::In => Some(BinaryOperator::In),
        }
    }

    fn map_unary_operator(op: UnaryOp) -> (r: UnaryOperator)
        ensures
            r == unary_operator(op),
    {
        match op {
            UnaryOp::LogicalNot => UnaryOperator::Not,
            UnaryOp::UnaryNegation => UnaryOperator::Negate,
            UnaryOp::UnaryPlus => UnaryOperator::Plus,
            UnaryOp::BitwiseNot => UnaryOperator::BitwiseNot,
            UnaryOp::Typeof => UnaryOperator::TypeOf,
            UnaryOp::Void => UnaryOperator::Void,
            UnaryOp::Delete => UnaryOperator::Delete,
        }
    }

    fn map_compound_operator(op: AssignOp) -> (r: Option<BinaryOperator>)
        ensures
            r == compound_operator(op),
    {
        match op {
            AssignOp::Assign => None,
            AssignOp::Addition => Some(BinaryOperator::Add),
            AssignOp::Subtraction => Some(BinaryOperator::Sub),
            AssignOp::Multiplication => Some(BinaryOperator::Mul),
            AssignOp::Division => Some(BinaryOperator::Div),
            AssignOp::Remainder => Some(BinaryOperator::Mod),
            AssignOp::BitwiseOr => Some(BinaryOperator::BitwiseOr),
            AssignOp::BitwiseXor => Some(BinaryOperator::BitwiseXor),
            AssignOp::BitwiseAnd => Some(BinaryOperator::BitwiseAnd),
            AssignOp::ShiftLeft => Some(BinaryOperator::LeftShift),
            AssignOp::ShiftRight => Some(BinaryOperator::RightShift),
            AssignOp::ShiftRightZeroFill => Some(BinaryOperator::UnsignedRightShift),
            AssignOp::Other => None,
        }
    }

    /// Lowers `++` and `--`, as [`lower_update`] says.
    fn lower_update_expression(&mut self, increment: bool, prefix: bool, target: &Option<String>) -> (p:
        Place)
        requires
            state_ok(old(self).model()),
            old(self).next_temp_id + 4 <= usize::MAX,
        ensures
            (final(self).model(), p.deep_view()) == lower_update(
                old(self).model(),
                increment,
                prefix,
                *target,
            ),
            state_ok(final(self).model()),
            final(self).next_temp_id <= old(self).next_temp_id + 4,
            final(self).blocks.len() == old(self).blocks.len(),
    {
        match target {
            None => self.create_temp(),
            Some(name) => {
                let current = self.push_instruction(
                    InstructionValue::LoadLocal(Self::variable_place(name)),
                );
                let one = self.push_instruction(InstructionValue::Constant(Constant::Int(1)));
                let op = if increment {
                    BinaryOperator::Add
                } else {
                    BinaryOperator::Sub
                };
                let updated = self.push_instruction(
                    InstructionValue::BinaryOp { op, left: current.clone(), right: one },
                );
                self.push_instruction(
                    InstructionValue::StoreLocal(Self::variable_place(name), updated.clone()),
                );
                if prefix {
                    updated
                } else {
                    current
                }
            },
        }
    }

    /// Array destructuring, as [`store_elements`] says.
    fn store_elements(&mut self, elements: &Vec<TargetElement>, value: &Place)
        requires
            state_ok(old(self).model()),
            old(self).next_temp_id + 3 * elements@.len() <= usize::MAX,
        ensures
            final(self).model() == store_elements(
                old(self).model(),
                *elements,
                0,
                value.deep_view(),
            ),
            state_ok(final(self).model()),
            final(self).next_temp_id <= old(self).next_temp_id + 3 * elements@.len(),
            final(self).blocks.len() == old(self).blocks.len(),
    {
        let mut i: usize = 0;
        while i < elements.len()
            invariant
                i <= elements.len(),
                state_ok(self.model()),
                self.next_temp_id <= old(self).next_temp_id + 3 * i,
                old(self).next_temp_id + 3 * elements@.len() <= usize::MAX,
                self.blocks.len() == old(self).blocks.len(),
                store_elements(self.model(), *elements, i as nat, value.deep_view())
                    == store_elements(old(self).model(), *elements, 0, value.deep_view()),
            decreases elements.len() - i,
        {
            match &elements[i] {
                TargetElement::Hole => {},
                TargetElement::Identifier(name) => {
                    let index = self.push_instruction(
                        InstructionValue::Constant(Constant::Int(#[verifier::truncate] (i as i64))),
                    );
                    let element = self.push_instruction(
                        InstructionValue::ComputedLoad { object: value.clone(), property: index },
                    );
                    self.push_instruction(
                        InstructionValue::StoreLocal(Self::variable_place(name), element),
                    );
                },
                TargetElement::Other => {
                    let index = self.push_instruction(
                        InstructionValue::Constant(Constant::Int(#[verifier::truncate] (i as i64))),
                    );
                    self.push_instruction(
                        InstructionValue::ComputedLoad { object: value.clone(), property: index },
                    );
                },
            }
            i += 1;
        }
    }

    /// Object destructuring, as [`store_properties`] says.
    fn store_properties(&mut self, properties: &Vec<TargetProperty>, value: &Place)
        requires
            state_ok(old(self).model()),
            old(self).next_temp_id + 2 * properties@.len() <= usize::MAX,
        ensures
            final(self).model() == store_properties(
                old(self).model(),
                *properties,
                0,
                value.deep_view(),
            ),
            state_ok(final(self).model()),
            final(self).next_temp_id <= old(self).next_temp_id + 2 * properties@.len(),
            final(self).blocks.len() == old(self).blocks.len(),
    {
        let mut i: usize = 0;
        while i < properties.len()
            invariant
                i <= properties.len(),
                state_ok(self.model()),
                self.next_temp_id <= old(self).next_temp_id + 2 * i,
                old(self).next_temp_id + 2 * properties@.len() <= usize::MAX,
                self.blocks.len() == old(self).blocks.len(),
                store_properties(self.model(), *properties, i as nat, value.deep_view())
                    == store_properties(old(self).model(), *properties, 0, value.deep_view()),
            decreases properties.len() - i,
        {
            match &properties[i] {
                TargetProperty::Shorthand { name } => {
                    let loaded = self.push_instruction(
                        InstructionValue::PropertyLoad {
                            object: value.clone(),
                            property: name.clone(),
                        },
                    );
                    self.push_instruction(
                        InstructionValue::StoreLocal(Self::variable_place(name), loaded),
                    );
                },
                TargetProperty::KeyValue { key: None, .. } => {},
                TargetProperty::KeyValue { key: Some(k), binding } => {
                    let loaded = self.push_instruction(
                        InstructionValue::PropertyLoad { object: value.clone(), property: k.clone() },
                    );
                    match binding {
                        Some(name) => {
                            self.push_instruction(
                                InstructionValue::StoreLocal(Self::variable_place(name), loaded),
                            );
                        },
                        None => {},
                    }
                },
            }
            i += 1;
        }
    }

    /// Stores `value` into `target`, as [`store_target`] says.
    fn store_to_target(&mut self, target: &AssignmentTarget, value: &Place)
        requires
            state_ok(old(self).model()),
            old(self).next_temp_id + target_cost(*target) <= usize::MAX,
        ensures
            final(self).model() == store_target(old(self).model(), *target, value.deep_view()),
            state_ok(final(self).model()),
            final(self).next_temp_id <= old(self).next_temp_id + target_cost(*target),
            final(self).blocks.len() >= old(self).blocks.len(),
        decreases target, 0nat,
    {
        match target {
            AssignmentTarget::Identifier(name) => {
                self.push_instruction(
                    InstructionValue::StoreLocal(Self::variable_place(name), value.clone()),
                );
            },
            AssignmentTarget::StaticMember { object, property } => {
                let o = self.lower_expression(object);
                self.push_instruction(
                    InstructionValue::PropertyStore {
                        object: o,
                        property: property.clone(),
                        value: value.clone(),
                    },
                );
            },
            AssignmentTarget::ComputedMember { object, property } => {
                let o = self.lower_expression(object);
                let p = self.lower_expression(property);
                self.push_instruction(
                    InstructionValue::ComputedStore { object: o, property: p, value: value.clone() },
                );
            },
            AssignmentTarget::ArrayPattern(elements) => {
                self.store_elements(elements, value);
            },
            AssignmentTarget::ObjectPattern(properties) => {
                self.store_properties(properties, value);
            },
            AssignmentTarget::Other => {},
        }
    }

    /// Lowers an assignment expression, as [`lower_assignment`] says.
    fn lower_assignment_expression(&mut self, expr: &Expression) -> (p: Place)
        requires
            state_ok(old(self).model()),
            expr is Assignment,
            old(self).next_temp_id + expr_cost(*expr) <= usize::MAX,
        ensures
            (final(self).model(), p.deep_view()) == lower_assignment(old(self).model(), *expr),
            state_ok(final(self).model()),
            final(self).next_temp_id <= old(self).next_temp_id + expr_cost(*expr),
            final(self).blocks.len() >= old(self).blocks.len(),
        decreases expr, 0nat,
    {
        match expr {
            Expression::Assignment { op, target, value } => {
                let right = self.lower_expression(value);
                match op {
                    AssignOp::Assign => {
                        self.store_to_target(target, &right);
                        right
                    },
                    _ => {
                        let bop = Self::map_compound_operator(*op);
                        match (&**target, bop) {
                            (AssignmentTarget::Identifier(name), Some(b)) => {
                                let left = self.push_instruction(
                                    InstructionValue::LoadLocal(Self::variable_place(name)),
                                );
                                let result = self.push_instruction(
                                    InstructionValue::BinaryOp { op: b, left, right },
                                );
                                self.store_to_target(target, &result);
                                result
                            },
                            _ => self.create_temp(),
                        }
                    },
                }
            },
            _ => self.create_temp(),
        }
    }

    /// Lowers one call argument, as [`lower_arg`] says.
    fn lower_argument(&mut self, arg: &CallArgument) -> (a: Argument)
        requires
            state_ok(old(self).model()),
            old(self).next_temp_id + arg_cost(*arg) <= usize::MAX,
        ensures
            (final(self).model(), a.deep_view()) == lower_arg(old(self).model(), *arg),
            state_ok(final(self).model()),
            final(self).next_temp_id <= old(self).next_temp_id + arg_cost(*arg),
            final(self).blocks.len() >= old(self).blocks.len(),
        decreases arg, 0nat,
    {
        match arg {
            CallArgument::Regular(e) => Argument::Regular(self.lower_expression(e)),
            CallArgument::Spread(e) => Argument::Spread(self.lower_expression(e)),
        }
    }

    /// Lowers the arguments of a call in order.
    fn lower_arguments(&mut self, arguments: &Vec<CallArgument>) -> (args: Vec<Argument>)
        requires
            state_ok(old(self).model()),
            old(self).next_temp_id + args_cost(*arguments, 0) <= usize::MAX,
        ensures
            (final(self).model(), args.deep_view()) == lower_args(
                old(self).model(),
                *arguments,
                0,
                Seq::empty(),
            ),
            state_ok(final(self).model()),
            final(self).next_temp_id <= old(self).next_temp_id + args_cost(*arguments, 0),
            final(self).blocks.len() >= old(self).blocks.len(),
        decreases arguments, 0nat,
    {
        let mut args: Vec<Argument> = Vec::new();
        let mut i: usize = 0;
        assert(args.deep_view() =~= Seq::empty());
        while i < arguments.len()
            invariant
                i <= arguments.len(),
                state_ok(self.model()),
                self.next_temp_id + args_cost(*arguments, i as nat) <= old(self).next_temp_id
                    + args_cost(*arguments, 0),
                old(self).next_temp_id + args_cost(*arguments, 0) <= usize::MAX,
                self.blocks.len() >= old(self).blocks.len(),
                lower_args(self.model(), *arguments, i as nat, args.deep_view()) == lower_args(
                    old(self).model(),
                    *arguments,
                    0,
                    Seq::empty(),
                ),
            decreases arguments.len() - i,
        {
            let ghost before = args;
            let a = self.lower_argument(&arguments[i]);
            args.push(a);
            proof {
                lemma_deep_push(before, args, a);
            }
            i += 1;
        }
        args
    }

    /// Lowers one object-literal member, as [`lower_prop`] says.
    fn lower_property(&mut self, prop: &PropertyNode) -> (r: ObjectProperty)
        requires
            state_ok(old(self).model()),
            old(self).next_temp_id + prop_cost(*prop) <= usize::MAX,
        ensures
            (final(self).model(), r.deep_view()) == lower_prop(old(self).model(), *prop),
            state_ok(final(self).model()),
            final(self).next_temp_id <= old(self).next_temp_id + prop_cost(*prop),
            final(self).blocks.len() >= old(self).blocks.len(),
        decreases prop, 0nat,
    {
        match prop {
            PropertyNode::KeyValue { key, value } => {
                let k = self.lower_property_key(key);
                let v = self.lower_expression(value);
                ObjectProperty::KeyValue { key: k, value: v }
            },
            PropertyNode::Spread(e) => ObjectProperty::Spread(self.lower_expression(e)),
        }
    }

    /// Lowers an object-literal key, as [`lower_key`] says.
    fn lower_property_key(&mut self, key: &PropertyKey) -> (r: ObjectPropertyKey)
        requires
            state_ok(old(self).model()),
            old(self).next_temp_id + key_cost(*key) <= usize::MAX,
        ensures
            (final(self).model(), r.deep_view()) == lower_key(old(self).model(), *key),
            state_ok(final(self).model()),
            final(self).next_temp_id <= old(self).next_temp_id + key_cost(*key),
            final(self).blocks.len() >= old(self).blocks.len(),
        decreases key, 0nat,
    {
        match key {
            PropertyKey::Named(name) => ObjectPropertyKey::Identifier(name.clone()),
            PropertyKey::Computed(e) => ObjectPropertyKey::Computed(self.lower_expression(e)),
            PropertyKey::Unknown => ObjectPropertyKey::Identifier(String::from_str("__unknown__")),
        }
    }

    /// Lowers the members of an object literal in order.
    fn lower_properties(&mut self, properties: &Vec<PropertyNode>) -> (props: Vec<ObjectProperty>)
        requires
            state_ok(old(self).model()),
            old(self).next_temp_id + props_cost(*properties, 0) <= usize::MAX,
        ensures
            (final(self).model(), props.deep_view()) == lower_props(
                old(self).model(),
                *properties,
                0,
                Seq::empty(),
            ),
            state_ok(final(self).model()),
            final(self).next_temp_id <= old(self).next_temp_id + props_cost(*properties, 0),
            final(self).blocks.len() >= old(self).blocks.len(),
        decreases properties, 0nat,
    {
        let mut props: Vec<ObjectProperty> = Vec::new();
        let mut i: usize = 0;
        assert(props.deep_view() =~= Seq::empty());
        while i < properties.len()
            invariant
                i <= properties.len(),
                state_ok(self.model()),
                self.next_temp_id + props_cost(*properties, i as nat) <= old(self).next_temp_id
                    + props_cost(*properties, 0),
                old(self).next_temp_id + props_cost(*properties, 0) <= usize::MAX,
                self.blocks.len() >= old(self).blocks.len(),
                lower_props(self.model(), *properties, i as nat, props.deep_view()) == lower_props(
                    old(self).model(),
                    *properties,
                    0,
                    Seq::empty(),
                ),
            decreases properties.len() - i,
        {
            let ghost before = props;
            let a = self.lower_property(&properties[i]);
            props.push(a);
            proof {
                lemma_deep_push(before, props, a);
            }
            i += 1;
        }
        props
    }

    /// Lowers one array-literal element, as [`lower_item`] says.
    fn lower_element(&mut self, item: &ArrayItem) -> (r: ArrayElement)
        requires
            state_ok(old(self).model()),
            old(self).next_temp_id + item_cost(*item) <= usize::MAX,
        ensures
            (final(self).model(), r.deep_view()) == lower_item(old(self).model(), *item),
            state_ok(final(self).model()),
            final(self).next_temp_id <= old(self).next_temp_id + item_cost(*item),
            final(self).blocks.len() >= old(self).blocks.len(),
        decreases item, 0nat,
    {
        match item {
            ArrayItem::Regular(e) => ArrayElement::Regular(self.lower_expression(e)),
            ArrayItem::Spread(e) => ArrayElement::Spread(self.lower_expression(e)),
            ArrayItem::Hole => ArrayElement::Hole,
        }
    }

    /// Lowers the elements of an array literal in order.
    fn lower_elements(&mut self, elements: &Vec<ArrayItem>) -> (elems: Vec<ArrayElement>)
        requires
            state_ok(old(self).model()),
            old(self).next_temp_id + items_cost(*elements, 0) <= usize::MAX,
        ensures
            (final(self).model(), elems.deep_view()) == lower_items(
                old(self).model(),
                *elements,
                0,
                Seq::empty(),
            ),
            state_ok(final(self).model()),
            final(self).next_temp_id <= old(self).next_temp_id + items_cost(*elements, 0),
            final(self).blocks.len() >= old(self).blocks.len(),
        decreases elements, 0nat,
    {
        let mut elems: Vec<ArrayElement> = Vec::new();
        let mut i: usize = 0;
        assert(elems.deep_view() =~= Seq::empty());
        while i < elements.len()
            invariant
                i <= elements.len(),
                state_ok(self.model()),
                self.next_temp_id + items_cost(*elements, i as nat) <= old(self).next_temp_id
                    + items_cost(*elements, 0),
                old(self).next_temp_id + items_cost(*elements, 0) <= usize::MAX,
                self.blocks.len() >= old(self).blocks.len(),
                lower_items(self.model(), *elements, i as nat, elems.deep_view()) == lower_items(
                    old(self).model(),
                    *elements,
                    0,
                    Seq::empty(),
                ),
            decreases elements.len() - i,
        {
            let ghost before = elems;
            let a = self.lower_element(&elements[i]);
            elems.push(a);
            proof {
                lemma_deep_push(before, elems, a);
            }
            i += 1;
        }
        elems
    }

    /// Lowers a binary expression: left operand, right operand, then the
    /// operation; an operation that the graph does not support yields a
    /// fresh temporary and nothing else.
    fn lower_binary_expression(&mut self, expr: &Expression) -> (p: Place)
        requires
            state_ok(old(self).model()),
            expr is Binary,
            old(self).next_temp_id + expr_cost(*expr) <= usize::MAX,
        ensures
            (final(self).model(), p.deep_view()) == lower_expr(old(self).model(), *expr),
            state_ok(final(self).model()),
            final(self).next_temp_id <= old(self).next_temp_id + expr_cost(*expr),
            final(self).blocks.len() >= old(self).blocks.len(),
        decreases expr, 0nat,
    {
        match expr {
            Expression::Binary { op, left, right } => match Self::map_binary_operator(*op) {
                Some(o) => {
                    let l = self.lower_expression(left);
                    let r = self.lower_expression(right);
                    self.push_instruction(InstructionValue::BinaryOp { op: o, left: l, right: r })
                },
                None => self.create_temp(),
            },
            _ => self.create_temp(),
        }
    }

    /// Lowers a prefix operation.
    fn lower_unary_expression(&mut self, expr: &Expression) -> (p: Place)
        requires
            state_ok(old(self).model()),
            expr is Unary,
            old(self).next_temp_id + expr_cost(*expr) <= usize::MAX,
        ensures
            (final(self).model(), p.deep_view()) == lower_expr(old(self).model(), *expr),
            state_ok(final(self).model()),
            final(self).next_temp_id <= old(self).next_temp_id + expr_cost(*expr),
            final(self).blocks.len() >= old(self).blocks.len(),
        decreases expr, 0nat,
    {
        match expr {
            Expression::Unary { op, argument } => {
                let a = self.lower_expression(argument);
                self.push_instruction(
                    InstructionValue::UnaryOp { op: Self::map_unary_operator(*op), operand: a },
                )
            },
            _ => self.create_temp(),
        }
    }

    /// Lowers a call: the callee, the arguments in order, then the call.
    fn lower_call_expression(&mut self, expr: &Expression) -> (p: Place)
        requires
            state_ok(old(self).model()),
            expr is Call,
            old(self).next_temp_id + expr_cost(*expr) <= usize::MAX,
        ensures
            (final(self).model(), p.deep_view()) == lower_expr(old(self).model(), *expr),
            state_ok(final(self).model()),
            final(self).next_temp_id <= old(self).next_temp_id + expr_cost(*expr),
            final(self).blocks.len() >= old(self).blocks.len(),
        decreases expr, 0nat,
    {
        match expr {
            Expression::Call { callee, arguments } => {
                let c = self.lower_expression(callee);
                let args = self.lower_arguments(arguments);
                self.push_instruction(InstructionValue::Call { callee: c, args })
            },
            _ => self.create_temp(),
        }
    }

    /// Lowers a static member access.
    fn lower_member_expression(&mut self, expr: &Expression) -> (p: Place)
        requires
            state_ok(old(self).model()),
            expr is StaticMember,
            old(self).next_temp_id + expr_cost(*expr) <= usize::MAX,
        ensures
            (final(self).model(), p.deep_view()) == lower_expr(old(self).model(), *expr),
            state_ok(final(self).model()),
            final(self).next_temp_id <= old(self).next_temp_id + expr_cost(*expr),
            final(self).blocks.len() >= old(self).blocks.len(),
        decreases expr, 0nat,
    {
        match expr {
            Expression::StaticMember { object, property } => {
                let o = self.lower_expression(object);
                self.push_instruction(
                    InstructionValue::PropertyLoad { object: o, property: property.clone() },
                )
            },
            _ => self.create_temp(),
        }
    }

    /// Lowers a computed member access.
    fn lower_computed_member_expression(&mut self, expr: &Expression) -> (p: Place)
        requires
            state_ok(old(self).model()),
            expr is ComputedMember,
            old(self).next_temp_id + expr_cost(*expr) <= usize::MAX,
        ensures
            (final(self).model(), p.deep_view()) == lower_expr(old(self).model(), *expr),
            state_ok(final(self).model()),
            final(self).next_temp_id <= old(self).next_temp_id + expr_cost(*expr),
            final(self).blocks.len() >= old(self).blocks.len(),
        decreases expr, 0nat,
    {
        match expr {
            Expression::ComputedMember { object, property } => {
                let o = self.lower_expression(object);
                let p = self.lower_expression(property);
                self.push_instruction(InstructionValue::ComputedLoad { object: o, property: p })
            },
            _ => self.create_temp(),
        }
    }

    /// Lowers `&&`, `||` and `??` as a diamond with a synthetic local.
    fn lower_logical_expression(&mut self, expr: &Expression) -> (p: Place)
        requires
            state_ok(old(self).model()),
            expr is Logical,
            old(self).next_temp_id + expr_cost(*expr) <= usize::MAX,
        ensures
            (final(self).model(), p.deep_view()) == lower_expr(old(self).model(), *expr),
            state_ok(final(self).model()),
            final(self).next_temp_id <= old(self).next_temp_id + expr_cost(*expr),
            final(self).blocks.len() >= old(self).blocks.len(),
        decreases expr, 0nat,
    {
        match expr {
            Expression::Logical { op, left, right } => {
                let l = self.lower_expression(left);
                let right_block = self.next_block_id();
                let short_block = self.next_block_id();
                let merge_block = self.next_block_id();
                let result = self.create_temp();
                match op {
                    LogicalOp::And => {
                        self.terminate_block(
                            Terminal::If {
                                test: l.clone(),
                                consequent: right_block,
                                alternate: short_block,
                            },
                        );
                    },
                    LogicalOp::Or => {
                        self.terminate_block(
                            Terminal::If {
                                test: l.clone(),
                                consequent: short_block,
                                alternate: right_block,
                            },
                        );
                    },
                    LogicalOp::Coalesce => {
                        let nullish = self.push_instruction(
                            InstructionValue::UnaryOp {
                                op: UnaryOperator::IsNullish,
                                operand: l.clone(),
                            },
                        );
                        self.terminate_block(
                            Terminal::If {
                                test: nullish,
                                consequent: right_block,
                                alternate: short_block,
                            },
                        );
                    },
                }
                self.start_block(short_block);
                self.push_instruction(InstructionValue::StoreLocal(result.clone(), l));
                self.terminate_block(Terminal::Goto(merge_block));
                self.start_block(right_block);
                let r = self.lower_expression(right);
                self.push_instruction(InstructionValue::StoreLocal(result.clone(), r));
                self.terminate_block(Terminal::Goto(merge_block));
                self.start_block(merge_block);
                self.push_instruction(InstructionValue::LoadLocal(result))
            },
            _ => self.create_temp(),
        }
    }

    /// Lowers `?:` as a diamond with a synthetic local.
    fn lower_conditional_expression(&mut self, expr: &Expression) -> (p: Place)
        requires
            state_ok(old(self).model()),
            expr is Conditional,
            old(self).next_temp_id + expr_cost(*expr) <= usize::MAX,
        ensures
            (final(self).model(), p.deep_view()) == lower_expr(old(self).model(), *expr),
            state_ok(final(self).model()),
            final(self).next_temp_id <= old(self).next_temp_id + expr_cost(*expr),
            final(self).blocks.len() >= old(self).blocks.len(),
        decreases expr, 0nat,
    {
        match expr {
            Expression::Conditional { test, consequent, alternate } => {
                let t = self.lower_expression(test);
                let then_block = self.next_block_id();
                let else_block = self.next_block_id();
                let merge_block = self.next_block_id();
                let result = self.create_temp();
                self.terminate_block(
                    Terminal::If { test: t, consequent: then_block, alternate: else_block },
                );
                self.start_block(then_block);
                let c = self.lower_expression(consequent);
                self.push_instruction(InstructionValue::StoreLocal(result.clone(), c));
                self.terminate_block(Terminal::Goto(merge_block));
                self.start_block(else_block);
                let a = self.lower_expression(alternate);
                self.push_instruction(InstructionValue::StoreLocal(result.clone(), a));
                self.terminate_block(Terminal::Goto(merge_block));
                self.start_block(merge_block);
                self.push_instruction(InstructionValue::LoadLocal(result))
            },
            _ => self.create_temp(),
        }
    }

    /// Lowers an expression, as [`lower_expr`] says.
    fn lower_expression(&mut self, expr: &Expression) -> (p: Place)
        requires
            state_ok(old(self).model()),
            old(self).next_temp_id + expr_cost(*expr) <= usize::MAX,
        ensures
            (final(self).model(), p.deep_view()) == lower_expr(old(self).model(), *expr),
            state_ok(final(self).model()),
            final(self).next_temp_id <= old(self).next_temp_id + expr_cost(*expr),
            final(self).blocks.len() >= old(self).blocks.len(),
        decreases expr, 1nat,
    {
        match expr {
            Expression::Literal(c) => self.push_instruction(InstructionValue::Constant(c.clone())),
            Expression::Identifier(name) => self.push_instruction(
                InstructionValue::LoadLocal(Self::variable_place(name)),
            ),
            Expression::Binary { .. } => self.lower_binary_expression(expr),
            Expression::Unary { .. } => self.lower_unary_expression(expr),
            Expression::Update { increment, prefix, target } => self.lower_update_expression(
                *increment,
                *prefix,
                target,
            ),
            Expression::Assignment { .. } => self.lower_assignment_expression(expr),
            Expression::Call { .. } => self.lower_call_expression(expr),
            Expression::Object { properties } => {
                let props = self.lower_properties(properties);
                self.push_instruction(InstructionValue::Object { properties: props })
            },
            Expression::Array { elements } => {
                let elems = self.lower_elements(elements);
                self.push_instruction(InstructionValue::Array { elements: elems })
            },
            Expression::StaticMember { .. } => self.lower_member_expression(expr),
            Expression::ComputedMember { .. } => self.lower_computed_member_expression(expr),
            Expression::Logical { .. } => self.lower_logical_expression(expr),
            Expression::Conditional { .. } => self.lower_conditional_expression(expr),
            Expression::Other => self.create_temp(),
        }
    }

    /// Closes the current block with a jump to `target` unless block
    /// `checked` already has its terminal.
    fn close_branch(&mut self, checked: BlockId, target: BlockId)
        requires
            state_ok(old(self).model()),
            checked.0 < old(self).blocks.len(),
            target.0 < old(self).blocks.len(),
        ensures
            final(self).model() == close_branch(
                old(self).model(),
                checked.deep_view(),
                target.deep_view(),
            ),
            state_ok(final(self).model()),
            final(self).next_temp_id == old(self).next_temp_id,
            final(self).blocks.len() >= old(self).blocks.len(),
    {
        if !self.is_block_terminated(checked) {
            self.terminate_block(Terminal::Goto(target));
        }
    }

    /// Closes the current block with a jump to `target` unless it already
    /// has its terminal.
    fn close_current(&mut self, target: BlockId)
        requires
            state_ok(old(self).model()),
            target.0 < old(self).blocks.len(),
        ensures
            final(self).model() == close_branch(
                old(self).model(),
                old(self).model().current,
                target.deep_view(),
            ),
            state_ok(final(self).model()),
            final(self).next_temp_id == old(self).next_temp_id,
            final(self).blocks.len() >= old(self).blocks.len(),
    {
        proof {
            reveal(state_ok);
            reveal(LoweringContext::model);
        }
        let current = self.current_block_id;
        self.close_branch(current, target);
    }

    /// The break target of the innermost loop or switch.
    fn break_target(&self) -> (r: Option<BlockId>)
        requires
            state_ok(self.model()),
        ensures
            r is Some == (self.model().loops.len() > 0),
            r matches Some(t) ==> t.deep_view() == self.model().loops.last().break_target && t.0
                < self.blocks.len(),
    {
        proof {
            reveal(state_ok);
            reveal(LoweringContext::model);
        }
        let n: usize = self.loop_stack.len();
        if n == 0 {
            None
        } else {
            assert(self.model().loops[n - 1].break_target < self.blocks.len());
            Some(self.loop_stack[n - 1].break_target)
        }
    }

    /// The continue target of the innermost loop, as [`continue_target`] says.
    fn find_continue_target(&self) -> (r: Option<BlockId>)
        requires
            state_ok(self.model()),
        ensures
            r.deep_view() == continue_target(self.model().loops),
            r matches Some(t) ==> t.0 < self.blocks.len(),
    {
        proof {
            reveal(state_ok);
            reveal(LoweringContext::model);
        }
        let ghost loops = self.model().loops;
        let mut n: usize = self.loop_stack.len();
        assert(loops.subrange(0, n as int) =~= loops);
        while n > 0
            invariant
                n <= self.loop_stack.len(),
                loops == self.loop_stack.deep_view(),
                loops == self.model().loops,
                continue_target(loops.subrange(0, n as int)) == continue_target(loops),
                forall|j: int|
                    0 <= j < loops.len() ==> ((#[trigger] loops[j]).continue_target matches Some(c)
                        ==> c < self.blocks.len()),
            decreases n,
        {
            let info = self.loop_stack[n - 1];
            let ghost prefix = loops.subrange(0, n as int);
            assert(prefix.last() == loops[n - 1]);
            assert(prefix.drop_last() =~= loops.subrange(0, n - 1));
            assert(loops[n - 1] == info.deep_view());
            match info.continue_target {
                Some(t) => {
                    assert(prefix.last().continue_target == Some(t.deep_view()));
                    assert(continue_target(prefix) == Some(t.deep_view()));
                    return Some(t);
                },
                None => {},
            }
            n -= 1;
        }
        assert(loops.subrange(0, 0) =~= Seq::empty());
        None
    }

    /// Lowers one declarator, as [`lower_declarator`] says.
    fn lower_declarator(&mut self, d: &Declarator)
        requires
            state_ok(old(self).model()),
            old(self).next_temp_id + declarator_cost(*d) <= usize::MAX,
        ensures
            final(self).model() == lower_declarator(old(self).model(), *d),
            state_ok(final(self).model()),
            final(self).next_temp_id <= old(self).next_temp_id + declarator_cost(*d),
            final(self).blocks.len() >= old(self).blocks.len(),
        decreases d, 0nat,
    {
        match &d.init {
            Some(e) => {
                let v = self.lower_expression(e);
                match &d.binding {
                    Some(name) => {
                        self.push_instruction(
                            InstructionValue::StoreLocal(Self::variable_place(name), v),
                        );
                    },
                    None => {},
                }
            },
            None => {},
        }
    }

    /// Lowers the declarators of a variable declaration in order.
    fn lower_variable_declaration(&mut self, ds: &Vec<Declarator>)
        requires
            state_ok(old(self).model()),
            old(self).next_temp_id + declarators_cost(*ds, 0) <= usize::MAX,
        ensures
            final(self).model() == lower_declarators(old(self).model(), *ds, 0),
            state_ok(final(self).model()),
            final(self).next_temp_id <= old(self).next_temp_id + declarators_cost(*ds, 0),
            final(self).blocks.len() >= old(self).blocks.len(),
        decreases ds, 0nat,
    {
        let mut i: usize = 0;
        while i < ds.len()
            invariant
                i <= ds.len(),
                state_ok(self.model()),
                self.next_temp_id + declarators_cost(*ds, i as nat) <= old(self).next_temp_id
                    + declarators_cost(*ds, 0),
                old(self).next_temp_id + declarators_cost(*ds, 0) <= usize::MAX,
                self.blocks.len() >= old(self).blocks.len(),
                lower_declarators(self.model(), *ds, i as nat) == lower_declarators(
                    old(self).model(),
                    *ds,
                    0,
                ),
            decreases ds.len() - i,
        {
            self.lower_declarator(&ds[i]);
            i += 1;
        }
    }

    /// Lowers expressions in order, dropping their values.
    fn lower_expressions(&mut self, es: &Vec<Expression>)
        requires
            state_ok(old(self).model()),
            old(self).next_temp_id + exprs_cost(*es, 0) <= usize::MAX,
        ensures
            final(self).model() == lower_exprs(old(self).model(), *es, 0),
            state_ok(final(self).model()),
            final(self).next_temp_id <= old(self).next_temp_id + exprs_cost(*es, 0),
            final(self).blocks.len() >= old(self).blocks.len(),
        decreases es, 0nat,
    {
        let mut i: usize = 0;
        while i < es.len()
            invariant
                i <= es.len(),
                state_ok(self.model()),
                self.next_temp_id + exprs_cost(*es, i as nat) <= old(self).next_temp_id
                    + exprs_cost(*es, 0),
                old(self).next_temp_id + exprs_cost(*es, 0) <= usize::MAX,
                self.blocks.len() >= old(self).blocks.len(),
                lower_exprs(self.model(), *es, i as nat) == lower_exprs(old(self).model(), *es, 0),
            decreases es.len() - i,
        {
            self.lower_expression(&es[i]);
            i += 1;
        }
    }

    /// Lowers the initialiser of a `for` statement, as [`lower_for_init`] says.
    fn lower_for_statement_init(&mut self, init: &ForInit)
        requires
            state_ok(old(self).model()),
            old(self).next_temp_id + for_init_cost(*init) <= usize::MAX,
        ensures
            final(self).model() == lower_for_init(old(self).model(), *init),
            state_ok(final(self).model()),
            final(self).next_temp_id <= old(self).next_temp_id + for_init_cost(*init),
            final(self).blocks.len() >= old(self).blocks.len(),
        decreases init, 0nat,
    {
        match init {
            ForInit::Declaration(ds) => {
                self.lower_variable_declaration(ds);
            },
            ForInit::Sequence(es) => {
                self.lower_expressions(es);
            },
            ForInit::Expression(e) => {
                match e {
                    Expression::Assignment { .. } | Expression::Update { .. } | Expression::Binary {
                        ..
                    } | Expression::Unary { .. } | Expression::Call { .. } => {
                        self.lower_expression(e);
                    },
                    _ => {},
                }
            },
        }
    }

    /// Lowers statements in order.
    fn lower_statements(&mut self, stmts: &Vec<Statement>)
        requires
            state_ok(old(self).model()),
            old(self).next_temp_id + stmts_cost(*stmts, 0) <= usize::MAX,
        ensures
            final(self).model() == lower_stmts(old(self).model(), *stmts, 0),
            state_ok(final(self).model()),
            final(self).next_temp_id <= old(self).next_temp_id + stmts_cost(*stmts, 0),
            final(self).blocks.len() >= old(self).blocks.len(),
        decreases stmts, 0nat,
    {
        let mut i: usize = 0;
        while i < stmts.len()
            invariant
                i <= stmts.len(),
                state_ok(self.model()),
                self.next_temp_id + stmts_cost(*stmts, i as nat) <= old(self).next_temp_id
                    + stmts_cost(*stmts, 0),
                old(self).next_temp_id + stmts_cost(*stmts, 0) <= usize::MAX,
                self.blocks.len() >= old(self).blocks.len(),
                lower_stmts(self.model(), *stmts, i as nat) == lower_stmts(
                    old(self).model(),
                    *stmts,
                    0,
                ),
            decreases stmts.len() - i,
        {
            self.lower_statement(&stmts[i]);
            i += 1;
        }
    }

    /// Lowers `return`: the value, if any, then the terminal.
    fn lower_return_statement(&mut self, stmt: &Statement)
        requires
            state_ok(old(self).model()),
            stmt is Return,
            old(self).next_temp_id + stmt_cost(*stmt) <= usize::MAX,
        ensures
            final(self).model() == lower_stmt(old(self).model(), *stmt),
            state_ok(final(self).model()),
            final(self).next_temp_id <= old(self).next_temp_id + stmt_cost(*stmt),
            final(self).blocks.len() >= old(self).blocks.len(),
        decreases stmt, 0nat,
    {
        match stmt {
            Statement::Return(argument) => {
                match argument {
                    Some(e) => {
                        let p = self.lower_expression(e);
                        self.terminate_block(Terminal::Return(Some(p)));
                    },
                    None => {
                        self.terminate_block(Terminal::Return(None));
                    },
                }
            },
            _ => {},
        }
    }

    /// Whether a statement ends in a jump, as [`ends_in_jump`] says.
    fn ends_in_jump(&self, stmt: &Statement) -> (r: bool)
        requires
            state_ok(self.model()),
        ensures
            r == ends_in_jump(*stmt, self.model().loops),
        decreases stmt,
    {
        match stmt {
            Statement::Return(_) => true,
            Statement::Break => self.break_target().is_some(),
            Statement::Continue => self.find_continue_target().is_some(),
            Statement::Block(stmts) => {
                let n: usize = stmts.len();
                if n == 0 {
                    false
                } else {
                    self.ends_in_jump(&stmts[n - 1])
                }
            },
            _ => false,
        }
    }

    /// Closes a branch, as [`close_after`] says.
    fn close_after(&mut self, jumped: bool, target: BlockId)
        requires
            state_ok(old(self).model()),
            target.0 < old(self).blocks.len(),
        ensures
            final(self).model() == close_after(old(self).model(), jumped, target.deep_view()),
            state_ok(final(self).model()),
            final(self).next_temp_id == old(self).next_temp_id,
            final(self).blocks.len() >= old(self).blocks.len(),
    {
        if !jumped {
            self.close_current(target);
        }
    }

    /// Lowers `if`: the test, then both branches, each closed with a jump
    /// to the merge block where it falls off its end.
    fn lower_if_statement(&mut self, stmt: &Statement)
        requires
            state_ok(old(self).model()),
            stmt is If,
            old(self).next_temp_id + stmt_cost(*stmt) <= usize::MAX,
        ensures
            final(self).model() == lower_stmt(old(self).model(), *stmt),
            state_ok(final(self).model()),
            final(self).next_temp_id <= old(self).next_temp_id + stmt_cost(*stmt),
            final(self).blocks.len() >= old(self).blocks.len(),
        decreases stmt, 0nat,
    {
        match stmt {
            Statement::If { test, consequent, alternate } => {
                let t = self.lower_expression(test);
                let then_block = self.next_block_id();
                let else_block = self.next_block_id();
                let merge_block = self.next_block_id();
                self.terminate_block(
                    Terminal::If { test: t, consequent: then_block, alternate: else_block },
                );
                self.start_block(then_block);
                let then_jumped = self.ends_in_jump(consequent);
                self.lower_statement(consequent);
                self.close_after(then_jumped, merge_block);
                self.start_block(else_block);
                match alternate {
                    Some(a) => {
                        let else_jumped = self.ends_in_jump(a);
                        self.lower_statement(a);
                        self.close_after(else_jumped, merge_block);
                    },
                    None => {
                        self.close_after(false, merge_block);
                    },
                }
                self.start_block(merge_block);
            },
            _ => {},
        }
    }

    /// Lowers `while`: header with the test, body, exit.
    fn lower_while_statement(&mut self, stmt: &Statement)
        requires
            state_ok(old(self).model()),
            stmt is While,
            old(self).next_temp_id + stmt_cost(*stmt) <= usize::MAX,
        ensures
            final(self).model() == lower_stmt(old(self).model(), *stmt),
            state_ok(final(self).model()),
            final(self).next_temp_id <= old(self).next_temp_id + stmt_cost(*stmt),
            final(self).blocks.len() >= old(self).blocks.len(),
        decreases stmt, 0nat,
    {
        match stmt {
            Statement::While { test, body } => {
                let header = self.next_block_id();
                let body_block = self.next_block_id();
                let exit = self.next_block_id();
                self.terminate_block(Terminal::Goto(header));
                self.start_block(header);
                let t = self.lower_expression(test);
                self.terminate_block(
                    Terminal::If { test: t, consequent: body_block, alternate: exit },
                );
                self.start_block(body_block);
                self.start_loop(header, exit, Some(header));
                self.lower_statement(body);
                self.end_loop();
                self.close_current(header);
                self.start_block(exit);
            },
            _ => {},
        }
    }

    /// Lowers `for`: initialiser, header with the test, body, update block, exit.
    fn lower_for_statement(&mut self, stmt: &Statement)
        requires
            state_ok(old(self).model()),
            stmt is For,
            old(self).next_temp_id + stmt_cost(*stmt) <= usize::MAX,
        ensures
            final(self).model() == lower_stmt(old(self).model(), *stmt),
            state_ok(final(self).model()),
            final(self).next_temp_id <= old(self).next_temp_id + stmt_cost(*stmt),
            final(self).blocks.len() >= old(self).blocks.len(),
        decreases stmt, 0nat,
    {
        match stmt {
            Statement::For { init, test, update, body } => {
                match init {
                    Some(i) => {
                        self.lower_for_statement_init(i);
                    },
                    None => {},
                }
                let header = self.next_block_id();
                let body_block = self.next_block_id();
                let update_block = self.next_block_id();
                let exit = self.next_block_id();
                self.terminate_block(Terminal::Goto(header));
                self.start_block(header);
                let t = match test {
                    Some(e) => self.lower_expression(e),
                    None => self.push_instruction(
                        InstructionValue::Constant(Constant::Boolean(true)),
                    ),
                };
                self.terminate_block(
                    Terminal::If { test: t, consequent: body_block, alternate: exit },
                );
                self.start_block(body_block);
                self.start_loop(header, exit, Some(update_block));
                self.lower_statement(body);
                self.end_loop();
                self.close_current(update_block);
                self.start_block(update_block);
                match update {
                    Some(e) => {
                        self.lower_expression(e);
                    },
                    None => {},
                }
                self.terminate_block(Terminal::Goto(header));
                self.start_block(exit);
            },
            _ => {},
        }
    }

    /// Lowers a statement, as [`lower_stmt`] says.
    fn lower_statement(&mut self, stmt: &Statement)
        requires
            state_ok(old(self).model()),
            old(self).next_temp_id + stmt_cost(*stmt) <= usize::MAX,
        ensures
            final(self).model() == lower_stmt(old(self).model(), *stmt),
            state_ok(final(self).model()),
            final(self).next_temp_id <= old(self).next_temp_id + stmt_cost(*stmt),
            final(self).blocks.len() >= old(self).blocks.len(),
        decreases stmt, 1nat,
    {
        match stmt {
            Statement::Return(_) => self.lower_return_statement(stmt),
            Statement::VariableDeclaration(ds) => self.lower_variable_declaration(ds),
            Statement::Expression(e) => {
                self.lower_expression(e);
            },
            Statement::If { .. } => self.lower_if_statement(stmt),
            Statement::While { .. } => self.lower_while_statement(stmt),
            Statement::For { .. } => self.lower_for_statement(stmt),
            Statement::Block(stmts) => self.lower_statements(stmts),
            Statement::Break => {
                match self.break_target() {
                    Some(t) => {
                        self.terminate_block(Terminal::Goto(t));
                    },
                    None => {},
                }
            },
            Statement::Continue => {
                match self.find_continue_target() {
                    Some(t) => {
                        self.terminate_block(Terminal::Goto(t));
                    },
                    None => {},
                }
            },
            Statement::Switch { .. } => self.lower_switch_statement(stmt),
            Statement::Other => {},
        }
    }

    /// Lowers `switch`, as [`lower_stmt`] says.
    fn lower_switch_statement(&mut self, stmt: &Statement)
        requires
            state_ok(old(self).model()),
            stmt is Switch,
            old(self).next_temp_id + stmt_cost(*stmt) <= usize::MAX,
        ensures
            final(self).model() == lower_stmt(old(self).model(), *stmt),
            state_ok(final(self).model()),
            final(self).next_temp_id <= old(self).next_temp_id + stmt_cost(*stmt),
            final(self).blocks.len() >= old(self).blocks.len(),
        decreases stmt, 0nat,
    {
        match stmt {
            Statement::Switch { discriminant, cases } => {
                let d = self.lower_expression(discriminant);
                let exit = self.next_block_id();
                self.push_loop(LoopInfo { break_target: exit, continue_target: None });
                let first: usize = self.blocks.len();
                proof {
                    reveal(LoweringContext::model);
                }
                let default = self.alloc_case_blocks(cases, exit);
                let table = self.lower_case_tests(cases, first);
                self.terminate_block(
                    Terminal::Switch { test: d, cases: table, default, merge_target: Some(exit) },
                );
                self.lower_case_bodies(cases, first, exit);
                self.end_loop();
                self.start_block(exit);
            },
            _ => {},
        }
    }

    /// Makes one block per case and finds the default target.
    fn alloc_case_blocks(&mut self, cases: &Vec<SwitchCase>, exit: BlockId) -> (default: BlockId)
        requires
            state_ok(old(self).model()),
            exit.0 < old(self).blocks.len(),
        ensures
            final(self).model() == alloc_blocks(old(self).model(), cases@.len()),
            default.deep_view() == default_block(
                *cases,
                old(self).blocks.len() as nat,
                0,
                exit.deep_view(),
            ),
            default.0 < final(self).blocks.len(),
            state_ok(final(self).model()),
            final(self).next_temp_id == old(self).next_temp_id,
            final(self).blocks.len() == old(self).blocks.len() + cases.len(),
    {
        let ghost first = self.blocks.len() as nat;
        let mut default = exit;
        let mut i: usize = 0;
        while i < cases.len()
            invariant
                i <= cases.len(),
                state_ok(self.model()),
                self.next_temp_id == old(self).next_temp_id,
                self.blocks.len() == first + i,
                first == old(self).blocks.len(),
                default.0 < self.blocks.len(),
                alloc_blocks(self.model(), (cases@.len() - i) as nat) == alloc_blocks(
                    old(self).model(),
                    cases@.len(),
                ),
                default_block(*cases, first, i as nat, default.deep_view()) == default_block(
                    *cases,
                    first,
                    0,
                    exit.deep_view(),
                ),
            decreases cases.len() - i,
        {
            let block = self.next_block_id();
            if cases[i].test.is_none() {
                default = block;
            }
            i += 1;
        }
        default
    }

    /// Lowers the case tests into the jump table, as [`lower_case_tests`] says.
    fn lower_case_tests(&mut self, cases: &Vec<SwitchCase>, first: usize) -> (table: Vec<
        (Place, BlockId),
    >)
        requires
            state_ok(old(self).model()),
            first + cases.len() <= old(self).blocks.len(),
            old(self).next_temp_id + case_tests_cost(*cases, 0) <= usize::MAX,
        ensures
            (final(self).model(), table.deep_view()) == lower_case_tests(
                old(self).model(),
                *cases,
                first as nat,
                0,
                Seq::empty(),
            ),
            forall|k: int|
                0 <= k < table.deep_view().len() ==> (#[trigger] table.deep_view()[k]).1 < first
                    + cases.len(),
            state_ok(final(self).model()),
            final(self).next_temp_id <= old(self).next_temp_id + case_tests_cost(*cases, 0),
            final(self).blocks.len() >= old(self).blocks.len(),
        decreases cases, 0nat,
    {
        let mut table: Vec<(Place, BlockId)> = Vec::new();
        let mut i: usize = 0;
        assert(table.deep_view() =~= Seq::empty());
        while i < cases.len()
            invariant
                i <= cases.len(),
                state_ok(self.model()),
                first + cases.len() <= old(self).blocks.len(),
                self.next_temp_id + case_tests_cost(*cases, i as nat) <= old(self).next_temp_id
                    + case_tests_cost(*cases, 0),
                old(self).next_temp_id + case_tests_cost(*cases, 0) <= usize::MAX,
                self.blocks.len() >= old(self).blocks.len(),
                forall|k: int|
                    0 <= k < table.deep_view().len() ==> (#[trigger] table.deep_view()[k]).1 < first
                        + cases.len(),
                lower_case_tests(self.model(), *cases, first as nat, i as nat, table.deep_view())
                    == lower_case_tests(old(self).model(), *cases, first as nat, 0, Seq::empty()),
            decreases cases.len() - i,
        {
            match &cases[i].test {
                Some(e) => {
                    let p = self.lower_expression(e);
                    let ghost before = table;
                    let entry = (p, BlockId(first + i));
                    table.push(entry);
                    proof {
                        lemma_deep_push(before, table, entry);
                    }
                },
                None => {},
            }
            i += 1;
        }
        table
    }

    /// Lowers the case bodies, as [`lower_case_bodies`] says.
    fn lower_case_bodies(&mut self, cases: &Vec<SwitchCase>, first: usize, exit: BlockId)
        requires
            state_ok(old(self).model()),
            first + cases.len() <= old(self).blocks.len(),
            exit.0 < old(self).blocks.len(),
            old(self).next_temp_id + case_bodies_cost(*cases, 0) <= usize::MAX,
        ensures
            final(self).model() == lower_case_bodies(
                old(self).model(),
                *cases,
                first as nat,
                exit.deep_view(),
                0,
            ),
            state_ok(final(self).model()),
            final(self).next_temp_id <= old(self).next_temp_id + case_bodies_cost(*cases, 0),
            final(self).blocks.len() >= old(self).blocks.len(),
        decreases cases, 0nat,
    {
        let mut i: usize = 0;
        while i < cases.len()
            invariant
                i <= cases.len(),
                state_ok(self.model()),
                first + cases.len() <= old(self).blocks.len(),
                exit.0 < old(self).blocks.len(),
                self.next_temp_id + case_bodies_cost(*cases, i as nat) <= old(self).next_temp_id
                    + case_bodies_cost(*cases, 0),
                old(self).next_temp_id + case_bodies_cost(*cases, 0) <= usize::MAX,
                self.blocks.len() >= old(self).blocks.len(),
                lower_case_bodies(
                    self.model(),
                    *cases,
                    first as nat,
                    exit.deep_view(),
                    i as nat,
                ) == lower_case_bodies(old(self).model(), *cases, first as nat, exit.deep_view(), 0),
            decreases cases.len() - i,
        {
            self.start_block(BlockId(first + i));
            self.lower_statements(&cases[i].consequent);
            let next = if i + 1 < cases.len() {
                BlockId(first + i + 1)
            } else {
                exit
            };
            self.close_current(next);
            i += 1;
        }
    }

    /// The identifier of parameter `idx`, as [`param_ident`] says.
    fn param_identifier(param: &Param, idx: usize) -> (r: Identifier)
        ensures
            r.deep_view() == param_ident(*param, idx as nat),
    {
        match param {
            Param::Identifier(name) => Identifier { name: name.clone(), id: 0 },
            Param::Pattern(_) => {
                let mut name = String::from_str("_param");
                push_decimal(&mut name, idx as u128);
                Identifier { name, id: idx }
            },
        }
    }

    /// Unpacks one parameter, as [`lower_param`] says, and returns its identifier.
    fn lower_parameter(&mut self, param: &Param, idx: usize) -> (r: Identifier)
        requires
            state_ok(old(self).model()),
            old(self).next_temp_id + param_cost(*param) <= usize::MAX,
        ensures
            final(self).model() == lower_param(old(self).model(), *param, idx as nat),
            r.deep_view() == param_ident(*param, idx as nat),
            state_ok(final(self).model()),
            final(self).next_temp_id <= old(self).next_temp_id + param_cost(*param),
            final(self).blocks.len() >= old(self).blocks.len(),
    {
        let ident = Self::param_identifier(param, idx);
        match param {
            Param::Identifier(_) => {},
            Param::Pattern(t) => {
                let loaded = self.push_instruction(
                    InstructionValue::LoadLocal(Place { identifier: ident.clone() }),
                );
                self.store_to_target(t, &loaded);
            },
        }
        ident
    }

    /// Collects the parameters and unpacks the destructuring ones.
    fn lower_parameters(&mut self, params: &Vec<Param>) -> (r: Vec<Identifier>)
        requires
            state_ok(old(self).model()),
            old(self).next_temp_id + params_cost(*params, 0) <= usize::MAX,
        ensures
            final(self).model() == lower_params(old(self).model(), *params, 0),
            r.deep_view() == Seq::new(params@.len(), |i: int| param_ident(params[i], i as nat)),
            state_ok(final(self).model()),
            final(self).next_temp_id <= old(self).next_temp_id + params_cost(*params, 0),
            final(self).blocks.len() >= old(self).blocks.len(),
    {
        let mut r: Vec<Identifier> = Vec::new();
        let mut i: usize = 0;
        while i < params.len()
            invariant
                i <= params.len(),
                state_ok(self.model()),
                self.next_temp_id + params_cost(*params, i as nat) <= old(self).next_temp_id
                    + params_cost(*params, 0),
                old(self).next_temp_id + params_cost(*params, 0) <= usize::MAX,
                self.blocks.len() >= old(self).blocks.len(),
                r@.len() == i,
                forall|k: int| 0 <= k < i ==> (#[trigger] r@[k]).deep_view() == param_ident(
                    params[k],
                    k as nat,
                ),
                lower_params(self.model(), *params, i as nat) == lower_params(
                    old(self).model(),
                    *params,
                    0,
                ),
            decreases params.len() - i,
        {
            let ident = self.lower_parameter(&params[i], i);
            r.push(ident);
            i += 1;
        }
        assert(r.deep_view() =~= Seq::new(
            params@.len(),
            |i: int| param_ident(params[i], i as nat),
        ));
        r
    }

    /// Lowers a function to its graph.
    pub fn build(self, func: &Function) -> (hir: HIRFunction)
        requires
            state_ok(self.model()),
            self.temps() + function_cost(*func) <= usize::MAX,
        ensures
            hir.deep_view() == lower_function_from(self.model(), *func),
            well_formed(hir.deep_view()),
            single_versions(hir.deep_view().blocks),
    {
        let mut ctx = self;
        let params = ctx.lower_parameters(&func.params);
        ctx.lower_statements(&func.body);
        proof {
            reveal(state_ok);
            reveal(LoweringContext::model);
            let s = ctx.model();
            assert forall|i: int, k: int|
                0 <= i < s.blocks.len() && 0 <= k < term_successors(
                    s.blocks[i].terminal,
                ).len() implies (#[trigger] term_successors(s.blocks[i].terminal)[k])
                < s.blocks.len() by {
                lemma_targets_below(s.blocks[i].terminal, s.blocks.len());
            }
            assert(single_versions(s.blocks));
        }
        HIRFunction {
            name: func.name.clone(),
            params,
            entry_block: BlockId(0),
            blocks: ctx.blocks,
            loop_headers: ctx.loop_headers,
        }
    }
}

impl Default for LoweringContext {
    /// The same as [`LoweringContext::new`].
    fn default() -> (ctx: Self)
        ensures
            ctx.model() == initial_state(),
            state_ok(ctx.model()),
            ctx.temps() == 0,
    {
        Self::new()
    }
}

/// Targets below `n` are successors below `n`.
pub proof fn lemma_targets_below(t: TermV, n: nat)
    requires
        targets_below(t, n),
    ensures
        forall|k: int| 0 <= k < term_successors(t).len() ==> #[trigger] term_successors(t)[k] < n,
{
    match t {
        TermV::Switch { cases, default, .. } => {
            assert forall|k: int| 0 <= k < term_successors(t).len() implies #[trigger] term_successors(
                t,
            )[k] < n by {
                if k < cases.len() {
                    assert(cases[k].1 < n);
                }
            }
        },
        _ => {},
    }
}

} // verus!
