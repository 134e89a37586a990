//! The structured tree that code is printed from, and its reconstruction
//! from the control-flow graph.

use crate::hir::scope::ScopeId;
use crate::hir::{
    lemma_deep_append, lemma_deep_push, ArgV, Argument, ArrayElement, BinaryOperator, BlockId, ConstV, Constant, ElemV, FuncV,
    HIRFunction, IdentV, Identifier, InstrV, Instruction, InstructionValue, KeyV, ObjectProperty,
    ObjectPropertyKey, PropV, TermV, Terminal, UnaryOperator, ValueV,
};
use vstd::prelude::*;
use vstd::string::*;

verus! {

broadcast use vstd::std_specs::vec::group_vec_axioms;

/// A literal of the tree.  `Number` is a number without fractional part,
/// `Decimal` any other number, carried as its decimal text.
#[derive(Debug)]
pub enum ConstantValue {
    Number(i64),
    Decimal(String),
    String(String),
    Boolean(bool),
    Null,
    Undefined,
}

impl DeepView for ConstantValue {
    type V = ConstV;

    open spec fn deep_view(&self) -> ConstV {
        match self {
            ConstantValue::Number(n) => ConstV::Int(*n as int),
            ConstantValue::Decimal(s) => ConstV::Float(s@),
            ConstantValue::String(s) => ConstV::String(s@),
            ConstantValue::Boolean(b) => ConstV::Boolean(*b),
            ConstantValue::Null => ConstV::Null,
            ConstantValue::Undefined => ConstV::Undefined,
        }
    }
}

impl Clone for ConstantValue {
    fn clone(&self) -> (r: Self)
        ensures
            r == *self,
    {
        match self {
            ConstantValue::Number(n) => ConstantValue::Number(*n),
            ConstantValue::Decimal(s) => ConstantValue::Decimal(s.clone()),
            ConstantValue::String(s) => ConstantValue::String(s.clone()),
            ConstantValue::Boolean(b) => ConstantValue::Boolean(*b),
            ConstantValue::Null => ConstantValue::Null,
            ConstantValue::Undefined => ConstantValue::Undefined,
        }
    }
}

#[derive(Debug)]
pub enum ReactiveArgument {
    Regular(Identifier),
    Spread(Identifier),
}

impl DeepView for ReactiveArgument {
    type V = ArgV;

    open spec fn deep_view(&self) -> ArgV {
        match self {
            ReactiveArgument::Regular(p) => ArgV::Regular(p.deep_view()),
            ReactiveArgument::Spread(p) => ArgV::Spread(p.deep_view()),
        }
    }
}

impl Clone for ReactiveArgument {
    fn clone(&self) -> (r: Self)
        ensures
            r == *self,
    {
        match self {
            ReactiveArgument::Regular(p) => ReactiveArgument::Regular(p.clone()),
            ReactiveArgument::Spread(p) => ReactiveArgument::Spread(p.clone()),
        }
    }
}

#[derive(Debug)]
pub enum ReactiveObjectKey {
    Identifier(String),
    Computed(Identifier),
}

impl DeepView for ReactiveObjectKey {
    type V = KeyV;

    open spec fn deep_view(&self) -> KeyV {
        match self {
            ReactiveObjectKey::Identifier(s) => KeyV::Identifier(s@),
            ReactiveObjectKey::Computed(p) => KeyV::Computed(p.deep_view()),
        }
    }
}

impl Clone for ReactiveObjectKey {
    fn clone(&self) -> (r: Self)
        ensures
            r == *self,
    {
        match self {
            ReactiveObjectKey::Identifier(s) => ReactiveObjectKey::Identifier(s.clone()),
            ReactiveObjectKey::Computed(p) => ReactiveObjectKey::Computed(p.clone()),
        }
    }
}

#[derive(Debug)]
pub enum ReactiveObjectProperty {
    KeyValue { key: ReactiveObjectKey, value: Identifier },
    Spread(Identifier),
}

impl DeepView for ReactiveObjectProperty {
    type V = PropV;

    open spec fn deep_view(&self) -> PropV {
        match self {
            ReactiveObjectProperty::KeyValue { key, value } => PropV::KeyValue {
                key: key.deep_view(),
                value: value.deep_view(),
            },
            ReactiveObjectProperty::Spread(p) => PropV::Spread(p.deep_view()),
        }
    }
}

impl Clone for ReactiveObjectProperty {
    fn clone(&self) -> (r: Self)
        ensures
            r == *self,
    {
        match self {
            ReactiveObjectProperty::KeyValue { key, value } => ReactiveObjectProperty::KeyValue {
                key: key.clone(),
                value: value.clone(),
            },
            ReactiveObjectProperty::Spread(p) => ReactiveObjectProperty::Spread(p.clone()),
        }
    }
}

#[derive(Debug)]
pub enum ReactiveArrayElement {
    Regular(Identifier),
    Spread(Identifier),
    Hole,
}

impl DeepView for ReactiveArrayElement {
    type V = ElemV;

    open spec fn deep_view(&self) -> ElemV {
        match self {
            ReactiveArrayElement::Regular(p) => ElemV::Regular(p.deep_view()),
            ReactiveArrayElement::Spread(p) => ElemV::Spread(p.deep_view()),
            ReactiveArrayElement::Hole => ElemV::Hole,
        }
    }
}

impl Clone for ReactiveArrayElement {
    fn clone(&self) -> (r: Self)
        ensures
            r == *self,
    {
        match self {
            ReactiveArrayElement::Regular(p) => ReactiveArrayElement::Regular(p.clone()),
            ReactiveArrayElement::Spread(p) => ReactiveArrayElement::Spread(p.clone()),
            ReactiveArrayElement::Hole => ReactiveArrayElement::Hole,
        }
    }
}

/// The operation of a tree instruction; operators are carried as text.
#[derive(Debug)]
#[allow(inconsistent_fields)]
pub enum ReactiveValue {
    Constant(ConstantValue),
    BinaryOp { op: String, left: Identifier, right: Identifier },
    UnaryOp { op: String, operand: Identifier },
    Call { callee: Identifier, args: Vec<ReactiveArgument> },
    Object { properties: Vec<ReactiveObjectProperty> },
    Array { elements: Vec<ReactiveArrayElement> },
    PropertyLoad { object: Identifier, property: String },
    PropertyStore { object: Identifier, property: String, value: Identifier },
    ComputedLoad { object: Identifier, property: Identifier },
    ComputedStore { object: Identifier, property: Identifier, value: Identifier },
    LoadLocal(Identifier),
    Phi { operands: Vec<Identifier> },
}

#[allow(inconsistent_fields)]
pub ghost enum RValueV {
    Constant(ConstV),
    BinaryOp { op: Seq<char>, left: IdentV, right: IdentV },
    UnaryOp { op: Seq<char>, operand: IdentV },
    Call { callee: IdentV, args: Seq<ArgV> },
    Object { properties: Seq<PropV> },
    Array { elements: Seq<ElemV> },
    PropertyLoad { object: IdentV, property: Seq<char> },
    PropertyStore { object: IdentV, property: Seq<char>, value: IdentV },
    ComputedLoad { object: IdentV, property: IdentV },
    ComputedStore { object: IdentV, property: IdentV, value: IdentV },
    LoadLocal(IdentV),
    Phi { operands: Seq<IdentV> },
}

impl DeepView for ReactiveValue {
    type V = RValueV;

    open spec fn deep_view(&self) -> RValueV {
        match self {
            ReactiveValue::Constant(c) => RValueV::Constant(c.deep_view()),
            ReactiveValue::BinaryOp { op, left, right } => RValueV::BinaryOp {
                op: op@,
                left: left.deep_view(),
                right: right.deep_view(),
            },
            ReactiveValue::UnaryOp { op, operand } => RValueV::UnaryOp {
                op: op@,
                operand: operand.deep_view(),
            },
            ReactiveValue::Call { callee, args } => RValueV::Call {
                callee: callee.deep_view(),
                args: args.deep_view(),
            },
            ReactiveValue::Object { properties } => RValueV::Object {
                properties: properties.deep_view(),
            },
            ReactiveValue::Array { elements } => RValueV::Array { elements: elements.deep_view() },
            ReactiveValue::PropertyLoad { object, property } => RValueV::PropertyLoad {
                object: object.deep_view(),
                property: property@,
            },
            ReactiveValue::PropertyStore { object, property, value } => RValueV::PropertyStore {
                object: object.deep_view(),
                property: property@,
                value: value.deep_view(),
            },
            ReactiveValue::ComputedLoad { object, property } => RValueV::ComputedLoad {
                object: object.deep_view(),
                property: property.deep_view(),
            },
            ReactiveValue::ComputedStore { object, property, value } => RValueV::ComputedStore {
                object: object.deep_view(),
                property: property.deep_view(),
                value: value.deep_view(),
            },
            ReactiveValue::LoadLocal(p) => RValueV::LoadLocal(p.deep_view()),
            ReactiveValue::Phi { operands } => RValueV::Phi { operands: operands.deep_view() },
        }
    }
}

/// An instruction of the tree.
#[derive(Debug)]
pub struct ReactiveInstruction {
    pub lvalue: Identifier,
    pub value: ReactiveValue,
    pub scope: Option<ScopeId>,
}

pub ghost struct RInstrV {
    pub lvalue: IdentV,
    pub value: RValueV,
    pub scope: Option<nat>,
}

impl DeepView for ReactiveInstruction {
    type V = RInstrV;

    open spec fn deep_view(&self) -> RInstrV {
        RInstrV {
            lvalue: self.lvalue.deep_view(),
            value: self.value.deep_view(),
            scope: self.scope.deep_view(),
        }
    }
}

/// One case of a switch; `label` is `None` for the default.
#[derive(Debug)]
pub struct ReactiveSwitchCase {
    pub label: Option<Identifier>,
    pub body: Vec<ReactiveStatement>,
}

/// A statement of the tree.
#[derive(Debug)]
#[allow(inconsistent_fields)]
pub enum ReactiveStatement {
    Instruction(ReactiveInstruction),
    /// A memoization region.
    Scope {
        id: ScopeId,
        dependencies: Vec<Identifier>,
        declarations: Vec<Identifier>,
        body: Vec<ReactiveStatement>,
    },
    If { test: Identifier, consequent: Vec<ReactiveStatement>, alternate: Vec<ReactiveStatement> },
    While { test: Identifier, body: Vec<ReactiveStatement> },
    Break,
    Continue,
    Return(Option<Identifier>),
    Switch { test: Identifier, cases: Vec<ReactiveSwitchCase> },
}

pub ghost struct CaseV {
    pub label: Option<IdentV>,
    pub body: Seq<StmtV>,
}

#[allow(inconsistent_fields)]
pub ghost enum StmtV {
    Instruction(RInstrV),
    Scope { id: nat, dependencies: Seq<IdentV>, declarations: Seq<IdentV>, body: Seq<StmtV> },
    If { test: IdentV, consequent: Seq<StmtV>, alternate: Seq<StmtV> },
    While { test: IdentV, body: Seq<StmtV> },
    Break,
    Continue,
    Return(Option<IdentV>),
    Switch { test: IdentV, cases: Seq<CaseV> },
}

/// The model of a list of statements.
pub open spec fn stmts_view(v: Vec<ReactiveStatement>) -> Seq<StmtV>
    decreases v, 1nat,
{
    Seq::new(
        v@.len(),
        |i: int|
            if 0 <= i < v@.len() {
                stmt_view(v@[i])
            } else {
                StmtV::Break
            },
    )
}

/// The model of a list of switch cases.
pub open spec fn cases_view(v: Vec<ReactiveSwitchCase>) -> Seq<CaseV>
    decreases v, 1nat,
{
    Seq::new(
        v@.len(),
        |i: int|
            if 0 <= i < v@.len() {
                CaseV { label: v@[i].label.deep_view(), body: stmts_view(v@[i].body) }
            } else {
                CaseV { label: None, body: Seq::empty() }
            },
    )
}

/// The model of a statement.
pub open spec fn stmt_view(s: ReactiveStatement) -> StmtV
    decreases s, 0nat,
{
    match s {
        ReactiveStatement::Instruction(i) => StmtV::Instruction(i.deep_view()),
        ReactiveStatement::Scope { id, dependencies, declarations, body } => StmtV::Scope {
            id: id.deep_view(),
            dependencies: dependencies.deep_view(),
            declarations: declarations.deep_view(),
            body: stmts_view(body),
        },
        ReactiveStatement::If { test, consequent, alternate } => StmtV::If {
            test: test.deep_view(),
            consequent: stmts_view(consequent),
            alternate: stmts_view(alternate),
        },
        ReactiveStatement::While { test, body } => StmtV::While {
            test: test.deep_view(),
            body: stmts_view(body),
        },
        ReactiveStatement::Break => StmtV::Break,
        ReactiveStatement::Continue => StmtV::Continue,
        ReactiveStatement::Return(p) => StmtV::Return(p.deep_view()),
        ReactiveStatement::Switch { test, cases } => StmtV::Switch {
            test: test.deep_view(),
            cases: cases_view(cases),
        },
    }
}

impl DeepView for ReactiveStatement {
    type V = StmtV;

    open spec fn deep_view(&self) -> StmtV {
        stmt_view(*self)
    }
}

impl DeepView for ReactiveSwitchCase {
    type V = CaseV;

    open spec fn deep_view(&self) -> CaseV {
        CaseV { label: self.label.deep_view(), body: stmts_view(self.body) }
    }
}

/// A function as a tree of statements.
#[derive(Debug)]
pub struct ReactiveFunction {
    pub name: Option<String>,
    pub params: Vec<Identifier>,
    pub body: Vec<ReactiveStatement>,
}

pub ghost struct RFuncV {
    pub name: Option<Seq<char>>,
    pub params: Seq<IdentV>,
    pub body: Seq<StmtV>,
}

impl DeepView for ReactiveFunction {
    type V = RFuncV;

    open spec fn deep_view(&self) -> RFuncV {
        RFuncV {
            name: self.name.deep_view(),
            params: self.params.deep_view(),
            body: stmts_view(self.body),
        }
    }
}

/// A list of statements is modelled element by element.
pub proof fn lemma_stmts_view(v: Vec<ReactiveStatement>)
    ensures
        stmts_view(v) == v.deep_view(),
{
    assert(stmts_view(v) =~= v.deep_view());
}

/// A list of cases is modelled element by element.
pub proof fn lemma_cases_view(v: Vec<ReactiveSwitchCase>)
    ensures
        cases_view(v) == v.deep_view(),
{
    assert(cases_view(v) =~= v.deep_view());
}

/// The text of a binary operator.
pub open spec fn binary_symbol(op: BinaryOperator) -> Seq<char> {
    match op {
        BinaryOperator::Add => "+"@,
        BinaryOperator::Sub => "-"@,
        BinaryOperator::Mul => "*"@,
        BinaryOperator::Div => "/"@,
        BinaryOperator::Mod => "%"@,
        BinaryOperator::LessThan => "<"@,
        BinaryOperator::LessThanEqual => "<="@,
        BinaryOperator::GreaterThan => ">"@,
        BinaryOperator::GreaterThanEqual => ">="@,
        BinaryOperator::Equal => "=="@,
        BinaryOperator::NotEqual => "!="@,
        BinaryOperator::StrictEqual => "==="@,
        BinaryOperator::StrictNotEqual => "!=="@,
        BinaryOperator::And => "&&"@,
        BinaryOperator::Or => "||"@,
        BinaryOperator::BitwiseAnd => "&"@,
        BinaryOperator::BitwiseOr => "|"@,
        BinaryOperator::BitwiseXor => "^"@,
        BinaryOperator::LeftShift => "<<"@,
        BinaryOperator::RightShift => ">>"@,
        BinaryOperator::UnsignedRightShift => ">>>"@,
        BinaryOperator::InstanceOf => "instanceof"@,
        BinaryOperator::In => "in"@,
    }
}

/// The marker that stands for the nullish test among the prefix operators.
pub open spec fn nullish_marker() -> Seq<char> {
    "__isNullish__"@
}

/// The text of a prefix operator; word operators end in a space.
pub open spec fn unary_symbol(op: UnaryOperator) -> Seq<char> {
    match op {
        UnaryOperator::Not => "!"@,
        UnaryOperator::Negate => "-"@,
        UnaryOperator::Plus => "+"@,
        UnaryOperator::BitwiseNot => "~"@,
        UnaryOperator::TypeOf => "typeof "@,
        UnaryOperator::Void => "void "@,
        UnaryOperator::Delete => "delete "@,
        UnaryOperator::IsNullish => nullish_marker(),
    }
}

/// The tree operation of a graph operation: operators become text, a store
/// becomes a copy of the stored value, a Φ keeps its operands without their
/// blocks.
pub open spec fn convert_value(v: ValueV) -> RValueV {
    match v {
        ValueV::Constant(c) => RValueV::Constant(c),
        ValueV::BinaryOp { op, left, right } => RValueV::BinaryOp {
            op: binary_symbol(op),
            left,
            right,
        },
        ValueV::UnaryOp { op, operand } => RValueV::UnaryOp { op: unary_symbol(op), operand },
        ValueV::Call { callee, args } => RValueV::Call { callee, args },
        ValueV::Object { properties } => RValueV::Object { properties },
        ValueV::Array { elements } => RValueV::Array { elements },
        ValueV::PropertyLoad { object, property } => RValueV::PropertyLoad { object, property },
        ValueV::PropertyStore { object, property, value } => RValueV::PropertyStore {
            object,
            property,
            value,
        },
        ValueV::ComputedLoad { object, property } => RValueV::ComputedLoad { object, property },
        ValueV::ComputedStore { object, property, value } => RValueV::ComputedStore {
            object,
            property,
            value,
        },
        ValueV::LoadLocal(p) => RValueV::LoadLocal(p),
        ValueV::StoreLocal(_, value) => RValueV::LoadLocal(value),
        ValueV::Phi { operands } => RValueV::Phi {
            operands: Seq::new(operands.len(), |i: int| operands[i].1),
        },
    }
}

/// The tree instruction of a graph instruction.
pub open spec fn convert_instr(i: InstrV) -> RInstrV {
    RInstrV { lvalue: i.lvalue, value: convert_value(i.value), scope: i.scope }
}

fn binary_text(op: BinaryOperator) -> (s: String)
    ensures
        s@ == binary_symbol(op),
{
    let t = match op {
        BinaryOperator::Add => "+",
        BinaryOperator::Sub => "-",
        BinaryOperator::Mul => "*",
        BinaryOperator::Div => "/",
        BinaryOperator::Mod => "%",
        BinaryOperator::LessThan => "<",
        BinaryOperator::LessThanEqual => "<=",
        BinaryOperator::GreaterThan => ">",
        BinaryOperator::GreaterThanEqual => ">=",
        BinaryOperator::Equal => "==",
        BinaryOperator::NotEqual => "!=",
        BinaryOperator::StrictEqual => "===",
        BinaryOperator::StrictNotEqual => "!==",
        BinaryOperator::And => "&&",
        BinaryOperator::Or => "||",
        BinaryOperator::BitwiseAnd => "&",
        BinaryOperator::BitwiseOr => "|",
        BinaryOperator::BitwiseXor => "^",
        BinaryOperator::LeftShift => "<<",
        BinaryOperator::RightShift => ">>",
        BinaryOperator::UnsignedRightShift => ">>>",
        BinaryOperator::InstanceOf => "instanceof",
        BinaryOperator::In => "in",
    };
    String::from_str(t)
}

fn unary_text(op: UnaryOperator) -> (s: String)
    ensures
        s@ == unary_symbol(op),
{
    let t = match op {
        UnaryOperator::Not => "!",
        UnaryOperator::Negate => "-",
        UnaryOperator::Plus => "+",
        UnaryOperator::BitwiseNot => "~",
        UnaryOperator::TypeOf => "typeof ",
        UnaryOperator::Void => "void ",
        UnaryOperator::Delete => "delete ",
        UnaryOperator::IsNullish => "__isNullish__",
    };
    String::from_str(t)
}

fn convert_constant(c: &Constant) -> (r: ConstantValue)
    ensures
        r.deep_view() == c.deep_view(),
{
    match c {
        Constant::Int(n) => ConstantValue::Number(*n),
        Constant::Float(s) => ConstantValue::Decimal(s.clone()),
        Constant::String(s) => ConstantValue::String(s.clone()),
        Constant::Boolean(b) => ConstantValue::Boolean(*b),
        Constant::Null => ConstantValue::Null,
        Constant::Undefined => ConstantValue::Undefined,
    }
}

fn convert_arguments(args: &Vec<Argument>) -> (r: Vec<ReactiveArgument>)
    ensures
        r.deep_view() == args.deep_view(),
{
    let mut r: Vec<ReactiveArgument> = Vec::new();
    let mut i: usize = 0;
    while i < args.len()
        invariant
            i <= args.len(),
            r@.len() == i,
            forall|k: int| 0 <= k < i ==> (#[trigger] r@[k]).deep_view() == args@[k].deep_view(),
        decreases args.len() - i,
    {
        let a = match &args[i] {
            Argument::Regular(p) => ReactiveArgument::Regular(p.identifier.clone()),
            Argument::Spread(p) => ReactiveArgument::Spread(p.identifier.clone()),
        };
        r.push(a);
        i += 1;
    }
    assert(r.deep_view() =~= args.deep_view());
    r
}

fn convert_properties(props: &Vec<ObjectProperty>) -> (r: Vec<ReactiveObjectProperty>)
    ensures
        r.deep_view() == props.deep_view(),
{
    let mut r: Vec<ReactiveObjectProperty> = Vec::new();
    let mut i: usize = 0;
    while i < props.len()
        invariant
            i <= props.len(),
            r@.len() == i,
            forall|k: int| 0 <= k < i ==> (#[trigger] r@[k]).deep_view() == props@[k].deep_view(),
        decreases props.len() - i,
    {
        let a = match &props[i] {
            ObjectProperty::KeyValue { key, value } => {
                let k = match key {
                    ObjectPropertyKey::Identifier(s) => ReactiveObjectKey::Identifier(s.clone()),
                    ObjectPropertyKey::Computed(p) => ReactiveObjectKey::Computed(
                        p.identifier.clone(),
                    ),
                };
                ReactiveObjectProperty::KeyValue { key: k, value: value.identifier.clone() }
            },
            ObjectProperty::Spread(p) => ReactiveObjectProperty::Spread(p.identifier.clone()),
        };
        r.push(a);
        i += 1;
    }
    assert(r.deep_view() =~= props.deep_view());
    r
}

fn convert_elements(elems: &Vec<ArrayElement>) -> (r: Vec<ReactiveArrayElement>)
    ensures
        r.deep_view() == elems.deep_view(),
{
    let mut r: Vec<ReactiveArrayElement> = Vec::new();
    let mut i: usize = 0;
    while i < elems.len()
        invariant
            i <= elems.len(),
            r@.len() == i,
            forall|k: int| 0 <= k < i ==> (#[trigger] r@[k]).deep_view() == elems@[k].deep_view(),
        decreases elems.len() - i,
    {
        let a = match &elems[i] {
            ArrayElement::Regular(p) => ReactiveArrayElement::Regular(p.identifier.clone()),
            ArrayElement::Spread(p) => ReactiveArrayElement::Spread(p.identifier.clone()),
            ArrayElement::Hole => ReactiveArrayElement::Hole,
        };
        r.push(a);
        i += 1;
    }
    assert(r.deep_view() =~= elems.deep_view());
    r
}

fn convert_operands(operands: &Vec<(BlockId, crate::hir::Place)>) -> (r: Vec<Identifier>)
    ensures
        r.deep_view() == Seq::new(
            operands.deep_view().len(),
            |i: int| operands.deep_view()[i].1,
        ),
{
    let mut r: Vec<Identifier> = Vec::new();
    let mut i: usize = 0;
    while i < operands.len()
        invariant
            i <= operands.len(),
            r@.len() == i,
            forall|k: int|
                0 <= k < i ==> (#[trigger] r@[k]).deep_view() == operands@[k].1.deep_view(),
        decreases operands.len() - i,
    {
        r.push(operands[i].1.identifier.clone());
        i += 1;
    }
    assert(r.deep_view() =~= Seq::new(
        operands.deep_view().len(),
        |i: int| operands.deep_view()[i].1,
    ));
    r
}

/// Converts the operation of a graph instruction, as [`convert_value`] says.
pub fn convert_instruction_value(value: &InstructionValue) -> (r: ReactiveValue)
    ensures
        r.deep_view() == convert_value(value.deep_view()),
{
    match value {
        InstructionValue::Constant(c) => ReactiveValue::Constant(convert_constant(c)),
        InstructionValue::BinaryOp { op, left, right } => ReactiveValue::BinaryOp {
            op: binary_text(*op),
            left: left.identifier.clone(),
            right: right.identifier.clone(),
        },
        InstructionValue::UnaryOp { op, operand } => ReactiveValue::UnaryOp {
            op: unary_text(*op),
            operand: operand.identifier.clone(),
        },
        InstructionValue::Call { callee, args } => ReactiveValue::Call {
            callee: callee.identifier.clone(),
            args: convert_arguments(args),
        },
        InstructionValue::Object { properties } => ReactiveValue::Object {
            properties: convert_properties(properties),
        },
        InstructionValue::Array { elements } => ReactiveValue::Array {
            elements: convert_elements(elements),
        },
        InstructionValue::PropertyLoad { object, property } => ReactiveValue::PropertyLoad {
            object: object.identifier.clone(),
            property: property.clone(),
        },
        InstructionValue::PropertyStore { object, property, value } => ReactiveValue::PropertyStore {
            object: object.identifier.clone(),
            property: property.clone(),
            value: value.identifier.clone(),
        },
        InstructionValue::ComputedLoad { object, property } => ReactiveValue::ComputedLoad {
            object: object.identifier.clone(),
            property: property.identifier.clone(),
        },
        InstructionValue::ComputedStore { object, property, value } => ReactiveValue::ComputedStore {
            object: object.identifier.clone(),
            property: property.identifier.clone(),
            value: value.identifier.clone(),
        },
        InstructionValue::LoadLocal(place) => ReactiveValue::LoadLocal(place.identifier.clone()),
        InstructionValue::StoreLocal(_, value) => ReactiveValue::LoadLocal(
            value.identifier.clone(),
        ),
        InstructionValue::Phi { operands } => ReactiveValue::Phi {
            operands: convert_operands(operands),
        },
    }
}

/// Converts a graph instruction, as [`convert_instr`] says.
pub fn convert_instruction(instr: &Instruction) -> (r: ReactiveInstruction)
    ensures
        r.deep_view() == convert_instr(instr.deep_view()),
{
    ReactiveInstruction {
        lvalue: instr.lvalue.identifier.clone(),
        value: convert_instruction_value(&instr.value),
        scope: instr.scope,
    }
}

/// An enclosing loop or switch during reconstruction: where `break`
/// leads, and for a loop its header, where `continue` leads.  A switch has
/// no header.
#[derive(Clone, Copy)]
pub struct TreeLoopInfo {
    pub header: Option<BlockId>,
    pub break_target: BlockId,
}

pub ghost struct TreeLoopV {
    pub header: Option<nat>,
    pub break_target: nat,
}

impl DeepView for TreeLoopInfo {
    type V = TreeLoopV;

    open spec fn deep_view(&self) -> TreeLoopV {
        TreeLoopV { header: self.header.deep_view(), break_target: self.break_target.deep_view() }
    }
}

/// The copy `dest = source` that stands for one Φ operand on its edge.
pub open spec fn edge_copy(dest: IdentV, source: IdentV) -> StmtV {
    StmtV::Instruction(RInstrV { lvalue: dest, value: RValueV::LoadLocal(source), scope: None })
}

/// The copies for the operands from `j` on of one Φ that come from block
/// `prev`, after `acc`.
pub open spec fn operand_copies(
    dest: IdentV,
    operands: Seq<(nat, IdentV)>,
    j: nat,
    prev: nat,
    acc: Seq<StmtV>,
) -> Seq<StmtV>
    decreases operands.len() - j,
{
    if j >= operands.len() {
        acc
    } else {
        operand_copies(
            dest,
            operands,
            j + 1,
            prev,
            if operands[j as int].0 == prev {
                acc.push(edge_copy(dest, operands[j as int].1))
            } else {
                acc
            },
        )
    }
}

/// The Φ-edge copies of a block for the edge from `prev`: for every Φ among
/// the instructions from `i` on, in order, one copy per operand that comes
/// from `prev`.
pub open spec fn phi_copies(instrs: Seq<InstrV>, i: nat, prev: nat, acc: Seq<StmtV>) -> Seq<StmtV>
    decreases instrs.len() - i,
{
    if i >= instrs.len() {
        acc
    } else {
        phi_copies(
            instrs,
            i + 1,
            prev,
            match instrs[i as int].value {
                ValueV::Phi { operands } => operand_copies(
                    instrs[i as int].lvalue,
                    operands,
                    0,
                    prev,
                    acc,
                ),
                _ => acc,
            },
        )
    }
}

/// The instructions from `i` on that are no Φ, converted, after `acc`.
pub open spec fn body_instrs(instrs: Seq<InstrV>, i: nat, acc: Seq<StmtV>) -> Seq<StmtV>
    decreases instrs.len() - i,
{
    if i >= instrs.len() {
        acc
    } else {
        body_instrs(
            instrs,
            i + 1,
            if instrs[i as int].value is Phi {
                acc
            } else {
                acc.push(StmtV::Instruction(convert_instr(instrs[i as int])))
            },
        )
    }
}

/// The number of blocks not on the current path.
pub open spec fn unvisited(visited: Seq<bool>) -> nat
    decreases visited.len(),
{
    if visited.len() == 0 {
        0
    } else {
        unvisited(visited.drop_last()) + if visited.last() {
            0nat
        } else {
            1nat
        }
    }
}

/// Entering a block that is not on the path leaves fewer blocks off it.
pub proof fn lemma_unvisited_update(visited: Seq<bool>, b: int)
    requires
        0 <= b < visited.len(),
        !visited[b],
    ensures
        unvisited(visited.update(b, true)) < unvisited(visited),
    decreases visited.len(),
{
    let after = visited.update(b, true);
    if b == visited.len() - 1 {
        assert(after.drop_last() =~= visited.drop_last());
    } else {
        assert(after.drop_last() =~= visited.drop_last().update(b, true));
        lemma_unvisited_update(visited.drop_last(), b);
    }
}

/// The identifier that renders as the literal `true`.
pub open spec fn true_ident() -> IdentV {
    IdentV { name: "true"@, id: 0 }
}

/// The header of the nearest enclosing loop; switches have none and are
/// skipped.
pub open spec fn nearest_header(loops: Seq<TreeLoopV>) -> Option<nat>
    decreases loops.len(),
{
    if loops.len() == 0 {
        None
    } else {
        match loops.last().header {
            Some(h) => Some(h),
            None => nearest_header(loops.drop_last()),
        }
    }
}

/// What follows the instructions of a block that ends in a jump to `target`:
/// the copies for that edge and `break`, where the target is the break
/// target of the innermost loop or switch; the copies and `continue`,
/// where it is the header of the nearest enclosing loop, also from inside
/// a switch; else the target's own statements.
pub open spec fn tree_goto(
    f: FuncV,
    visited: Seq<bool>,
    loops: Seq<TreeLoopV>,
    b: nat,
    target: nat,
    stmts: Seq<StmtV>,
) -> Seq<StmtV>
    decreases unvisited(visited), 1nat,
{
    let copies = if target < f.blocks.len() {
        phi_copies(f.blocks[target as int].instructions, 0, b, stmts)
    } else {
        stmts
    };
    if loops.len() > 0 && target == loops.last().break_target {
        copies.push(StmtV::Break)
    } else if nearest_header(loops) == Some(target) {
        copies.push(StmtV::Continue)
    } else {
        stmts + tree(f, visited, loops, target, Some(b))
    }
}

/// The cases from `i` on of a switch in block `b`, after `acc`.
pub open spec fn tree_cases(
    f: FuncV,
    visited: Seq<bool>,
    loops: Seq<TreeLoopV>,
    cases: Seq<(IdentV, nat)>,
    i: nat,
    b: nat,
    acc: Seq<CaseV>,
) -> Seq<CaseV>
    decreases unvisited(visited), 1 + cases.len() - i,
{
    if i >= cases.len() {
        acc
    } else {
        tree_cases(
            f,
            visited,
            loops,
            cases,
            i + 1,
            b,
            acc.push(
                CaseV {
                    label: Some(cases[i as int].0),
                    body: tree(f, visited, loops, cases[i as int].1, Some(b)),
                },
            ),
        )
    }
}

/// The statements of block `b`, entered from `prev`, with the blocks of the
/// current path marked in `visited` and the enclosing loops in `loops`.
///
/// The Φ-edge copies for the edge come first.  A block on the current path
/// or outside the function contributes nothing more.  A loop header that
/// ends in a branch becomes `while (true)` around the header's
/// instructions, the test with a `break` on its negative side, and the
/// body; the loop's exit follows.  Any other block contributes its
/// instructions and what its terminal says.
pub open spec fn tree(
    f: FuncV,
    visited: Seq<bool>,
    loops: Seq<TreeLoopV>,
    b: nat,
    prev: Option<nat>,
) -> Seq<StmtV>
    decreases unvisited(visited), 0nat,
    via tree_decreases
{
    if b >= f.blocks.len() {
        Seq::empty()
    } else {
        let block = f.blocks[b as int];
        let copies = match prev {
            Some(p) => phi_copies(block.instructions, 0, p, Seq::empty()),
            None => Seq::empty(),
        };
        if b >= visited.len() || visited[b as int] {
            copies
        } else {
            let inner = visited.update(b as int, true);
            if f.loop_headers.contains(b) {
                match block.terminal {
                    TermV::If { test, consequent, alternate } => {
                        let head = body_instrs(block.instructions, 0, Seq::empty()).push(
                            StmtV::If {
                                test,
                                consequent: Seq::empty(),
                                alternate: seq![StmtV::Break],
                            },
                        );
                        let body = head + tree(
                            f,
                            inner,
                            loops.push(TreeLoopV { header: Some(b), break_target: alternate }),
                            consequent,
                            Some(b),
                        );
                        copies.push(StmtV::While { test: true_ident(), body }) + tree(
                            f,
                            inner,
                            loops,
                            alternate,
                            Some(b),
                        )
                    },
                    _ => copies,
                }
            } else {
                terminal_tree(f, inner, loops, b, body_instrs(block.instructions, 0, copies))
            }
        }
    }
}

/// The number of cases of a switch terminal, zero for other terminals.
pub open spec fn terminal_cases(t: TermV) -> nat {
    match t {
        TermV::Switch { cases, .. } => cases.len(),
        _ => 0,
    }
}

/// What the terminal of block `b` contributes after `stmts`: `return`; a
/// jump as [`tree_goto`] says; a branch with the trees of both sides; a
/// switch with one case per table entry and the default last, inside which
/// `break` leads to the merge target.
pub open spec fn terminal_tree(
    f: FuncV,
    visited: Seq<bool>,
    loops: Seq<TreeLoopV>,
    b: nat,
    stmts: Seq<StmtV>,
) -> Seq<StmtV>
    decreases unvisited(visited), 3 + terminal_cases(f.blocks[b as int].terminal),
{
    match f.blocks[b as int].terminal {
        TermV::Return(p) => stmts.push(StmtV::Return(p)),
        TermV::Goto(target) => tree_goto(f, visited, loops, b, target, stmts),
        TermV::If { test, consequent, alternate } => stmts.push(
            StmtV::If {
                test,
                consequent: tree(f, visited, loops, consequent, Some(b)),
                alternate: tree(f, visited, loops, alternate, Some(b)),
            },
        ),
        TermV::Switch { test, cases, default, merge_target } => {
            let within = match merge_target {
                Some(m) => loops.push(TreeLoopV { header: None, break_target: m }),
                None => loops,
            };
            stmts.push(
                StmtV::Switch {
                    test,
                    cases: tree_cases(f, visited, within, cases, 0, b, Seq::empty()).push(
                        CaseV { label: None, body: tree(f, visited, within, default, Some(b)) },
                    ),
                },
            )
        },
    }
}

#[via_fn]
proof fn tree_decreases(
    f: FuncV,
    visited: Seq<bool>,
    loops: Seq<TreeLoopV>,
    b: nat,
    prev: Option<nat>,
) {
    if b < visited.len() && !visited[b as int] {
        lemma_unvisited_update(visited, b as int);
    }
}

/// The tree of a function: the statements of its entry block.
pub open spec fn build_tree(f: FuncV) -> RFuncV {
    RFuncV {
        name: f.name,
        params: f.params,
        body: tree(f, Seq::new(f.blocks.len(), |i: int| false), Seq::empty(), f.entry, None),
    }
}

/// Appends the Φ-edge copies of `block` for the edge from `prev`.
fn push_phi_copies(block: &crate::hir::BasicBlock, prev: BlockId, out: &mut Vec<ReactiveStatement>)
    ensures
        final(out).deep_view() == phi_copies(
            block.deep_view().instructions,
            0,
            prev.deep_view(),
            old(out).deep_view(),
        ),
{
    let ghost instrs = block.deep_view().instructions;
    let mut i: usize = 0;
    while i < block.instructions.len()
        invariant
            i <= block.instructions.len(),
            instrs == block.instructions.deep_view(),
            phi_copies(instrs, i as nat, prev.deep_view(), out.deep_view()) == phi_copies(
                instrs,
                0,
                prev.deep_view(),
                old(out).deep_view(),
            ),
        decreases block.instructions.len() - i,
    {
        let instr = &block.instructions[i];
        match &instr.value {
            InstructionValue::Phi { operands } => {
                let ghost ops = operands.deep_view();
                let ghost dest = instr.lvalue.deep_view();
                let ghost start = out.deep_view();
                let mut j: usize = 0;
                while j < operands.len()
                    invariant
                        j <= operands.len(),
                        ops == operands.deep_view(),
                        dest == instr.lvalue.deep_view(),
                        operand_copies(dest, ops, j as nat, prev.deep_view(), out.deep_view())
                            == operand_copies(dest, ops, 0, prev.deep_view(), start),
                    decreases operands.len() - j,
                {
                    if operands[j].0.0 == prev.0 {
                        let ghost before = *out;
                        let copy = ReactiveStatement::Instruction(
                            ReactiveInstruction {
                                lvalue: instr.lvalue.identifier.clone(),
                                value: ReactiveValue::LoadLocal(operands[j].1.identifier.clone()),
                                scope: None,
                            },
                        );
                        out.push(copy);
                        proof {
                            lemma_deep_push(before, *out, copy);
                        }
                    }
                    j += 1;
                }
            },
            _ => {},
        }
        i += 1;
    }
}

/// Appends the converted instructions of `block` that are no Φ.
fn push_body_instructions(block: &crate::hir::BasicBlock, out: &mut Vec<ReactiveStatement>)
    ensures
        final(out).deep_view() == body_instrs(
            block.deep_view().instructions,
            0,
            old(out).deep_view(),
        ),
{
    let ghost instrs = block.deep_view().instructions;
    let mut i: usize = 0;
    while i < block.instructions.len()
        invariant
            i <= block.instructions.len(),
            instrs == block.instructions.deep_view(),
            body_instrs(instrs, i as nat, out.deep_view()) == body_instrs(
                instrs,
                0,
                old(out).deep_view(),
            ),
        decreases block.instructions.len() - i,
    {
        let instr = &block.instructions[i];
        match &instr.value {
            InstructionValue::Phi { .. } => {},
            _ => {
                let ghost before = *out;
                let stmt = ReactiveStatement::Instruction(convert_instruction(instr));
                out.push(stmt);
                proof {
                    lemma_deep_push(before, *out, stmt);
                }
            },
        }
        i += 1;
    }
}

/// Rebuilds the statement tree of a function from its graph.
pub struct TreeBuilder<'a> {
    hir: &'a HIRFunction,
    visited_blocks: Vec<bool>,
    loop_stack: Vec<TreeLoopInfo>,
}

impl<'a> TreeBuilder<'a> {
    /// The function being rebuilt.
    pub closed spec fn function(&self) -> FuncV {
        self.hir.deep_view()
    }

    /// One mark per block, none set, and no enclosing loop.
    pub closed spec fn fresh(&self) -> bool {
        &&& self.visited_blocks@ == Seq::new(self.hir.blocks@.len(), |i: int| false)
        &&& self.loop_stack@.len() == 0
    }

    spec fn wf(&self) -> bool {
        self.visited_blocks@.len() == self.hir.blocks@.len()
    }

    /// A builder for `hir` with no block on the path and no enclosing loop.
    pub fn new(hir: &'a HIRFunction) -> (r: Self)
        ensures
            r.fresh(),
            r.function() == hir.deep_view(),
    {
        let mut visited: Vec<bool> = Vec::new();
        let mut i: usize = 0;
        while i < hir.blocks.len()
            invariant
                i <= hir.blocks.len(),
                visited@.len() == i,
                forall|k: int| 0 <= k < i ==> !visited@[k],
            decreases hir.blocks.len() - i,
        {
            visited.push(false);
            i += 1;
        }
        assert(visited@ =~= Seq::new(hir.blocks@.len(), |i: int| false));
        TreeBuilder { hir, visited_blocks: visited, loop_stack: Vec::new() }
    }

    /// Rebuilds the tree, as [`build_tree`] says.
    pub fn build(&mut self) -> (r: ReactiveFunction)
        requires
            old(self).fresh(),
        ensures
            r.deep_view() == build_tree(old(self).function()),
            final(self).fresh(),
            final(self).function() == old(self).function(),
    {
        let hir = self.hir;
        assert(self.loop_stack.deep_view() =~= Seq::empty());
        let body = self.build_block(hir.entry_block, None);
        proof {
            lemma_stmts_view(body);
        }
        ReactiveFunction { name: hir.name.clone(), params: clone_identifiers(&hir.params), body }
    }

    fn is_loop_header(&self, block_id: BlockId) -> (r: bool)
        ensures
            r == self.hir.deep_view().loop_headers.contains(block_id.deep_view()),
    {
        let mut i: usize = 0;
        while i < self.hir.loop_headers.len()
            invariant
                i <= self.hir.loop_headers.len(),
                forall|k: int|
                    0 <= k < i ==> self.hir.loop_headers.deep_view()[k] != block_id.deep_view(),
            decreases self.hir.loop_headers.len() - i,
        {
            if self.hir.loop_headers[i].0 == block_id.0 {
                assert(self.hir.loop_headers.deep_view()[i as int] == block_id.deep_view());
                return true;
            }
            i += 1;
        }
        false
    }

    /// The copies for the edge from `current` into `target`.
    fn emit_phi_assignments(&self, target: BlockId, current: BlockId, out: &mut Vec<
        ReactiveStatement,
    >)
        ensures
            final(out).deep_view() == if target.deep_view() < self.function().blocks.len() {
                phi_copies(
                    self.function().blocks[target.deep_view() as int].instructions,
                    0,
                    current.deep_view(),
                    old(out).deep_view(),
                )
            } else {
                old(out).deep_view()
            },
    {
        if target.0 < self.hir.blocks.len() {
            push_phi_copies(&self.hir.blocks[target.0], current, out);
        }
    }

    /// The header of the nearest enclosing loop, as [`nearest_header`] says.
    fn loop_header(&self) -> (r: Option<BlockId>)
        ensures
            r.deep_view() == nearest_header(self.loop_stack.deep_view()),
    {
        let ghost loops = self.loop_stack.deep_view();
        let mut n: usize = self.loop_stack.len();
        assert(loops.subrange(0, n as int) =~= loops);
        while n > 0
            invariant
                n <= self.loop_stack@.len(),
                loops == self.loop_stack.deep_view(),
                nearest_header(loops.subrange(0, n as int)) == nearest_header(loops),
            decreases n,
        {
            let info = self.loop_stack[n - 1];
            assert(loops.subrange(0, n as int).last() == info.deep_view());
            assert(loops.subrange(0, n as int).drop_last() =~= loops.subrange(0, n - 1));
            match info.header {
                Some(h) => {
                    return Some(h);
                },
                None => {},
            }
            n -= 1;
        }
        None
    }

    /// What follows a block that ends in a jump, as [`tree_goto`] says.
    fn build_goto(&mut self, block_id: BlockId, target: BlockId, statements: Vec<
        ReactiveStatement,
    >) -> (r: Vec<ReactiveStatement>)
        requires
            old(self).wf(),
        ensures
            final(self).wf(),
            final(self).hir == old(self).hir,
            final(self).visited_blocks@ == old(self).visited_blocks@,
            final(self).loop_stack@ == old(self).loop_stack@,
            r.deep_view() == tree_goto(
                old(self).function(),
                old(self).visited_blocks@,
                old(self).loop_stack.deep_view(),
                block_id.deep_view(),
                target.deep_view(),
                statements.deep_view(),
            ),
        decreases unvisited(old(self).visited_blocks@), 1nat,
    {
        let mut statements = statements;
        let n: usize = self.loop_stack.len();
        if n > 0 {
            let info = self.loop_stack[n - 1];
            assert(self.loop_stack.deep_view().last() == info.deep_view());
            if target.0 == info.break_target.0 {
                self.emit_phi_assignments(target, block_id, &mut statements);
                let ghost before = statements;
                statements.push(ReactiveStatement::Break);
                proof {
                    lemma_deep_push(before, statements, ReactiveStatement::Break);
                }
                return statements;
            }
        }
        let continues = match self.loop_header() {
            Some(h) => h.0 == target.0,
            None => false,
        };
        if continues {
            self.emit_phi_assignments(target, block_id, &mut statements);
            let ghost before = statements;
            statements.push(ReactiveStatement::Continue);
            proof {
                lemma_deep_push(before, statements, ReactiveStatement::Continue);
            }
            return statements;
        }
        let mut next = self.build_block(target, Some(block_id));
        let ghost a = statements;
        let ghost b = next;
        statements.append(&mut next);
        proof {
            lemma_deep_append(a, b, statements);
        }
        statements
    }

    /// The cases of a switch, as [`tree_cases`] says, and its default.
    fn build_cases(&mut self, block_id: BlockId, cases: &Vec<(crate::hir::Place, BlockId)>, default:
        BlockId) -> (r: Vec<ReactiveSwitchCase>)
        requires
            old(self).wf(),
        ensures
            final(self).wf(),
            final(self).hir == old(self).hir,
            final(self).visited_blocks@ == old(self).visited_blocks@,
            final(self).loop_stack@ == old(self).loop_stack@,
            r.deep_view() == tree_cases(
                old(self).function(),
                old(self).visited_blocks@,
                old(self).loop_stack.deep_view(),
                cases.deep_view(),
                0,
                block_id.deep_view(),
                Seq::empty(),
            ).push(
                CaseV {
                    label: None,
                    body: tree(
                        old(self).function(),
                        old(self).visited_blocks@,
                        old(self).loop_stack.deep_view(),
                        default.deep_view(),
                        Some(block_id.deep_view()),
                    ),
                },
            ),
        decreases unvisited(old(self).visited_blocks@), 2 + cases@.len(),
    {
        let mut r: Vec<ReactiveSwitchCase> = Vec::new();
        let mut i: usize = 0;
        assert(r.deep_view() =~= Seq::empty());
        let ghost f = self.function();
        let ghost visited = self.visited_blocks@;
        let ghost loops = self.loop_stack.deep_view();
        while i < cases.len()
            invariant
                i <= cases.len(),
                self.wf(),
                self.hir == old(self).hir,
                f == self.function(),
                self.visited_blocks@ == visited,
                visited == old(self).visited_blocks@,
                self.loop_stack@ == old(self).loop_stack@,
                loops == self.loop_stack.deep_view(),
                tree_cases(
                    f,
                    visited,
                    loops,
                    cases.deep_view(),
                    i as nat,
                    block_id.deep_view(),
                    r.deep_view(),
                ) == tree_cases(
                    f,
                    visited,
                    loops,
                    cases.deep_view(),
                    0,
                    block_id.deep_view(),
                    Seq::empty(),
                ),
            decreases cases.len() - i,
        {
            let body = self.build_block(cases[i].1, Some(block_id));
            let case = ReactiveSwitchCase { label: Some(cases[i].0.identifier.clone()), body };
            let ghost before = r;
            r.push(case);
            proof {
                lemma_stmts_view(body);
                lemma_deep_push(before, r, case);
            }
            i += 1;
        }
        let body = self.build_block(default, Some(block_id));
        let case = ReactiveSwitchCase { label: None, body };
        let ghost before = r;
        r.push(case);
        proof {
            lemma_stmts_view(body);
            lemma_deep_push(before, r, case);
        }
        r
    }

    /// The loop made of a header block that ends in a branch, and what
    /// follows the loop.
    fn build_loop(
        &mut self,
        block_id: BlockId,
        test: &crate::hir::Place,
        consequent: BlockId,
        alternate: BlockId,
        statements: Vec<ReactiveStatement>,
    ) -> (r: Vec<ReactiveStatement>)
        requires
            old(self).wf(),
            block_id.0 < old(self).hir.blocks.len(),
        ensures
            final(self).wf(),
            final(self).hir == old(self).hir,
            final(self).visited_blocks@ == old(self).visited_blocks@,
            final(self).loop_stack@ == old(self).loop_stack@,
            r.deep_view() == statements.deep_view().push(
                StmtV::While {
                    test: true_ident(),
                    body: body_instrs(
                        old(self).function().blocks[block_id.deep_view() as int].instructions,
                        0,
                        Seq::empty(),
                    ).push(
                        StmtV::If {
                            test: test.deep_view(),
                            consequent: Seq::empty(),
                            alternate: seq![StmtV::Break],
                        },
                    ) + tree(
                        old(self).function(),
                        old(self).visited_blocks@,
                        old(self).loop_stack.deep_view().push(
                            TreeLoopV {
                                header: Some(block_id.deep_view()),
                                break_target: alternate.deep_view(),
                            },
                        ),
                        consequent.deep_view(),
                        Some(block_id.deep_view()),
                    ),
                },
            ) + tree(
                old(self).function(),
                old(self).visited_blocks@,
                old(self).loop_stack.deep_view(),
                alternate.deep_view(),
                Some(block_id.deep_view()),
            ),
        decreases unvisited(old(self).visited_blocks@), 1nat,
    {
        let hir = self.hir;
        let mut statements = statements;
        let mut loop_body: Vec<ReactiveStatement> = Vec::new();
        assert(loop_body.deep_view() =~= Seq::empty());
        push_body_instructions(&hir.blocks[block_id.0], &mut loop_body);
        let none: Vec<ReactiveStatement> = Vec::new();
        let mut only_break: Vec<ReactiveStatement> = Vec::new();
        only_break.push(ReactiveStatement::Break);
        let check = ReactiveStatement::If {
            test: test.identifier.clone(),
            consequent: none,
            alternate: only_break,
        };
        proof {
            assert(stmts_view(none) =~= Seq::empty());
            assert(stmts_view(only_break) =~= seq![StmtV::Break]);
        }
        let ghost before = loop_body;
        loop_body.push(check);
        proof {
            lemma_deep_push(before, loop_body, check);
        }
        let ghost loops = self.loop_stack;
        let info = TreeLoopInfo { header: Some(block_id), break_target: alternate };
        self.loop_stack.push(info);
        proof {
            lemma_deep_push(loops, self.loop_stack, info);
        }
        let mut inner = self.build_block(consequent, Some(block_id));
        let ghost a = loop_body;
        let ghost b = inner;
        loop_body.append(&mut inner);
        proof {
            lemma_deep_append(a, b, loop_body);
        }
        self.loop_stack.pop();
        assert(self.loop_stack@ =~= old(self).loop_stack@);
        let mut name = String::from_str("true");
        let whole = ReactiveStatement::While {
            test: Identifier { name, id: 0 },
            body: loop_body,
        };
        proof {
            lemma_stmts_view(loop_body);
        }
        let ghost before = statements;
        statements.push(whole);
        proof {
            lemma_deep_push(before, statements, whole);
        }
        let mut rest = self.build_block(alternate, Some(block_id));
        let ghost a = statements;
        let ghost b = rest;
        statements.append(&mut rest);
        proof {
            lemma_deep_append(a, b, statements);
        }
        statements
    }

    /// What the terminal of an ordinary block contributes after `statements`.
    fn build_terminal(&mut self, block_id: BlockId, statements: Vec<ReactiveStatement>) -> (r: Vec<
        ReactiveStatement,
    >)
        requires
            old(self).wf(),
            block_id.0 < old(self).hir.blocks.len(),
        ensures
            final(self).wf(),
            final(self).hir == old(self).hir,
            final(self).visited_blocks@ == old(self).visited_blocks@,
            final(self).loop_stack@ == old(self).loop_stack@,
            r.deep_view() == terminal_tree(
                old(self).function(),
                old(self).visited_blocks@,
                old(self).loop_stack.deep_view(),
                block_id.deep_view(),
                statements.deep_view(),
            ),
        decreases unvisited(old(self).visited_blocks@), 3 + terminal_cases(
            old(self).function().blocks[block_id.deep_view() as int].terminal,
        ),
    {
        let hir = self.hir;
        let mut statements = statements;
        match &hir.blocks[block_id.0].terminal {
            Terminal::Return(place) => {
                let value = match place {
                    Some(p) => Some(p.identifier.clone()),
                    None => None,
                };
                let stmt = ReactiveStatement::Return(value);
                let ghost before = statements;
                statements.push(stmt);
                proof {
                    lemma_deep_push(before, statements, stmt);
                }
                statements
            },
            Terminal::Goto(target) => self.build_goto(block_id, *target, statements),
            Terminal::If { test, consequent, alternate } => {
                let then_stmts = self.build_block(*consequent, Some(block_id));
                let else_stmts = self.build_block(*alternate, Some(block_id));
                let stmt = ReactiveStatement::If {
                    test: test.identifier.clone(),
                    consequent: then_stmts,
                    alternate: else_stmts,
                };
                proof {
                    lemma_stmts_view(then_stmts);
                    lemma_stmts_view(else_stmts);
                }
                let ghost before = statements;
                statements.push(stmt);
                proof {
                    lemma_deep_push(before, statements, stmt);
                }
                statements
            },
            Terminal::Switch { test, cases, default, merge_target } => {
                let ghost loops = self.loop_stack;
                match merge_target {
                    Some(target) => {
                        let info = TreeLoopInfo { header: None, break_target: *target };
                        self.loop_stack.push(info);
                        proof {
                            lemma_deep_push(loops, self.loop_stack, info);
                        }
                    },
                    None => {},
                }
                let reactive_cases = self.build_cases(block_id, cases, *default);
                if merge_target.is_some() {
                    self.loop_stack.pop();
                }
                assert(self.loop_stack@ =~= old(self).loop_stack@);
                let stmt = ReactiveStatement::Switch {
                    test: test.identifier.clone(),
                    cases: reactive_cases,
                };
                proof {
                    lemma_cases_view(reactive_cases);
                }
                let ghost before = statements;
                statements.push(stmt);
                proof {
                    lemma_deep_push(before, statements, stmt);
                }
                statements
            },
        }
    }

    /// The statements of a block, as [`tree`] says.
    fn build_block(&mut self, block_id: BlockId, prev_id: Option<BlockId>) -> (r: Vec<
        ReactiveStatement,
    >)
        requires
            old(self).wf(),
        ensures
            final(self).wf(),
            final(self).hir == old(self).hir,
            final(self).visited_blocks@ == old(self).visited_blocks@,
            final(self).loop_stack@ == old(self).loop_stack@,
            r.deep_view() == tree(
                old(self).function(),
                old(self).visited_blocks@,
                old(self).loop_stack.deep_view(),
                block_id.deep_view(),
                prev_id.deep_view(),
            ),
        decreases unvisited(old(self).visited_blocks@), 0nat,
    {
        let hir = self.hir;
        let mut statements: Vec<ReactiveStatement> = Vec::new();
        assert(statements.deep_view() =~= Seq::empty());
        let b: usize = block_id.0;
        if b >= hir.blocks.len() {
            return statements;
        }
        let block = &hir.blocks[b];
        match prev_id {
            Some(p) => {
                push_phi_copies(block, p, &mut statements);
            },
            None => {},
        }
        if self.visited_blocks[b] {
            return statements;
        }
        proof {
            lemma_unvisited_update(self.visited_blocks@, b as int);
        }
        self.visited_blocks[b] = true;
        let header = self.is_loop_header(block_id);
        let r = if header {
            match &block.terminal {
                Terminal::If { test, consequent, alternate } => self.build_loop(
                    block_id,
                    test,
                    *consequent,
                    *alternate,
                    statements,
                ),
                _ => statements,
            }
        } else {
            push_body_instructions(block, &mut statements);
            self.build_terminal(block_id, statements)
        };
        self.visited_blocks[b] = false;
        assert(self.visited_blocks@ =~= old(self).visited_blocks@);
        r
    }
}

/// Copies a list of identifiers.
pub fn clone_identifiers(v: &Vec<Identifier>) -> (r: Vec<Identifier>)
    ensures
        r.deep_view() == v.deep_view(),
{
    let mut r: Vec<Identifier> = Vec::new();
    let mut i: usize = 0;
    while i < v.len()
        invariant
            i <= v.len(),
            r@.len() == i,
            forall|k: int| 0 <= k < i ==> r@[k] == v@[k],
        decreases v.len() - i,
    {
        r.push(v[i].clone());
        i += 1;
    }
    assert(r.deep_view() =~= v.deep_view());
    r
}

/// Rebuilds the statement tree of a function, as [`build_tree`] says.  The
/// scopes take no part in the shape of the tree.
pub fn build_reactive_function(
    hir: &HIRFunction,
    scope_result: &crate::hir::reactive_scopes::ReactiveScopeResult,
) -> (r: ReactiveFunction)
    ensures
        r.deep_view() == build_tree(hir.deep_view()),
{
    let mut builder = TreeBuilder::new(hir);
    builder.build()
}

} // verus!
