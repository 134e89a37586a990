//! The surface syntax tree that lowering consumes: functions, statements,
//! expressions and assignment targets, reduced to what the compiler reads.

use crate::hir::Constant;
use vstd::prelude::*;

verus! {

/// Binary operators of the surface language.
#[derive(Debug, Clone, Copy, PartialEq, Eq, Structural)]
pub enum BinaryOp {
    Addition,
    Subtraction,
    Multiplication,
    Division,
    Remainder,
    Exponential,
    LessThan,
    LessEqualThan,
    GreaterThan,
    GreaterEqualThan,
    Equality,
    Inequality,
    StrictEquality,
    StrictInequality,
    BitwiseAnd,
    BitwiseOr,
    BitwiseXor,
    ShiftLeft,
    ShiftRight,
    ShiftRightZeroFill,
    Instanceof,
    In,
}

/// Prefix operators of the surface language.
#[derive(Debug, Clone, Copy, PartialEq, Eq, Structural)]
pub enum UnaryOp {
    LogicalNot,
    UnaryNegation,
    UnaryPlus,
    BitwiseNot,
    Typeof,
    Void,
    Delete,
}

/// Short-circuit operators.
#[derive(Debug, Clone, Copy, PartialEq, Eq, Structural)]
pub enum LogicalOp {
    And,
    Or,
    Coalesce,
}

/// Assignment operators.  `Other` stands for the operators without a binary
/// counterpart in the graph (exponentiation, logical assignment).
#[derive(Debug, Clone, Copy, PartialEq, Eq, Structural)]
pub enum AssignOp {
    Assign,
    Addition,
    Subtraction,
    Multiplication,
    Division,
    Remainder,
    BitwiseOr,
    BitwiseXor,
    BitwiseAnd,
    ShiftLeft,
    ShiftRight,
    ShiftRightZeroFill,
    Other,
}

/// A call argument.
#[derive(Debug)]
pub enum CallArgument {
    Regular(Expression),
    Spread(Expression),
}

/// An array-literal element.
#[derive(Debug)]
pub enum ArrayItem {
    Regular(Expression),
    Spread(Expression),
    Hole,
}

/// An object-literal key.  `Unknown` stands for a key that is neither a name,
/// a string nor a computed expression.
#[derive(Debug)]
pub enum PropertyKey {
    Named(String),
    Computed(Expression),
    Unknown,
}

/// An object-literal member.
#[derive(Debug)]
pub enum PropertyNode {
    KeyValue { key: PropertyKey, value: Expression },
    Spread(Expression),
}

/// One property of an object destructuring target.  `key` is `None` when the
/// key is not a plain name, `binding` is `None` when the bound target is not
/// an identifier.
#[derive(Debug)]
pub enum TargetProperty {
    Shorthand { name: String },
    KeyValue { key: Option<String>, binding: Option<String> },
}

/// One element of an array destructuring target.
#[derive(Debug)]
pub enum TargetElement {
    /// An elided position.
    Hole,
    /// A position bound to a variable.
    Identifier(String),
    /// A position bound to anything else.
    Other,
}

/// The left side of an assignment.
#[derive(Debug)]
#[allow(inconsistent_fields)]
pub enum AssignmentTarget {
    Identifier(String),
    StaticMember { object: Box<Expression>, property: String },
    ComputedMember { object: Box<Expression>, property: Box<Expression> },
    ArrayPattern(Vec<TargetElement>),
    ObjectPattern(Vec<TargetProperty>),
    Other,
}

/// An expression.  `Other` stands for every kind that lowering does not model.
#[derive(Debug)]
#[allow(inconsistent_fields)]
pub enum Expression {
    Literal(Constant),
    Identifier(String),
    Binary { op: BinaryOp, left: Box<Expression>, right: Box<Expression> },
    Unary { op: UnaryOp, argument: Box<Expression> },
    /// `target` is `None` when the operand is not a plain identifier.
    Update { increment: bool, prefix: bool, target: Option<String> },
    Assignment { op: AssignOp, target: Box<AssignmentTarget>, value: Box<Expression> },
    Call { callee: Box<Expression>, arguments: Vec<CallArgument> },
    Object { properties: Vec<PropertyNode> },
    Array { elements: Vec<ArrayItem> },
    StaticMember { object: Box<Expression>, property: String },
    ComputedMember { object: Box<Expression>, property: Box<Expression> },
    Logical { op: LogicalOp, left: Box<Expression>, right: Box<Expression> },
    Conditional { test: Box<Expression>, consequent: Box<Expression>, alternate: Box<Expression> },
    Other,
}

/// One declarator of a variable declaration.  `binding` is `None` when the
/// declared pattern is not a plain identifier.
#[derive(Debug)]
pub struct Declarator {
    pub binding: Option<String>,
    pub init: Option<Expression>,
}

/// The initialiser of a `for` statement.
#[derive(Debug)]
pub enum ForInit {
    Declaration(Vec<Declarator>),
    Sequence(Vec<Expression>),
    Expression(Expression),
}

/// One `case` (or, without a test, the `default`) of a switch.
#[derive(Debug)]
pub struct SwitchCase {
    pub test: Option<Expression>,
    pub consequent: Vec<Statement>,
}

/// A statement.  `Other` stands for every kind that lowering skips.
#[derive(Debug)]
#[allow(inconsistent_fields)]
pub enum Statement {
    Return(Option<Expression>),
    VariableDeclaration(Vec<Declarator>),
    Expression(Expression),
    If { test: Expression, consequent: Box<Statement>, alternate: Option<Box<Statement>> },
    While { test: Expression, body: Box<Statement> },
    For {
        init: Option<ForInit>,
        test: Option<Expression>,
        update: Option<Expression>,
        body: Box<Statement>,
    },
    Block(Vec<Statement>),
    Break,
    Continue,
    Switch { discriminant: Expression, cases: Vec<SwitchCase> },
    Other,
}

/// A formal parameter: a plain name or a destructuring pattern.
#[derive(Debug)]
pub enum Param {
    Identifier(String),
    Pattern(AssignmentTarget),
}

/// A function declaration.
#[derive(Debug)]
pub struct Function {
    pub name: Option<String>,
    pub params: Vec<Param>,
    pub body: Vec<Statement>,
}

/// The function declarations at the top level of a source text, in source
/// order.
#[derive(Debug)]
pub struct Program {
    pub functions: Vec<Function>,
}

/// What parsing a source text gave: a program, or the diagnostics.
#[derive(Debug)]
pub enum Parsed {
    Program(Program),
    Errors(Vec<String>),
}

} // verus!
