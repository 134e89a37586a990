//! The control-flow-graph representation: basic blocks of three-address
//! instructions, each block closed by a terminal, together with the
//! mathematical model (the deep view) of every type.

pub mod budget;
pub mod dominance;
pub mod dominators;
pub mod inference;
pub mod liveness_laws;
pub mod lowering;
pub mod naming;
pub mod reactive_function;
pub mod reactive_scopes;
pub mod schedule;
pub mod scope;
pub mod scope_laws;
pub mod ssa;
pub mod ssa_defs;
pub mod ssa_laws;

use crate::hir::scope::ScopeId;
use vstd::prelude::*;

verus! {

/// Identifies a basic block: its position in the function's block list.
#[derive(Debug, Clone, Copy, PartialEq, Eq, Structural, Hash, PartialOrd, Ord)]
pub struct BlockId(pub usize);

impl DeepView for BlockId {
    type V = nat;

    open spec fn deep_view(&self) -> nat {
        self.0 as nat
    }
}

/// Identifies an instruction within a function.
#[derive(Debug, Clone, Copy, PartialEq, Eq, Structural, Hash)]
pub struct InstrId(pub usize);

impl DeepView for InstrId {
    type V = nat;

    open spec fn deep_view(&self) -> nat {
        self.0 as nat
    }
}

/// A name together with its version.
#[derive(Debug, PartialEq, Eq, Hash)]
pub struct Identifier {
    pub name: String,
    pub id: usize,
}

/// Model of an [`Identifier`] (and of a [`Place`], which only wraps one).
pub ghost struct IdentV {
    pub name: Seq<char>,
    pub id: nat,
}

impl DeepView for Identifier {
    type V = IdentV;

    open spec fn deep_view(&self) -> IdentV {
        IdentV { name: self.name@, id: self.id as nat }
    }
}

impl Clone for Identifier {
    fn clone(&self) -> (r: Self)
        ensures
            r == *self,
    {
        Identifier { name: self.name.clone(), id: self.id }
    }
}

impl Identifier {
    /// Whether two identifiers have the same name and version.
    pub fn same(&self, other: &Identifier) -> (r: bool)
        ensures
            r == (self.deep_view() == other.deep_view()),
    {
        let r = self.id == other.id && self.name == other.name;
        proof {
            if self.name@ == other.name@ {
                assert(self.name@ =~= other.name@);
            }
        }
        r
    }
}

/// A location holding a value; the operand type of every instruction.
#[derive(Debug)]
pub struct Place {
    pub identifier: Identifier,
}

impl DeepView for Place {
    type V = IdentV;

    open spec fn deep_view(&self) -> IdentV {
        self.identifier.deep_view()
    }
}

impl Clone for Place {
    fn clone(&self) -> (r: Self)
        ensures
            r == *self,
    {
        Place { identifier: self.identifier.clone() }
    }
}

/// An argument of a call.
#[derive(Debug)]
pub enum Argument {
    Regular(Place),
    Spread(Place),
}

pub ghost enum ArgV {
    Regular(IdentV),
    Spread(IdentV),
}

impl DeepView for Argument {
    type V = ArgV;

    open spec fn deep_view(&self) -> ArgV {
        match self {
            Argument::Regular(p) => ArgV::Regular(p.deep_view()),
            Argument::Spread(p) => ArgV::Spread(p.deep_view()),
        }
    }
}

impl Clone for Argument {
    fn clone(&self) -> (r: Self)
        ensures
            r == *self,
    {
        match self {
            Argument::Regular(p) => Argument::Regular(p.clone()),
            Argument::Spread(p) => Argument::Spread(p.clone()),
        }
    }
}

/// The key of an object-literal property.
#[derive(Debug)]
pub enum ObjectPropertyKey {
    Identifier(String),
    Computed(Place),
}

pub ghost enum KeyV {
    Identifier(Seq<char>),
    Computed(IdentV),
}

impl DeepView for ObjectPropertyKey {
    type V = KeyV;

    open spec fn deep_view(&self) -> KeyV {
        match self {
            ObjectPropertyKey::Identifier(s) => KeyV::Identifier(s@),
            ObjectPropertyKey::Computed(p) => KeyV::Computed(p.deep_view()),
        }
    }
}

impl Clone for ObjectPropertyKey {
    fn clone(&self) -> (r: Self)
        ensures
            r == *self,
    {
        match self {
            ObjectPropertyKey::Identifier(s) => ObjectPropertyKey::Identifier(s.clone()),
            ObjectPropertyKey::Computed(p) => ObjectPropertyKey::Computed(p.clone()),
        }
    }
}

/// A property of an object literal.
#[derive(Debug)]
pub enum ObjectProperty {
    KeyValue { key: ObjectPropertyKey, value: Place },
    Spread(Place),
}

pub ghost enum PropV {
    KeyValue { key: KeyV, value: IdentV },
    Spread(IdentV),
}

impl DeepView for ObjectProperty {
    type V = PropV;

    open spec fn deep_view(&self) -> PropV {
        match self {
            ObjectProperty::KeyValue { key, value } => PropV::KeyValue {
                key: key.deep_view(),
                value: value.deep_view(),
            },
            ObjectProperty::Spread(p) => PropV::Spread(p.deep_view()),
        }
    }
}

impl Clone for ObjectProperty {
    fn clone(&self) -> (r: Self)
        ensures
            r == *self,
    {
        match self {
            ObjectProperty::KeyValue { key, value } => ObjectProperty::KeyValue {
                key: key.clone(),
                value: value.clone(),
            },
            ObjectProperty::Spread(p) => ObjectProperty::Spread(p.clone()),
        }
    }
}

/// An element of an array literal.
#[derive(Debug)]
pub enum ArrayElement {
    Regular(Place),
    Spread(Place),
    Hole,
}

pub ghost enum ElemV {
    Regular(IdentV),
    Spread(IdentV),
    Hole,
}

impl DeepView for ArrayElement {
    type V = ElemV;

    open spec fn deep_view(&self) -> ElemV {
        match self {
            ArrayElement::Regular(p) => ElemV::Regular(p.deep_view()),
            ArrayElement::Spread(p) => ElemV::Spread(p.deep_view()),
            ArrayElement::Hole => ElemV::Hole,
        }
    }
}

impl Clone for ArrayElement {
    fn clone(&self) -> (r: Self)
        ensures
            r == *self,
    {
        match self {
            ArrayElement::Regular(p) => ArrayElement::Regular(p.clone()),
            ArrayElement::Spread(p) => ArrayElement::Spread(p.clone()),
            ArrayElement::Hole => ArrayElement::Hole,
        }
    }
}

/// A literal.  A number without fractional part is an `Int`; any other number
/// is a `Float`, carried as its decimal text.
#[derive(Debug)]
pub enum Constant {
    Int(i64),
    Float(String),
    String(String),
    Boolean(bool),
    Null,
    Undefined,
}

pub ghost enum ConstV {
    Int(int),
    Float(Seq<char>),
    String(Seq<char>),
    Boolean(bool),
    Null,
    Undefined,
}

impl DeepView for Constant {
    type V = ConstV;

    open spec fn deep_view(&self) -> ConstV {
        match self {
            Constant::Int(n) => ConstV::Int(*n as int),
            Constant::Float(s) => ConstV::Float(s@),
            Constant::String(s) => ConstV::String(s@),
            Constant::Boolean(b) => ConstV::Boolean(*b),
            Constant::Null => ConstV::Null,
            Constant::Undefined => ConstV::Undefined,
        }
    }
}

impl Clone for Constant {
    fn clone(&self) -> (r: Self)
        ensures
            r == *self,
    {
        match self {
            Constant::Int(n) => Constant::Int(*n),
            Constant::Float(s) => Constant::Float(s.clone()),
            Constant::String(s) => Constant::String(s.clone()),
            Constant::Boolean(b) => Constant::Boolean(*b),
            Constant::Null => Constant::Null,
            Constant::Undefined => Constant::Undefined,
        }
    }
}

#[derive(Debug, Clone, Copy, PartialEq, Eq, Structural)]
pub enum BinaryOperator {
    Add,
    Sub,
    Mul,
    Div,
    Mod,
    LessThan,
    LessThanEqual,
    GreaterThan,
    GreaterThanEqual,
    Equal,
    NotEqual,
    StrictEqual,
    StrictNotEqual,
    And,
    Or,
    BitwiseAnd,
    BitwiseOr,
    BitwiseXor,
    LeftShift,
    RightShift,
    UnsignedRightShift,
    InstanceOf,
    In,
}

#[derive(Debug, Clone, Copy, PartialEq, Eq, Structural)]
pub enum UnaryOperator {
    Not,
    Negate,
    Plus,
    BitwiseNot,
    TypeOf,
    Void,
    Delete,
    /// Whether the operand is `null` or `undefined`.
    IsNullish,
}

/// The operation of an instruction.
#[derive(Debug)]
#[allow(inconsistent_fields)]
pub enum InstructionValue {
    Constant(Constant),
    BinaryOp { op: BinaryOperator, left: Place, right: Place },
    UnaryOp { op: UnaryOperator, operand: Place },
    Call { callee: Place, args: Vec<Argument> },
    Object { properties: Vec<ObjectProperty> },
    Array { elements: Vec<ArrayElement> },
    PropertyLoad { object: Place, property: String },
    PropertyStore { object: Place, property: String, value: Place },
    ComputedLoad { object: Place, property: Place },
    ComputedStore { object: Place, property: Place, value: Place },
    /// Reads a local variable.
    LoadLocal(Place),
    /// Writes the second place into the local variable named by the first.
    StoreLocal(Place, Place),
    /// Selects among incoming values by the predecessor taken.
    Phi { operands: Vec<(BlockId, Place)> },
}

#[allow(inconsistent_fields)]
pub ghost enum ValueV {
    Constant(ConstV),
    BinaryOp { op: BinaryOperator, left: IdentV, right: IdentV },
    UnaryOp { op: UnaryOperator, operand: IdentV },
    Call { callee: IdentV, args: Seq<ArgV> },
    Object { properties: Seq<PropV> },
    Array { elements: Seq<ElemV> },
    PropertyLoad { object: IdentV, property: Seq<char> },
    PropertyStore { object: IdentV, property: Seq<char>, value: IdentV },
    ComputedLoad { object: IdentV, property: IdentV },
    ComputedStore { object: IdentV, property: IdentV, value: IdentV },
    LoadLocal(IdentV),
    StoreLocal(IdentV, IdentV),
    Phi { operands: Seq<(nat, IdentV)> },
}

impl DeepView for InstructionValue {
    type V = ValueV;

    open spec fn deep_view(&self) -> ValueV {
        match self {
            InstructionValue::Constant(c) => ValueV::Constant(c.deep_view()),
            InstructionValue::BinaryOp { op, left, right } => ValueV::BinaryOp {
                op: *op,
                left: left.deep_view(),
                right: right.deep_view(),
            },
            InstructionValue::UnaryOp { op, operand } => ValueV::UnaryOp {
                op: *op,
                operand: operand.deep_view(),
            },
            InstructionValue::Call { callee, args } => ValueV::Call {
                callee: callee.deep_view(),
                args: args.deep_view(),
            },
            InstructionValue::Object { properties } => ValueV::Object {
                properties: properties.deep_view(),
            },
            InstructionValue::Array { elements } => ValueV::Array { elements: elements.deep_view() },
            InstructionValue::PropertyLoad { object, property } => ValueV::PropertyLoad {
                object: object.deep_view(),
                property: property@,
            },
            InstructionValue::PropertyStore { object, property, value } => ValueV::PropertyStore {
                object: object.deep_view(),
                property: property@,
                value: value.deep_view(),
            },
            InstructionValue::ComputedLoad { object, property } => ValueV::ComputedLoad {
                object: object.deep_view(),
                property: property.deep_view(),
            },
            InstructionValue::ComputedStore { object, property, value } => ValueV::ComputedStore {
                object: object.deep_view(),
                property: property.deep_view(),
                value: value.deep_view(),
            },
            InstructionValue::LoadLocal(p) => ValueV::LoadLocal(p.deep_view()),
            InstructionValue::StoreLocal(t, v) => ValueV::StoreLocal(t.deep_view(), v.deep_view()),
            InstructionValue::Phi { operands } => ValueV::Phi { operands: operands.deep_view() },
        }
    }
}

/// `lvalue = value`, optionally assigned to a reactive scope.
#[derive(Debug)]
pub struct Instruction {
    pub id: InstrId,
    pub lvalue: Place,
    pub value: InstructionValue,
    pub scope: Option<ScopeId>,
}

pub ghost struct InstrV {
    pub id: nat,
    pub lvalue: IdentV,
    pub value: ValueV,
    pub scope: Option<nat>,
}

impl DeepView for Instruction {
    type V = InstrV;

    open spec fn deep_view(&self) -> InstrV {
        InstrV {
            id: self.id.deep_view(),
            lvalue: self.lvalue.deep_view(),
            value: self.value.deep_view(),
            scope: self.scope.deep_view(),
        }
    }
}

/// How control leaves a block.
#[derive(Debug)]
pub enum Terminal {
    Goto(BlockId),
    If { test: Place, consequent: BlockId, alternate: BlockId },
    Return(Option<Place>),
    /// `merge_target` is where a `break` inside the switch continues.
    Switch { test: Place, cases: Vec<(Place, BlockId)>, default: BlockId, merge_target: Option<BlockId> },
}

pub ghost enum TermV {
    Goto(nat),
    If { test: IdentV, consequent: nat, alternate: nat },
    Return(Option<IdentV>),
    Switch { test: IdentV, cases: Seq<(IdentV, nat)>, default: nat, merge_target: Option<nat> },
}

impl DeepView for Terminal {
    type V = TermV;

    open spec fn deep_view(&self) -> TermV {
        match self {
            Terminal::Goto(t) => TermV::Goto(t.deep_view()),
            Terminal::If { test, consequent, alternate } => TermV::If {
                test: test.deep_view(),
                consequent: consequent.deep_view(),
                alternate: alternate.deep_view(),
            },
            Terminal::Return(p) => TermV::Return(p.deep_view()),
            Terminal::Switch { test, cases, default, merge_target } => TermV::Switch {
                test: test.deep_view(),
                cases: cases.deep_view(),
                default: default.deep_view(),
                merge_target: merge_target.deep_view(),
            },
        }
    }
}

/// The blocks that a terminal may pass control to, in the order in which it
/// names them: the cases of a switch, then its default.
pub open spec fn term_successors(t: TermV) -> Seq<nat> {
    match t {
        TermV::Goto(target) => seq![target],
        TermV::If { consequent, alternate, .. } => seq![consequent, alternate],
        TermV::Return(_) => Seq::empty(),
        TermV::Switch { cases, default, .. } => Seq::new(cases.len(), |i: int| cases[i].1).push(
            default,
        ),
    }
}

/// A straight-line sequence of instructions closed by a terminal.
#[derive(Debug)]
pub struct BasicBlock {
    pub id: BlockId,
    pub instructions: Vec<Instruction>,
    pub terminal: Terminal,
    pub preds: Vec<BlockId>,
}

pub ghost struct BlockV {
    pub id: nat,
    pub instructions: Seq<InstrV>,
    pub terminal: TermV,
    pub preds: Seq<nat>,
}

impl DeepView for BasicBlock {
    type V = BlockV;

    open spec fn deep_view(&self) -> BlockV {
        BlockV {
            id: self.id.deep_view(),
            instructions: self.instructions.deep_view(),
            terminal: self.terminal.deep_view(),
            preds: self.preds.deep_view(),
        }
    }
}

impl BasicBlock {
    /// The successor blocks, as [`term_successors`] lists them.
    pub fn successors(&self) -> (succs: Vec<BlockId>)
        ensures
            succs.deep_view() == term_successors(self.terminal.deep_view()),
    {
        match &self.terminal {
            Terminal::Goto(target) => {
                let succs = vec![*target];
                assert(succs.deep_view() =~= term_successors(self.terminal.deep_view()));
                succs
            },
            Terminal::If { consequent, alternate, .. } => {
                let succs = vec![*consequent, *alternate];
                assert(succs.deep_view() =~= term_successors(self.terminal.deep_view()));
                succs
            },
            Terminal::Return(_) => {
                let succs = Vec::new();
                assert(succs.deep_view() =~= term_successors(self.terminal.deep_view()));
                succs
            },
            Terminal::Switch { cases, default, .. } => {
                let mut succs: Vec<BlockId> = Vec::new();
                let mut i: usize = 0;
                while i < cases.len()
                    invariant
                        i <= cases.len(),
                        succs@.len() == i,
                        forall|k: int| 0 <= k < i ==> succs@[k] == cases@[k].1,
                    decreases cases.len() - i,
                {
                    succs.push(cases[i].1);
                    i += 1;
                }
                succs.push(*default);
                assert(succs.deep_view() =~= term_successors(self.terminal.deep_view()));
                succs
            },
        }
    }
}

/// A function as a graph of basic blocks.  Block `i` of `blocks` is the block
/// with id `i`; `loop_headers` lists the blocks that head a loop.
#[derive(Debug)]
pub struct HIRFunction {
    pub name: Option<String>,
    pub params: Vec<Identifier>,
    pub entry_block: BlockId,
    pub blocks: Vec<BasicBlock>,
    pub loop_headers: Vec<BlockId>,
}

pub ghost struct FuncV {
    pub name: Option<Seq<char>>,
    pub params: Seq<IdentV>,
    pub entry: nat,
    pub blocks: Seq<BlockV>,
    pub loop_headers: Seq<nat>,
}

impl DeepView for HIRFunction {
    type V = FuncV;

    open spec fn deep_view(&self) -> FuncV {
        FuncV {
            name: self.name.deep_view(),
            params: self.params.deep_view(),
            entry: self.entry_block.deep_view(),
            blocks: self.blocks.deep_view(),
            loop_headers: self.loop_headers.deep_view(),
        }
    }
}

/// The successors of block `b` of a list of blocks.
pub open spec fn block_successors(blocks: Seq<BlockV>, b: int) -> Seq<nat> {
    term_successors(blocks[b].terminal)
}

/// Every block sits at the position its id names, every successor of a block
/// is a block of the list, and so is the entry.
pub open spec fn well_formed(f: FuncV) -> bool {
    &&& f.entry < f.blocks.len()
    &&& forall|i: int| 0 <= i < f.blocks.len() ==> (#[trigger] f.blocks[i]).id == i
    &&& forall|i: int, k: int|
        0 <= i < f.blocks.len() && 0 <= k < block_successors(f.blocks, i).len() ==> (
        #[trigger] block_successors(f.blocks, i)[k]) < f.blocks.len()
}

/// Whether `(b, i)` is the position of an instruction.
pub open spec fn at(blocks: Seq<BlockV>, b: int, i: int) -> bool {
    0 <= b < blocks.len() && 0 <= i < blocks[b].instructions.len()
}

/// The identifier that the instruction at `(b, i)` defines.
pub open spec fn lvalue_at(blocks: Seq<BlockV>, b: int, i: int) -> IdentV {
    blocks[b].instructions[i].lvalue
}

/// Every identifier with a version of at least 1 is defined by at most one
/// instruction.
pub open spec fn single_versions(blocks: Seq<BlockV>) -> bool {
    forall|b1: int, i1: int, b2: int, i2: int|
        #![trigger lvalue_at(blocks, b1, i1), lvalue_at(blocks, b2, i2)]
        at(blocks, b1, i1) && at(blocks, b2, i2) && (b1 != b2 || i1 != i2) && lvalue_at(
            blocks,
            b1,
            i1,
        ).id >= 1 ==> lvalue_at(blocks, b1, i1) != lvalue_at(blocks, b2, i2)
}

/// The target of the store at `(b, i)`, if the instruction there is a store.
pub open spec fn store_target_at(blocks: Seq<BlockV>, b: int, i: int) -> Option<IdentV> {
    match blocks[b].instructions[i].value {
        ValueV::StoreLocal(t, _) => Some(t),
        _ => None,
    }
}

/// No two instructions define identifiers with the same version.
pub open spec fn distinct_versions(blocks: Seq<BlockV>) -> bool {
    forall|b1: int, i1: int, b2: int, i2: int|
        #![trigger lvalue_at(blocks, b1, i1), lvalue_at(blocks, b2, i2)]
        at(blocks, b1, i1) && at(blocks, b2, i2) && (b1 != b2 || i1 != i2) ==> lvalue_at(
            blocks,
            b1,
            i1,
        ).id != lvalue_at(blocks, b2, i2).id
}

/// Pushing onto a vector pushes the element's model onto the vector's model.
pub proof fn lemma_deep_push<T: DeepView>(before: Vec<T>, after: Vec<T>, x: T)
    requires
        after@ == before@.push(x),
    ensures
        after.deep_view() == before.deep_view().push(x.deep_view()),
{
    assert(after.deep_view() =~= before.deep_view().push(x.deep_view()));
}

/// Replacing an element of a vector replaces its model in the vector's model.
pub proof fn lemma_deep_update<T: DeepView>(before: Vec<T>, after: Vec<T>, i: int, x: T)
    requires
        0 <= i < before@.len(),
        after@ == before@.update(i, x),
    ensures
        after.deep_view() == before.deep_view().update(i, x.deep_view()),
{
    assert(after.deep_view() =~= before.deep_view().update(i, x.deep_view()));
}

/// Appending vectors appends their models.
pub proof fn lemma_deep_append<T: DeepView>(a: Vec<T>, b: Vec<T>, c: Vec<T>)
    requires
        c@ == a@ + b@,
    ensures
        c.deep_view() == a.deep_view() + b.deep_view(),
{
    assert(c.deep_view() =~= a.deep_view() + b.deep_view());
}

} // verus!
