use react_compiler_rust::hir::inference::{infer_liveness, DisjointSet, IdentifierHash};
use react_compiler_rust::hir::{
    BasicBlock, BinaryOperator, BlockId, Constant, HIRFunction, Identifier, InstrId, Instruction,
    InstructionValue, Place, Terminal,
};

fn ident(name: &str, id: usize) -> Identifier {
    Identifier { name: name.to_string(), id }
}

fn place(name: &str, id: usize) -> Place {
    Place { identifier: ident(name, id) }
}

fn instr(id: usize, lvalue: Place, value: InstructionValue) -> Instruction {
    Instruction { id: InstrId(id), lvalue, value, scope: None }
}

fn single_block(instructions: Vec<Instruction>, terminal: Terminal) -> HIRFunction {
    HIRFunction {
        name: None,
        params: vec![],
        entry_block: BlockId(0),
        blocks: vec![BasicBlock { id: BlockId(0), instructions, terminal, preds: vec![] }],
        loop_headers: vec![],
    }
}

fn range(func: &HIRFunction, name: &str, id: usize) -> Option<(usize, usize)> {
    infer_liveness(func).range_of(&ident(name, id))
}

#[test]
fn new_set_has_every_identifier_alone() {
    let mut set = DisjointSet::new();
    assert_eq!(set.find(&ident("a", 1)), ident("a", 1));
    assert_eq!(set.find(&ident("b", 0)), ident("b", 0));
    assert_eq!(set.find(&ident("a", 1)), ident("a", 1));
}

#[test]
fn union_makes_the_second_representative_win() {
    let mut set = DisjointSet::new();
    set.union(&ident("a", 1), &ident("b", 1));
    assert_eq!(set.find(&ident("a", 1)), ident("b", 1));
    assert_eq!(set.find(&ident("b", 1)), ident("b", 1));
    assert_eq!(set.find(&ident("c", 1)), ident("c", 1));
}

#[test]
fn union_is_transitive() {
    let mut set = DisjointSet::new();
    set.union(&ident("a", 1), &ident("b", 1));
    set.union(&ident("b", 1), &ident("c", 1));
    set.union(&ident("x", 1), &ident("y", 1));
    assert_eq!(set.find(&ident("a", 1)), ident("c", 1));
    assert_eq!(set.find(&ident("b", 1)), ident("c", 1));
    assert_eq!(set.find(&ident("c", 1)), ident("c", 1));
    assert_eq!(set.find(&ident("x", 1)), ident("y", 1));
    set.union(&ident("c", 1), &ident("x", 1));
    assert_eq!(set.find(&ident("a", 1)), ident("y", 1));
}

#[test]
fn union_of_one_class_changes_nothing() {
    let mut set = DisjointSet::new();
    set.union(&ident("a", 1), &ident("b", 1));
    set.union(&ident("b", 1), &ident("a", 1));
    assert_eq!(set.find(&ident("a", 1)), ident("b", 1));
    set.union(&ident("a", 1), &ident("a", 1));
    assert_eq!(set.find(&ident("a", 1)), ident("b", 1));
}

#[test]
fn versions_of_one_name_are_different_identifiers() {
    let mut set = DisjointSet::new();
    set.union(&ident("a", 1), &ident("b", 1));
    assert_eq!(set.find(&ident("a", 2)), ident("a", 2));
}

#[test]
fn identifier_pair_is_made_from_an_identifier() {
    let h = IdentifierHash::from(&ident("x", 3));
    assert_eq!(h, IdentifierHash("x".to_string(), 3));
}

#[test]
fn definition_without_use_lives_one_position() {
    let f = single_block(
        vec![instr(0, place("t0", 0), InstructionValue::Constant(Constant::Int(1)))],
        Terminal::Return(None),
    );
    assert_eq!(range(&f, "t0", 0), Some((0, 1)));
    assert_eq!(range(&f, "t1", 1), None);
}

#[test]
fn use_extends_the_range_past_the_use() {
    let f = single_block(
        vec![
            instr(0, place("t0", 0), InstructionValue::Constant(Constant::Int(1))),
            instr(1, place("t1", 1), InstructionValue::Constant(Constant::Int(2))),
            instr(
                2,
                place("t2", 2),
                InstructionValue::BinaryOp {
                    op: BinaryOperator::Add,
                    left: place("t0", 0),
                    right: place("t1", 1),
                },
            ),
        ],
        Terminal::Return(Some(place("t2", 2))),
    );
    assert_eq!(range(&f, "t0", 0), Some((0, 3)));
    assert_eq!(range(&f, "t1", 1), Some((1, 3)));
    assert_eq!(range(&f, "t2", 2), Some((2, 3)));
}

#[test]
fn copies_share_the_union_of_their_ranges() {
    let f = single_block(
        vec![
            instr(0, place("t0", 0), InstructionValue::Constant(Constant::Int(1))),
            instr(1, place("x", 1), InstructionValue::LoadLocal(place("t0", 0))),
            instr(2, place("t2", 2), InstructionValue::Constant(Constant::Int(5))),
            instr(3, place("t3", 3), InstructionValue::LoadLocal(place("x", 1))),
        ],
        Terminal::Return(Some(place("t3", 3))),
    );
    assert_eq!(range(&f, "t0", 0), Some((0, 4)));
    assert_eq!(range(&f, "x", 1), Some((0, 4)));
    assert_eq!(range(&f, "t3", 3), Some((0, 4)));
    assert_eq!(range(&f, "t2", 2), Some((2, 3)));
    let mut result = infer_liveness(&f);
    assert_eq!(result.aliases.find(&ident("t0", 0)), result.aliases.find(&ident("t3", 3)));
    assert_eq!(result.aliases.find(&ident("t2", 2)), ident("t2", 2));
}

#[test]
fn adding_a_use_never_shrinks_a_range() {
    let base = vec![
        instr(0, place("t0", 0), InstructionValue::Constant(Constant::Int(1))),
        instr(1, place("t1", 1), InstructionValue::UnaryOp {
            op: react_compiler_rust::hir::UnaryOperator::Not,
            operand: place("t0", 0),
        }),
        instr(2, place("t2", 2), InstructionValue::Constant(Constant::Int(2))),
    ];
    let before = single_block(base, Terminal::Return(None));
    let with_use = single_block(
        vec![
            instr(0, place("t0", 0), InstructionValue::Constant(Constant::Int(1))),
            instr(1, place("t1", 1), InstructionValue::UnaryOp {
                op: react_compiler_rust::hir::UnaryOperator::Not,
                operand: place("t0", 0),
            }),
            instr(2, place("t2", 2), InstructionValue::Constant(Constant::Int(2))),
            instr(3, place("t3", 3), InstructionValue::UnaryOp {
                op: react_compiler_rust::hir::UnaryOperator::Not,
                operand: place("t0", 0),
            }),
        ],
        Terminal::Return(None),
    );
    for (name, id) in [("t0", 0), ("t1", 1), ("t2", 2)] {
        let (s0, e0) = range(&before, name, id).unwrap();
        let (s1, e1) = range(&with_use, name, id).unwrap();
        assert_eq!(s0, s1);
        assert!(e1 >= e0);
    }
    assert_eq!(range(&before, "t0", 0), Some((0, 2)));
    assert_eq!(range(&with_use, "t0", 0), Some((0, 4)));
}

#[test]
fn unreachable_blocks_are_not_scheduled() {
    let f = HIRFunction {
        name: None,
        params: vec![],
        entry_block: BlockId(0),
        blocks: vec![
            BasicBlock {
                id: BlockId(0),
                instructions: vec![instr(0, place("t0", 0), InstructionValue::Constant(Constant::Null))],
                terminal: Terminal::Return(None),
                preds: vec![],
            },
            BasicBlock {
                id: BlockId(1),
                instructions: vec![instr(1, place("t1", 1), InstructionValue::Constant(Constant::Null))],
                terminal: Terminal::Return(None),
                preds: vec![],
            },
        ],
        loop_headers: vec![],
    };
    assert_eq!(range(&f, "t0", 0), Some((0, 1)));
    assert_eq!(range(&f, "t1", 1), None);
}

#[test]
fn representative_represents_itself() {
    let mut set = DisjointSet::new();
    set.union(&ident("a", 1), &ident("b", 1));
    set.union(&ident("c", 1), &ident("a", 1));
    set.union(&ident("b", 1), &ident("a", 1));
    for name in ["a", "b", "c", "d"] {
        let r = set.find(&ident(name, 1));
        assert_eq!(set.find(&r), r);
        assert_eq!(set.find(&ident(name, 1)), r);
    }
    assert_eq!(set.find(&ident("a", 1)), set.find(&ident("c", 1)));
}
