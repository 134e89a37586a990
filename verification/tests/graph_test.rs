use react_compiler_rust::hir::dominators::{intersect, DominatorTree};
use react_compiler_rust::hir::schedule::{linearize_instructions, reverse_post_order};
use react_compiler_rust::hir::ssa::{enter_ssa, rebuild_predecessors};
use react_compiler_rust::hir::{
    BasicBlock, BlockId, Constant, HIRFunction, Identifier, InstrId, Instruction,
    InstructionValue, Place, Terminal,
};

fn ident(name: &str, id: usize) -> Identifier {
    Identifier { name: name.to_string(), id }
}

fn place(name: &str, id: usize) -> Place {
    Place { identifier: ident(name, id) }
}

fn instr(id: usize, lvalue: Place, value: InstructionValue) -> Instruction {
    Instruction { id: InstrId(id), lvalue, value, scope: None }
}

fn block(id: usize, instructions: Vec<Instruction>, terminal: Terminal, preds: &[usize]) -> BasicBlock {
    BasicBlock {
        id: BlockId(id),
        instructions,
        terminal,
        preds: preds.iter().map(|p| BlockId(*p)).collect(),
    }
}

fn function(blocks: Vec<BasicBlock>) -> HIRFunction {
    HIRFunction { name: None, params: vec![], entry_block: BlockId(0), blocks, loop_headers: vec![] }
}

fn branch(then: usize, otherwise: usize) -> Terminal {
    Terminal::If { test: place("c", 0), consequent: BlockId(then), alternate: BlockId(otherwise) }
}

fn diamond() -> HIRFunction {
    function(vec![
        block(0, vec![], branch(1, 2), &[]),
        block(1, vec![], Terminal::Goto(BlockId(3)), &[0]),
        block(2, vec![], Terminal::Goto(BlockId(3)), &[0]),
        block(3, vec![], Terminal::Return(None), &[1, 2]),
    ])
}

fn looping() -> HIRFunction {
    function(vec![
        block(0, vec![], Terminal::Goto(BlockId(1)), &[]),
        block(1, vec![], branch(2, 3), &[0, 2]),
        block(2, vec![], Terminal::Goto(BlockId(1)), &[1]),
        block(3, vec![], Terminal::Return(None), &[1]),
        block(4, vec![], Terminal::Goto(BlockId(3)), &[]),
    ])
}

fn ids(list: &[BlockId]) -> Vec<usize> {
    list.iter().map(|b| b.0).collect()
}

#[test]
fn successors_follow_the_terminal() {
    let goto = block(0, vec![], Terminal::Goto(BlockId(7)), &[]);
    assert_eq!(ids(&goto.successors()), vec![7]);
    let cond = block(0, vec![], branch(1, 2), &[]);
    assert_eq!(ids(&cond.successors()), vec![1, 2]);
    let ret = block(0, vec![], Terminal::Return(Some(place("t0", 0))), &[]);
    assert_eq!(ids(&ret.successors()), Vec::<usize>::new());
    let switch = block(
        0,
        vec![],
        Terminal::Switch {
            test: place("t0", 0),
            cases: vec![(place("t1", 1), BlockId(4)), (place("t2", 2), BlockId(5))],
            default: BlockId(6),
            merge_target: Some(BlockId(9)),
        },
        &[],
    );
    assert_eq!(ids(&switch.successors()), vec![4, 5, 6]);
}

#[test]
fn identifiers_compare_by_name_and_version() {
    assert!(ident("x", 1).same(&ident("x", 1)));
    assert!(!ident("x", 1).same(&ident("x", 2)));
    assert!(!ident("x", 1).same(&ident("y", 1)));
}

#[test]
fn reverse_post_order_starts_at_the_entry() {
    assert_eq!(ids(&reverse_post_order(&diamond())), vec![0, 2, 1, 3]);
    assert_eq!(ids(&reverse_post_order(&looping())), vec![0, 1, 3, 2]);
}

#[test]
fn schedule_lays_blocks_end_to_end() {
    let f = function(vec![
        block(
            0,
            vec![instr(0, place("t0", 0), InstructionValue::Constant(Constant::Int(1)))],
            Terminal::Goto(BlockId(2)),
            &[],
        ),
        block(
            1,
            vec![instr(1, place("t1", 1), InstructionValue::Constant(Constant::Int(2)))],
            Terminal::Return(None),
            &[],
        ),
        block(
            2,
            vec![
                instr(2, place("t2", 2), InstructionValue::Constant(Constant::Int(3))),
                instr(3, place("t3", 3), InstructionValue::Constant(Constant::Int(4))),
            ],
            Terminal::Return(None),
            &[0],
        ),
    ]);
    let schedule: Vec<usize> = linearize_instructions(&f).iter().map(|i| i.id.0).collect();
    assert_eq!(schedule, vec![0, 2, 3]);
}

#[test]
fn dominators_of_a_diamond() {
    let tree = DominatorTree::compute(&diamond());
    assert_eq!(tree.idoms, vec![Some(BlockId(0)); 4]);
    let frontiers: Vec<Vec<usize>> = tree.dominance_frontiers.iter().map(|f| ids(f)).collect();
    assert_eq!(frontiers, vec![vec![], vec![3], vec![3], vec![]]);
}

#[test]
fn dominators_of_a_loop() {
    let tree = DominatorTree::compute(&looping());
    assert_eq!(
        tree.idoms,
        vec![Some(BlockId(0)), Some(BlockId(0)), Some(BlockId(1)), Some(BlockId(1)), None]
    );
    let frontiers: Vec<Vec<usize>> = tree.dominance_frontiers.iter().map(|f| ids(f)).collect();
    assert_eq!(frontiers, vec![vec![], vec![1], vec![1], vec![], vec![]]);
}

#[test]
fn dominators_are_the_same_when_computed_again() {
    for f in [diamond(), looping()] {
        let first = DominatorTree::compute(&f);
        let second = DominatorTree::compute(&f);
        assert_eq!(first.idoms, second.idoms);
        assert_eq!(first.dominance_frontiers, second.dominance_frontiers);
    }
}

#[test]
fn intersect_climbs_to_the_common_ancestor() {
    let d = vec![0, 0, 1, 1, 3];
    assert_eq!(intersect(&d, 2, 3), 1);
    assert_eq!(intersect(&d, 4, 2), 1);
    assert_eq!(intersect(&d, 4, 4), 4);
    assert_eq!(intersect(&d, 0, 4), 0);
}

#[test]
fn predecessors_mirror_successors() {
    let mut f = function(vec![
        block(0, vec![], branch(1, 2), &[9]),
        block(1, vec![], Terminal::Goto(BlockId(3)), &[]),
        block(2, vec![], Terminal::Goto(BlockId(3)), &[3, 3]),
        block(3, vec![], branch(0, 0), &[]),
    ]);
    rebuild_predecessors(&mut f.blocks);
    let preds: Vec<Vec<usize>> = f.blocks.iter().map(|b| ids(&b.preds)).collect();
    assert_eq!(preds, vec![vec![3, 3], vec![0], vec![0], vec![1, 2]]);
    for b in 0..4 {
        for s in 0..4 {
            let is_pred = f.blocks[s].preds.contains(&BlockId(b));
            let is_succ = f.blocks[b].successors().contains(&BlockId(s));
            assert_eq!(is_pred, is_succ);
        }
    }
}

fn store(id: usize, temp: usize, var: &str, value: usize) -> Instruction {
    instr(
        id,
        place(&format!("t{}", temp), temp),
        InstructionValue::StoreLocal(place(var, 0), place(&format!("t{}", value), value)),
    )
}

fn constant(id: usize, n: i64) -> Instruction {
    instr(id, place(&format!("t{}", id), id), InstructionValue::Constant(Constant::Int(n)))
}

fn stores_in_both_branches() -> HIRFunction {
    function(vec![
        block(0, vec![constant(0, 1), store(1, 1, "x", 0)], branch(1, 2), &[]),
        block(1, vec![constant(2, 2), store(3, 3, "x", 2)], Terminal::Goto(BlockId(3)), &[]),
        block(2, vec![constant(4, 3), store(5, 5, "x", 4)], Terminal::Goto(BlockId(3)), &[]),
        block(
            3,
            vec![instr(6, place("t6", 6), InstructionValue::LoadLocal(place("x", 0)))],
            Terminal::Return(Some(place("t6", 6))),
            &[],
        ),
    ])
}

#[test]
fn ssa_places_a_phi_at_the_join() {
    let ssa = enter_ssa(stores_in_both_branches()).unwrap();
    let join = &ssa.blocks[3];
    assert_eq!(join.instructions.len(), 2);
    let phi = &join.instructions[0];
    assert_eq!(phi.id, InstrId(7));
    assert_eq!(phi.lvalue.identifier, ident("x", 4));
    match &phi.value {
        InstructionValue::Phi { operands } => {
            let seen: Vec<(usize, Identifier)> =
                operands.iter().map(|(b, p)| (b.0, p.identifier.clone())).collect();
            assert_eq!(seen, vec![(1, ident("x", 2)), (2, ident("x", 3))]);
        }
        other => panic!("expected a phi, got {:?}", other),
    }
    match &join.instructions[1].value {
        InstructionValue::LoadLocal(p) => assert_eq!(p.identifier, ident("x", 4)),
        other => panic!("expected a load, got {:?}", other),
    }
}

#[test]
fn ssa_turns_stores_into_versioned_copies() {
    let ssa = enter_ssa(stores_in_both_branches()).unwrap();
    let first = &ssa.blocks[0].instructions[1];
    assert_eq!(first.lvalue.identifier, ident("x", 1));
    match &first.value {
        InstructionValue::LoadLocal(p) => assert_eq!(p.identifier, ident("t0", 0)),
        other => panic!("expected a copy, got {:?}", other),
    }
    assert_eq!(ssa.blocks[1].instructions[1].lvalue.identifier, ident("x", 2));
    assert_eq!(ssa.blocks[2].instructions[1].lvalue.identifier, ident("x", 3));
}

#[test]
fn ssa_defines_every_identifier_once() {
    let ssa = enter_ssa(stores_in_both_branches()).unwrap();
    let mut defined: Vec<Identifier> = Vec::new();
    for b in &ssa.blocks {
        for i in &b.instructions {
            assert!(!defined.contains(&i.lvalue.identifier), "{:?} twice", i.lvalue.identifier);
            defined.push(i.lvalue.identifier.clone());
        }
    }
    assert_eq!(defined.len(), 8);
}

#[test]
fn ssa_rebuilds_predecessors() {
    let ssa = enter_ssa(stores_in_both_branches()).unwrap();
    let preds: Vec<Vec<usize>> = ssa.blocks.iter().map(|b| ids(&b.preds)).collect();
    assert_eq!(preds, vec![vec![], vec![0], vec![0], vec![1, 2]]);
}

#[test]
fn ssa_reads_of_unassigned_variables_keep_version_zero() {
    let f = function(vec![block(
        0,
        vec![instr(0, place("t0", 0), InstructionValue::LoadLocal(place("g", 5)))],
        Terminal::Return(Some(place("t0", 0))),
        &[],
    )]);
    let ssa = enter_ssa(f).unwrap();
    match &ssa.blocks[0].instructions[0].value {
        InstructionValue::LoadLocal(p) => assert_eq!(p.identifier, ident("g", 0)),
        other => panic!("expected a load, got {:?}", other),
    }
}

#[test]
fn ssa_fails_when_ids_do_not_fit() {
    let mut f = stores_in_both_branches();
    f.blocks[0].instructions[0].id = InstrId(usize::MAX);
    assert!(enter_ssa(f).is_none());
}

#[test]
fn entry_is_its_own_dominator_and_unreachable_blocks_have_none() {
    let tree = DominatorTree::compute(&looping());
    assert_eq!(tree.idoms[0], Some(BlockId(0)));
    assert_eq!(tree.idoms[4], None);
    let rpo = ids(&reverse_post_order(&looping()));
    for (b, idom) in tree.idoms.iter().enumerate() {
        if let Some(d) = idom {
            if b != 0 {
                let at = |x: usize| rpo.iter().position(|y| *y == x).unwrap();
                assert!(at(d.0) < at(b));
            }
        }
    }
}
