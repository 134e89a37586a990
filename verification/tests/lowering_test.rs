use react_compiler_rust::ast::{
    AssignOp, AssignmentTarget, BinaryOp, Declarator, Expression, Function, LogicalOp, Param,
    Statement, TargetElement, UnaryOp,
};
use react_compiler_rust::hir::budget::function_fits;
use react_compiler_rust::hir::lowering::LoweringContext;
use react_compiler_rust::hir::{
    BinaryOperator, BlockId, Constant, HIRFunction, Identifier, InstructionValue, Terminal,
    UnaryOperator,
};

fn id(name: &str) -> Expression {
    Expression::Identifier(name.to_string())
}

fn num(n: i64) -> Expression {
    Expression::Literal(Constant::Int(n))
}

fn func(params: &[&str], body: Vec<Statement>) -> Function {
    Function {
        name: Some("f".to_string()),
        params: params.iter().map(|p| Param::Identifier(p.to_string())).collect(),
        body,
    }
}

fn lower(f: &Function) -> HIRFunction {
    assert!(function_fits(f));
    LoweringContext::new().build(f)
}

fn ident(name: &str, id: usize) -> Identifier {
    Identifier { name: name.to_string(), id }
}

fn goto_target(t: &Terminal) -> usize {
    match t {
        Terminal::Goto(b) => b.0,
        other => panic!("expected a jump, got {:?}", other),
    }
}

#[test]
fn empty_function_is_one_block() {
    let hir = lower(&func(&["a", "b"], vec![]));
    assert_eq!(hir.name, Some("f".to_string()));
    assert_eq!(hir.params, vec![ident("a", 0), ident("b", 0)]);
    assert_eq!(hir.entry_block, BlockId(0));
    assert_eq!(hir.blocks.len(), 1);
    assert!(hir.blocks[0].instructions.is_empty());
    assert!(matches!(hir.blocks[0].terminal, Terminal::Return(None)));
    assert!(hir.loop_headers.is_empty());
}

#[test]
fn blocks_sit_at_their_ids() {
    let hir = lower(&func(
        &["c"],
        vec![Statement::If {
            test: id("c"),
            consequent: Box::new(Statement::Return(Some(num(1)))),
            alternate: Some(Box::new(Statement::Return(Some(num(2))))),
        }],
    ));
    for (i, b) in hir.blocks.iter().enumerate() {
        assert_eq!(b.id, BlockId(i));
        for s in b.successors() {
            assert!(s.0 < hir.blocks.len());
        }
    }
}

#[test]
fn return_closes_the_block_with_the_value() {
    let hir = lower(&func(&[], vec![Statement::Return(Some(num(5)))]));
    assert_eq!(hir.blocks.len(), 2);
    let entry = &hir.blocks[0];
    assert_eq!(entry.instructions.len(), 1);
    assert_eq!(entry.instructions[0].lvalue.identifier, ident("t0", 0));
    assert!(matches!(entry.instructions[0].value, InstructionValue::Constant(Constant::Int(5))));
    match &entry.terminal {
        Terminal::Return(Some(p)) => assert_eq!(p.identifier, ident("t0", 0)),
        other => panic!("expected return, got {:?}", other),
    }
}

#[test]
fn while_loop_has_header_body_and_exit() {
    let hir = lower(&func(
        &["c"],
        vec![Statement::While { test: id("c"), body: Box::new(Statement::Block(vec![])) }],
    ));
    assert_eq!(hir.blocks.len(), 7);
    assert_eq!(goto_target(&hir.blocks[0].terminal), 1);
    match &hir.blocks[1].terminal {
        Terminal::If { test, consequent, alternate } => {
            assert_eq!(test.identifier, ident("t0", 0));
            assert_eq!((consequent.0, alternate.0), (2, 3));
        }
        other => panic!("expected a branch, got {:?}", other),
    }
    assert_eq!(goto_target(&hir.blocks[2].terminal), 1);
    assert!(matches!(hir.blocks[3].terminal, Terminal::Return(None)));
    assert_eq!(hir.loop_headers, vec![BlockId(1)]);
}

#[test]
fn break_and_continue_jump_to_the_loop_targets() {
    let hir = lower(&func(
        &["c"],
        vec![Statement::While {
            test: id("c"),
            body: Box::new(Statement::Block(vec![Statement::Break, Statement::Continue])),
        }],
    ));
    // body block 2 breaks to the exit 3; the block after it continues to the header 1
    assert_eq!(goto_target(&hir.blocks[2].terminal), 3);
    assert_eq!(goto_target(&hir.blocks[6].terminal), 1);
}

#[test]
fn break_outside_a_loop_does_nothing() {
    let hir = lower(&func(&[], vec![Statement::Break, Statement::Continue]));
    assert_eq!(hir.blocks.len(), 1);
    assert!(matches!(hir.blocks[0].terminal, Terminal::Return(None)));
}

#[test]
fn update_expression_loads_adds_and_stores() {
    let hir = lower(&func(
        &[],
        vec![Statement::Return(Some(Expression::Update {
            increment: false,
            prefix: true,
            target: Some("i".to_string()),
        }))],
    ));
    let instrs = &hir.blocks[0].instructions;
    assert_eq!(instrs.len(), 4);
    assert!(matches!(&instrs[0].value, InstructionValue::LoadLocal(p) if p.identifier == ident("i", 0)));
    assert!(matches!(instrs[1].value, InstructionValue::Constant(Constant::Int(1))));
    assert!(matches!(
        &instrs[2].value,
        InstructionValue::BinaryOp { op: BinaryOperator::Sub, left, right }
            if left.identifier == ident("t0", 0) && right.identifier == ident("t1", 1)
    ));
    assert!(matches!(
        &instrs[3].value,
        InstructionValue::StoreLocal(target, value)
            if target.identifier == ident("i", 0) && value.identifier == ident("t2", 2)
    ));
    // the prefix form yields the new value
    assert!(matches!(&hir.blocks[0].terminal, Terminal::Return(Some(p)) if p.identifier == ident("t2", 2)));
}

#[test]
fn postfix_update_yields_the_old_value() {
    let hir = lower(&func(
        &[],
        vec![Statement::Return(Some(Expression::Update {
            increment: true,
            prefix: false,
            target: Some("i".to_string()),
        }))],
    ));
    assert!(matches!(
        &hir.blocks[0].instructions[2].value,
        InstructionValue::BinaryOp { op: BinaryOperator::Add, .. }
    ));
    assert!(matches!(&hir.blocks[0].terminal, Terminal::Return(Some(p)) if p.identifier == ident("t0", 0)));
}

#[test]
fn exponentiation_is_not_supported_and_yields_a_dead_temporary() {
    let hir = lower(&func(
        &[],
        vec![Statement::Return(Some(Expression::Binary {
            op: BinaryOp::Exponential,
            left: Box::new(num(2)),
            right: Box::new(num(3)),
        }))],
    ));
    assert!(hir.blocks[0].instructions.is_empty());
    assert!(matches!(&hir.blocks[0].terminal, Terminal::Return(Some(p)) if p.identifier == ident("t0", 0)));
}

#[test]
fn nested_if_jumps_from_where_it_ends_to_the_merge_block() {
    // if (c) { if (c) {} }
    let hir = lower(&func(
        &["c"],
        vec![Statement::If {
            test: id("c"),
            consequent: Box::new(Statement::Block(vec![Statement::If {
                test: id("c"),
                consequent: Box::new(Statement::Block(vec![])),
                alternate: None,
            }])),
            alternate: None,
        }],
    ));
    // blocks 1, 2, 3: then, else, merge of the outer `if`; 5, 6, 7 of the inner
    assert!(matches!(
        &hir.blocks[0].terminal,
        Terminal::If { consequent: BlockId(1), alternate: BlockId(2), .. }
    ));
    assert!(matches!(
        &hir.blocks[1].terminal,
        Terminal::If { consequent: BlockId(5), alternate: BlockId(6), .. }
    ));
    assert_eq!(goto_target(&hir.blocks[5].terminal), 7);
    assert_eq!(goto_target(&hir.blocks[6].terminal), 7);
    assert_eq!(goto_target(&hir.blocks[7].terminal), 3);
    assert_eq!(goto_target(&hir.blocks[2].terminal), 3);
    assert!(matches!(&hir.blocks[3].terminal, Terminal::Return(None)));
}

#[test]
fn branch_that_returns_gets_no_jump() {
    // if (c) { return; } else { return; }
    let hir = lower(&func(
        &["c"],
        vec![Statement::If {
            test: id("c"),
            consequent: Box::new(Statement::Block(vec![Statement::Return(None)])),
            alternate: Some(Box::new(Statement::Return(None))),
        }],
    ));
    assert!(hir.blocks.iter().all(|b| !matches!(b.terminal, Terminal::Goto(_))));
}

#[test]
fn unary_operators_map_one_to_one() {
    let cases = [
        (UnaryOp::LogicalNot, UnaryOperator::Not),
        (UnaryOp::UnaryNegation, UnaryOperator::Negate),
        (UnaryOp::UnaryPlus, UnaryOperator::Plus),
        (UnaryOp::BitwiseNot, UnaryOperator::BitwiseNot),
        (UnaryOp::Typeof, UnaryOperator::TypeOf),
        (UnaryOp::Void, UnaryOperator::Void),
        (UnaryOp::Delete, UnaryOperator::Delete),
    ];
    for (surface, expected) in cases {
        let hir = lower(&func(
            &[],
            vec![Statement::Expression(Expression::Unary { op: surface, argument: Box::new(id("x")) })],
        ));
        match &hir.blocks[0].instructions[1].value {
            InstructionValue::UnaryOp { op, operand } => {
                assert_eq!(*op, expected);
                assert_eq!(operand.identifier, ident("t0", 0));
            }
            other => panic!("expected a prefix operation, got {:?}", other),
        }
    }
}

#[test]
fn nullish_coalescing_tests_with_is_nullish() {
    let hir = lower(&func(
        &["x"],
        vec![Statement::Return(Some(Expression::Logical {
            op: LogicalOp::Coalesce,
            left: Box::new(id("x")),
            right: Box::new(num(7)),
        }))],
    ));
    let entry = &hir.blocks[0];
    assert!(matches!(
        &entry.instructions[1].value,
        InstructionValue::UnaryOp { op: UnaryOperator::IsNullish, operand } if operand.identifier == ident("t0", 0)
    ));
    match &entry.terminal {
        Terminal::If { test, consequent, alternate } => {
            assert_eq!(test.identifier, ident("t2", 2));
            // the right operand is evaluated when the left is nullish
            assert_eq!((consequent.0, alternate.0), (1, 2));
        }
        other => panic!("expected a branch, got {:?}", other),
    }
    // the short-circuit block stores the left operand into the synthetic local
    assert!(matches!(
        &hir.blocks[2].instructions[0].value,
        InstructionValue::StoreLocal(target, value)
            if target.identifier == ident("t1", 1) && value.identifier == ident("t0", 0)
    ));
    assert_eq!(goto_target(&hir.blocks[1].terminal), 3);
    assert_eq!(goto_target(&hir.blocks[2].terminal), 3);
}

#[test]
fn logical_or_short_circuits_on_the_true_side() {
    let hir = lower(&func(
        &["a", "b"],
        vec![Statement::Return(Some(Expression::Logical {
            op: LogicalOp::Or,
            left: Box::new(id("a")),
            right: Box::new(id("b")),
        }))],
    ));
    match &hir.blocks[0].terminal {
        Terminal::If { consequent, alternate, .. } => assert_eq!((consequent.0, alternate.0), (2, 1)),
        other => panic!("expected a branch, got {:?}", other),
    }
}

#[test]
fn array_destructuring_loads_by_index() {
    let hir = lower(&func(
        &["v"],
        vec![Statement::Expression(Expression::Assignment {
            op: AssignOp::Assign,
            target: Box::new(AssignmentTarget::ArrayPattern(vec![
                TargetElement::Identifier("a".to_string()),
                TargetElement::Hole,
                TargetElement::Identifier("c".to_string()),
            ])),
            value: Box::new(id("v")),
        })],
    ));
    let instrs = &hir.blocks[0].instructions;
    assert_eq!(instrs.len(), 7);
    assert!(matches!(instrs[1].value, InstructionValue::Constant(Constant::Int(0))));
    assert!(matches!(
        &instrs[2].value,
        InstructionValue::ComputedLoad { object, property }
            if object.identifier == ident("t0", 0) && property.identifier == ident("t1", 1)
    ));
    assert!(matches!(
        &instrs[3].value,
        InstructionValue::StoreLocal(target, value)
            if target.identifier == ident("a", 0) && value.identifier == ident("t2", 2)
    ));
    // the elided position takes no instruction; the third position has index 2
    assert!(matches!(instrs[4].value, InstructionValue::Constant(Constant::Int(2))));
    assert!(matches!(
        &instrs[6].value,
        InstructionValue::StoreLocal(target, _) if target.identifier == ident("c", 0)
    ));
}

#[test]
fn declaration_without_initialiser_does_nothing() {
    let hir = lower(&func(
        &[],
        vec![Statement::VariableDeclaration(vec![
            Declarator { binding: Some("x".to_string()), init: None },
            Declarator { binding: None, init: Some(num(1)) },
        ])],
    ));
    // only the initialiser of the second declarator is lowered; nothing is stored
    assert_eq!(hir.blocks[0].instructions.len(), 1);
}

#[test]
fn instruction_ids_count_up() {
    let hir = lower(&func(
        &["a"],
        vec![
            Statement::If {
                test: id("a"),
                consequent: Box::new(Statement::Expression(num(1))),
                alternate: Some(Box::new(Statement::Expression(num(2)))),
            },
            Statement::Return(Some(id("a"))),
        ],
    ));
    let mut seen: Vec<usize> =
        hir.blocks.iter().flat_map(|b| b.instructions.iter().map(|i| i.id.0)).collect();
    seen.sort();
    assert_eq!(seen, vec![0, 1, 2, 3]);
}

#[test]
fn destructuring_parameter_gets_a_synthetic_name() {
    let f = Function {
        name: None,
        params: vec![
            Param::Identifier("a".to_string()),
            Param::Pattern(AssignmentTarget::ArrayPattern(vec![TargetElement::Identifier(
                "x".to_string(),
            )])),
        ],
        body: vec![],
    };
    let hir = lower(&f);
    assert_eq!(hir.params, vec![ident("a", 0), ident("_param1", 1)]);
    assert!(matches!(
        &hir.blocks[0].instructions[0].value,
        InstructionValue::LoadLocal(p) if p.identifier == ident("_param1", 1)
    ));
    assert_eq!(hir.blocks[0].instructions.len(), 4);
}
