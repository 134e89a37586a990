use react_compiler_rust::codegen::{
    cache_size_of, collect_declarations, generate_code, CodeGenerator,
};
use react_compiler_rust::hir::reactive_function::{
    build_reactive_function, convert_instruction, ConstantValue, ReactiveArgument,
    ReactiveArrayElement, ReactiveFunction, ReactiveInstruction, ReactiveObjectKey,
    ReactiveObjectProperty, ReactiveStatement, ReactiveSwitchCase, ReactiveValue,
};
use react_compiler_rust::hir::reactive_scopes::ReactiveScopeResult;
use react_compiler_rust::hir::scope::{Declaration, Dependency, ReactiveScope, ScopeId};
use std::collections::HashMap;
use react_compiler_rust::hir::{
    BasicBlock, BinaryOperator, BlockId, Constant, HIRFunction, Identifier, InstrId, Instruction,
    InstructionValue, Place, Terminal, UnaryOperator,
};

fn ident(name: &str, id: usize) -> Identifier {
    Identifier { name: name.to_string(), id }
}

fn place(name: &str, id: usize) -> Place {
    Place { identifier: ident(name, id) }
}

fn no_scopes() -> ReactiveScopeResult {
    ReactiveScopeResult { scopes: vec![], instruction_scopes: HashMap::new() }
}

fn text(value: ReactiveValue) -> String {
    let scopes = no_scopes();
    CodeGenerator::new(&scopes).generate_value(&value)
}

fn assign(lvalue: Identifier, value: ReactiveValue) -> ReactiveStatement {
    ReactiveStatement::Instruction(ReactiveInstruction { lvalue, value, scope: None })
}

fn function(params: &[&str], body: Vec<ReactiveStatement>) -> ReactiveFunction {
    ReactiveFunction {
        name: Some("f".to_string()),
        params: params.iter().map(|p| ident(p, 0)).collect(),
        body,
    }
}

#[test]
fn test_constant_generation() {
    assert_eq!(text(ReactiveValue::Constant(ConstantValue::Number(42))), "42");
    assert_eq!(text(ReactiveValue::Constant(ConstantValue::Boolean(true))), "true");
    assert_eq!(text(ReactiveValue::Constant(ConstantValue::Null)), "null");
}

#[test]
fn constants_of_every_kind() {
    assert_eq!(text(ReactiveValue::Constant(ConstantValue::Number(-3))), "-3");
    assert_eq!(text(ReactiveValue::Constant(ConstantValue::Decimal("1.5".to_string()))), "1.5");
    assert_eq!(text(ReactiveValue::Constant(ConstantValue::Boolean(false))), "false");
    assert_eq!(text(ReactiveValue::Constant(ConstantValue::Undefined)), "undefined");
    assert_eq!(
        text(ReactiveValue::Constant(ConstantValue::String("a\"b\\c\nd".to_string()))),
        "\"a\\\"b\\\\c\\nd\""
    );
}

#[test]
fn operations_print_their_operands() {
    assert_eq!(
        text(ReactiveValue::BinaryOp { op: "+".to_string(), left: ident("t0", 0), right: ident("x", 2) }),
        "t0 + x_2"
    );
    assert_eq!(text(ReactiveValue::UnaryOp { op: "!".to_string(), operand: ident("t1", 1) }), "!t1");
    assert_eq!(
        text(ReactiveValue::UnaryOp { op: "typeof ".to_string(), operand: ident("t1", 1) }),
        "typeof t1"
    );
    assert_eq!(
        text(ReactiveValue::UnaryOp { op: "__isNullish__".to_string(), operand: ident("t1", 1) }),
        "(t1 == null)"
    );
    assert_eq!(
        text(ReactiveValue::PropertyLoad { object: ident("t0", 0), property: "p".to_string() }),
        "t0.p"
    );
    assert_eq!(
        text(ReactiveValue::PropertyStore {
            object: ident("t0", 0),
            property: "p".to_string(),
            value: ident("t1", 1)
        }),
        "t0.p = t1"
    );
    assert_eq!(
        text(ReactiveValue::ComputedLoad { object: ident("t0", 0), property: ident("t1", 1) }),
        "t0[t1]"
    );
    assert_eq!(
        text(ReactiveValue::ComputedStore {
            object: ident("t0", 0),
            property: ident("t1", 1),
            value: ident("t2", 2)
        }),
        "t0[t1] = t2"
    );
    assert_eq!(text(ReactiveValue::LoadLocal(ident("y", 3))), "y_3");
}

#[test]
fn calls_arrays_and_objects_print_their_items() {
    assert_eq!(
        text(ReactiveValue::Call {
            callee: ident("t0", 0),
            args: vec![ReactiveArgument::Regular(ident("t1", 1)), ReactiveArgument::Spread(ident("t2", 2))],
        }),
        "t0(t1, ...t2)"
    );
    assert_eq!(text(ReactiveValue::Call { callee: ident("t0", 0), args: vec![] }), "t0()");
    assert_eq!(
        text(ReactiveValue::Array {
            elements: vec![
                ReactiveArrayElement::Regular(ident("t1", 1)),
                ReactiveArrayElement::Hole,
                ReactiveArrayElement::Spread(ident("t2", 2)),
            ],
        }),
        "[t1, , ...t2]"
    );
    assert_eq!(text(ReactiveValue::Array { elements: vec![] }), "[]");
    assert_eq!(
        text(ReactiveValue::Object {
            properties: vec![
                ReactiveObjectProperty::KeyValue {
                    key: ReactiveObjectKey::Identifier("a".to_string()),
                    value: ident("t1", 1),
                },
                ReactiveObjectProperty::KeyValue {
                    key: ReactiveObjectKey::Computed(ident("t2", 2)),
                    value: ident("t3", 3),
                },
                ReactiveObjectProperty::Spread(ident("t4", 4)),
            ],
        }),
        "{ a: t1, [t2]: t3, ...t4 }"
    );
    assert_eq!(text(ReactiveValue::Object { properties: vec![] }), "{  }");
}

#[test]
fn leaked_phi_prints_its_first_operand() {
    assert_eq!(text(ReactiveValue::Phi { operands: vec![ident("x", 1), ident("x", 2)] }), "x_1");
    assert_eq!(text(ReactiveValue::Phi { operands: vec![] }), "undefined");
}

#[test]
fn canonical_names_carry_the_version() {
    assert_eq!(CodeGenerator::get_canonical_name(&ident("x", 3)), "x_3");
    assert_eq!(CodeGenerator::get_canonical_name(&ident("t7", 7)), "t7");
    assert_eq!(CodeGenerator::get_canonical_name(&ident("t", 7)), "t_7");
    assert_eq!(CodeGenerator::get_canonical_name(&ident("true", 0)), "true");
    assert_eq!(CodeGenerator::get_canonical_name(&ident("undefined", 4)), "undefined");
}

#[test]
fn parameters_externals_and_uninitialised_reads() {
    // `p` is a parameter; `g` is never assigned here; `x` is assigned as x_1
    let f = function(
        &["p"],
        vec![
            assign(ident("x", 1), ReactiveValue::LoadLocal(ident("p", 0))),
            assign(ident("t1", 1), ReactiveValue::LoadLocal(ident("g", 0))),
            assign(ident("t2", 2), ReactiveValue::LoadLocal(ident("x", 0))),
            assign(ident("t3", 3), ReactiveValue::LoadLocal(ident("p", 5))),
            ReactiveStatement::Return(Some(ident("x", 1))),
        ],
    );
    let expected = [
        "function f(p) {\n",
        "  let x_1;\n",
        "  x_1 = p;\n",
        "  const t1 = g;\n",
        "  const t2 = undefined;\n",
        "  const t3 = p;\n",
        "  return x_1;\n",
        "}\n",
    ]
    .concat();
    assert_eq!(generate_code(&f, &no_scopes()), expected);
}

#[test]
fn hoisted_variables_are_declared_once_in_order() {
    let f = function(
        &[],
        vec![
            assign(ident("s", 2), ReactiveValue::Constant(ConstantValue::Number(1))),
            assign(ident("i", 10), ReactiveValue::Constant(ConstantValue::Number(2))),
            assign(ident("i", 2), ReactiveValue::Constant(ConstantValue::Number(3))),
            assign(ident("s", 2), ReactiveValue::Constant(ConstantValue::Number(4))),
        ],
    );
    let expected = [
        "function f() {\n",
        "  let i_10, i_2, s_2;\n",
        "  s_2 = 1;\n",
        "  i_10 = 2;\n",
        "  i_2 = 3;\n",
        "  s_2 = 4;\n",
        "}\n",
    ]
    .concat();
    assert_eq!(generate_code(&f, &no_scopes()), expected);
}

#[test]
fn identity_copies_are_skipped() {
    let f = function(
        &["p"],
        vec![
            assign(ident("x", 1), ReactiveValue::LoadLocal(ident("x", 1))),
            assign(ident("t3", 3), ReactiveValue::LoadLocal(ident("t3", 9))),
            ReactiveStatement::Return(None),
        ],
    );
    assert_eq!(generate_code(&f, &no_scopes()), "function f(p) {\n  let x_1;\n  return;\n}\n");
}

#[test]
fn declarations_are_collected_from_nested_statements() {
    let stmt = ReactiveStatement::If {
        test: ident("t0", 0),
        consequent: vec![assign(ident("a", 1), ReactiveValue::Constant(ConstantValue::Null))],
        alternate: vec![ReactiveStatement::While {
            test: ident("true", 0),
            body: vec![
                assign(ident("b", 2), ReactiveValue::Constant(ConstantValue::Null)),
                assign(ident("a", 1), ReactiveValue::Constant(ConstantValue::Null)),
                assign(ident("t5", 5), ReactiveValue::Constant(ConstantValue::Null)),
                assign(ident("a", 3), ReactiveValue::Constant(ConstantValue::Null)),
            ],
        }],
    };
    let mut vars = Vec::new();
    let mut base = Vec::new();
    collect_declarations(&stmt, &Vec::new(), &mut vars, &mut base);
    assert_eq!(vars, vec!["a_1", "b_2", "a_3"]);
    assert_eq!(base, vec!["a", "b"]);
}

#[test]
fn parameters_are_not_collected() {
    let stmt = ReactiveStatement::If {
        test: ident("t0", 0),
        consequent: vec![
            assign(ident("x", 1), ReactiveValue::Constant(ConstantValue::Null)),
            assign(ident("y", 1), ReactiveValue::Constant(ConstantValue::Null)),
        ],
        alternate: vec![assign(ident("x", 2), ReactiveValue::Constant(ConstantValue::Null))],
    };
    let mut vars = Vec::new();
    let mut base = Vec::new();
    collect_declarations(&stmt, &vec!["x".to_string()], &mut vars, &mut base);
    assert_eq!(vars, vec!["y_1"]);
    assert_eq!(base, vec!["y"]);
}

#[test]
fn assigned_parameter_is_assigned_by_its_name_and_not_declared() {
    let f = function(
        &["x"],
        vec![assign(ident("x", 1), ReactiveValue::Constant(ConstantValue::Number(1)))],
    );
    assert_eq!(generate_code(&f, &no_scopes()), "function f(x) {\n  x = 1;\n}\n");
}

#[test]
fn assigned_parameter_beside_a_variable() {
    let f = function(
        &["x", "y"],
        vec![
            assign(ident("x", 1), ReactiveValue::Constant(ConstantValue::Number(1))),
            assign(ident("z", 1), ReactiveValue::LoadLocal(ident("x", 1))),
            assign(ident("y", 2), ReactiveValue::LoadLocal(ident("z", 1))),
            assign(ident("x", 3), ReactiveValue::LoadLocal(ident("x", 1))),
            ReactiveStatement::Return(Some(ident("y", 2))),
        ],
    );
    let expected = [
        "function f(x, y) {\n",
        "  let z_1;\n",
        "  x = 1;\n",
        "  z_1 = x;\n",
        "  y = z_1;\n",
        "  return y;\n",
        "}\n",
    ]
    .concat();
    assert_eq!(generate_code(&f, &no_scopes()), expected);
}

#[test]
fn variable_that_prints_as_a_parameter_is_assigned_as_the_parameter() {
    // the canonical name of `x` in version 1 is the name of the parameter
    let f = function(
        &["x_1"],
        vec![assign(ident("x", 1), ReactiveValue::Constant(ConstantValue::Number(1)))],
    );
    assert_eq!(generate_code(&f, &no_scopes()), "function f(x_1) {\n  x_1 = 1;\n}\n");
}

#[test]
fn variable_named_t_is_a_variable() {
    let f = function(
        &[],
        vec![
            assign(ident("t", 1), ReactiveValue::Constant(ConstantValue::Number(1))),
            assign(ident("t1", 1), ReactiveValue::LoadLocal(ident("t", 1))),
        ],
    );
    let expected = ["function f() {\n", "  let t_1;\n", "  t_1 = 1;\n", "  const t1 = t_1;\n", "}\n"].concat();
    assert_eq!(generate_code(&f, &no_scopes()), expected);
}

#[test]
fn version_zero_target_is_assigned_by_its_canonical_name() {
    let f = function(
        &[],
        vec![
            assign(ident("x", 0), ReactiveValue::Constant(ConstantValue::Number(1))),
            assign(ident("t1", 1), ReactiveValue::LoadLocal(ident("x", 0))),
        ],
    );
    let expected = ["function f() {\n", "  let x_0;\n", "  x_0 = 1;\n", "  const t1 = x;\n", "}\n"].concat();
    assert_eq!(generate_code(&f, &no_scopes()), expected);
}

#[test]
fn control_flow_statements_are_indented() {
    let f = function(
        &["c"],
        vec![
            ReactiveStatement::While {
                test: ident("true", 0),
                body: vec![
                    ReactiveStatement::If {
                        test: ident("c", 0),
                        consequent: vec![],
                        alternate: vec![ReactiveStatement::Break],
                    },
                    ReactiveStatement::Continue,
                ],
            },
            ReactiveStatement::Switch {
                test: ident("c", 0),
                cases: vec![
                    ReactiveSwitchCase {
                        label: Some(ident("t1", 1)),
                        body: vec![ReactiveStatement::Return(Some(ident("t2", 2)))],
                    },
                    ReactiveSwitchCase { label: None, body: vec![] },
                ],
            },
            ReactiveStatement::If { test: ident("c", 0), consequent: vec![], alternate: vec![] },
        ],
    );
    let expected = [
        "function f(c) {\n",
        "  while (true) {\n",
        "    if (c) {\n",
        "    } else {\n",
        "      break;\n",
        "    }\n",
        "    continue;\n",
        "  }\n",
        "  switch (c) {\n",
        "    case t1: {\n",
        "      return t2;\n",
        "    }\n",
        "    default: {\n",
        "    }\n",
        "  }\n",
        "  if (c) {\n",
        "  }\n",
        "}\n",
    ]
    .concat();
    assert_eq!(generate_code(&f, &no_scopes()), expected);
}

fn scope_with(deps: &[Identifier], decls: &[Identifier]) -> ReactiveScope {
    ReactiveScope {
        id: ScopeId(0),
        range: (0, 1),
        dependencies: deps.iter().map(|d| Dependency { place: Place { identifier: d.clone() } }).collect(),
        declarations: decls.iter().map(|d| Declaration { place: Place { identifier: d.clone() } }).collect(),
    }
}

#[test]
fn scope_prints_the_cache_pattern() {
    let scopes = ReactiveScopeResult {
        scopes: vec![scope_with(&[ident("p", 0), ident("q", 0)], &[ident("x", 1)])],
        instruction_scopes: HashMap::new(),
    };
    let f = function(
        &["p", "q"],
        vec![
            ReactiveStatement::Scope {
                id: ScopeId(0),
                dependencies: vec![ident("p", 0), ident("q", 0)],
                declarations: vec![ident("x", 1), ident("t9", 9)],
                body: vec![assign(
                    ident("x", 1),
                    ReactiveValue::BinaryOp { op: "*".to_string(), left: ident("p", 0), right: ident("q", 0) },
                )],
            },
            ReactiveStatement::Return(Some(ident("x", 1))),
        ],
    );
    let expected = [
        "function f(p, q) {\n",
        "  const $ = _c(3);\n",
        "  let x_1;\n",
        "  if ($[0] !== p || $[1] !== q) {\n",
        "    x_1 = p * q;\n",
        "    $[0] = p;\n",
        "    $[1] = q;\n",
        "    $[2] = x_1;\n",
        "    $[3] = t9;\n",
        "  }\n",
        "  x_1 = $[2];\n",
        "  const t9 = $[3];\n",
        "  return x_1;\n",
        "}\n",
    ]
    .concat();
    assert_eq!(generate_code(&f, &scopes), expected);
}

#[test]
fn scope_without_dependencies_tests_the_sentinel() {
    let scopes = ReactiveScopeResult { scopes: vec![scope_with(&[], &[])], instruction_scopes: HashMap::new() };
    let f = function(
        &[],
        vec![
            ReactiveStatement::Scope {
                id: ScopeId(0),
                dependencies: vec![],
                declarations: vec![ident("t0", 0)],
                body: vec![assign(ident("t0", 0), ReactiveValue::Constant(ConstantValue::Number(1)))],
            },
            ReactiveStatement::Scope {
                id: ScopeId(1),
                dependencies: vec![],
                declarations: vec![ident("t1", 1)],
                body: vec![],
            },
        ],
    );
    let expected = [
        "function f() {\n",
        "  const $ = _c(1);\n",
        "  if ($[0] === Symbol.for(\"react.memo_cache_sentinel\")) {\n",
        "    const t0 = 1;\n",
        "    $[0] = t0;\n",
        "  }\n",
        "  const t0 = $[0];\n",
        "}\n",
    ]
    .concat();
    assert_eq!(generate_code(&f, &scopes), expected);
}

#[test]
fn cache_size_counts_dependencies_and_declarations() {
    assert_eq!(cache_size_of(&vec![]), Some(1));
    assert_eq!(cache_size_of(&vec![scope_with(&[], &[])]), Some(1));
    assert_eq!(
        cache_size_of(&vec![
            scope_with(&[ident("a", 1)], &[ident("b", 1), ident("c", 1)]),
            scope_with(&[ident("d", 1), ident("e", 1)], &[]),
        ]),
        Some(5)
    );
}

#[test]
fn graph_instructions_convert_to_tree_instructions() {
    let i = Instruction {
        id: InstrId(3),
        lvalue: place("t3", 3),
        value: InstructionValue::BinaryOp {
            op: BinaryOperator::StrictNotEqual,
            left: place("a", 1),
            right: place("b", 2),
        },
        scope: Some(ScopeId(4)),
    };
    let r = convert_instruction(&i);
    assert_eq!(r.lvalue, ident("t3", 3));
    assert_eq!(r.scope, Some(ScopeId(4)));
    match r.value {
        ReactiveValue::BinaryOp { op, left, right } => {
            assert_eq!(op, "!==");
            assert_eq!((left, right), (ident("a", 1), ident("b", 2)));
        }
        other => panic!("expected a binary operation, got {:?}", other),
    }
    let store = Instruction {
        id: InstrId(0),
        lvalue: place("t0", 0),
        value: InstructionValue::StoreLocal(place("x", 0), place("t9", 9)),
        scope: None,
    };
    assert!(matches!(convert_instruction(&store).value, ReactiveValue::LoadLocal(v) if v == ident("t9", 9)));
    let nullish = Instruction {
        id: InstrId(0),
        lvalue: place("t0", 0),
        value: InstructionValue::UnaryOp { op: UnaryOperator::IsNullish, operand: place("t1", 1) },
        scope: None,
    };
    assert!(matches!(convert_instruction(&nullish).value, ReactiveValue::UnaryOp { op, .. } if op == "__isNullish__"));
    let constant = Instruction {
        id: InstrId(0),
        lvalue: place("t0", 0),
        value: InstructionValue::Constant(Constant::Float("0.5".to_string())),
        scope: None,
    };
    assert!(matches!(
        convert_instruction(&constant).value,
        ReactiveValue::Constant(ConstantValue::Decimal(t)) if t == "0.5"
    ));
}

#[test]
fn tree_of_a_loop_breaks_on_the_negative_test() {
    // 0: goto 1;  1 (header): t0 = c; if t0 then 2 else 3;  2: goto 1;  3: return
    let hir = HIRFunction {
        name: Some("l".to_string()),
        params: vec![ident("c", 0)],
        entry_block: BlockId(0),
        blocks: vec![
            BasicBlock { id: BlockId(0), instructions: vec![], terminal: Terminal::Goto(BlockId(1)), preds: vec![] },
            BasicBlock {
                id: BlockId(1),
                instructions: vec![Instruction {
                    id: InstrId(0),
                    lvalue: place("t0", 0),
                    value: InstructionValue::LoadLocal(place("c", 0)),
                    scope: None,
                }],
                terminal: Terminal::If {
                    test: place("t0", 0),
                    consequent: BlockId(2),
                    alternate: BlockId(3),
                },
                preds: vec![],
            },
            BasicBlock { id: BlockId(2), instructions: vec![], terminal: Terminal::Goto(BlockId(1)), preds: vec![] },
            BasicBlock { id: BlockId(3), instructions: vec![], terminal: Terminal::Return(None), preds: vec![] },
        ],
        loop_headers: vec![BlockId(1)],
    };
    let tree = build_reactive_function(&hir, &no_scopes());
    let expected = [
        "function l(c) {\n",
        "  while (true) {\n",
        "    const t0 = c;\n",
        "    if (t0) {\n",
        "    } else {\n",
        "      break;\n",
        "    }\n",
        "    continue;\n",
        "  }\n",
        "  return;\n",
        "}\n",
    ]
    .concat();
    assert_eq!(generate_code(&tree, &no_scopes()), expected);
}

#[test]
fn declarations_are_read_back_without_being_declared_again() {
    let decls = [ident("x", 1), ident("p", 2), ident("t4", 4)];
    let scopes = ReactiveScopeResult {
        scopes: vec![scope_with(&[], &decls)],
        instruction_scopes: HashMap::new(),
    };
    let f = function(
        &["p"],
        vec![ReactiveStatement::Scope {
            id: ScopeId(0),
            dependencies: vec![],
            declarations: decls.to_vec(),
            body: vec![
                assign(ident("x", 1), ReactiveValue::Constant(ConstantValue::Number(1))),
                assign(ident("p", 2), ReactiveValue::LoadLocal(ident("x", 1))),
                assign(ident("t4", 4), ReactiveValue::LoadLocal(ident("p", 2))),
            ],
        }],
    );
    let expected = [
        "function f(p) {\n",
        "  const $ = _c(3);\n",
        "  let x_1;\n",
        "  if ($[0] === Symbol.for(\"react.memo_cache_sentinel\")) {\n",
        "    x_1 = 1;\n",
        "    p = x_1;\n",
        "    const t4 = p;\n",
        "    $[0] = x_1;\n",
        "    $[1] = p;\n",
        "    $[2] = t4;\n",
        "  }\n",
        "  x_1 = $[0];\n",
        "  p = $[1];\n",
        "  const t4 = $[2];\n",
        "}\n",
    ]
    .concat();
    let text = generate_code(&f, &scopes);
    assert_eq!(text, expected);
    assert_eq!(text.matches("let ").count(), 1);
}
