use react_compiler_rust::ast::{
    AssignOp, AssignmentTarget, BinaryOp, Declarator, Expression, ForInit, Function, LogicalOp,
    Param, Parsed, Program, Statement, SwitchCase, TargetProperty,
};
use react_compiler_rust::compile;
use react_compiler_rust::compile_function;
use react_compiler_rust::hir::{HIRFunction, Identifier};
use react_compiler_rust::ssa_form;
use react_compiler_rust::hir::Constant;

fn num(n: i64) -> Expression {
    Expression::Literal(Constant::Int(n))
}

fn id(name: &str) -> Expression {
    Expression::Identifier(name.to_string())
}

fn bin(op: BinaryOp, l: Expression, r: Expression) -> Expression {
    Expression::Binary { op, left: Box::new(l), right: Box::new(r) }
}

fn assign(op: AssignOp, name: &str, value: Expression) -> Statement {
    Statement::Expression(Expression::Assignment {
        op,
        target: Box::new(AssignmentTarget::Identifier(name.to_string())),
        value: Box::new(value),
    })
}

fn decl(name: &str, init: Expression) -> Declarator {
    Declarator { binding: Some(name.to_string()), init: Some(init) }
}

fn ret(e: Expression) -> Statement {
    Statement::Return(Some(e))
}

fn func(name: &str, params: &[&str], body: Vec<Statement>) -> Function {
    Function {
        name: Some(name.to_string()),
        params: params.iter().map(|p| Param::Identifier(p.to_string())).collect(),
        body,
    }
}

fn emitted(f: &Function) -> String {
    compile_function(f).unwrap()
}

fn concat_lines(lines: &[&str]) -> String {
    lines.concat()
}

#[test]
fn switch_with_returns_keeps_every_case_apart() {
    let f = func(
        "f",
        &["x"],
        vec![Statement::Switch {
            discriminant: id("x"),
            cases: vec![
                SwitchCase { test: Some(num(1)), consequent: vec![ret(num(10))] },
                SwitchCase { test: Some(num(2)), consequent: vec![ret(num(20))] },
                SwitchCase { test: None, consequent: vec![ret(num(30))] },
            ],
        }],
    );
    let expected = concat_lines(&[
        "function f(x) {\n",
        "  const t0 = x;\n",
        "  const t1 = 1;\n",
        "  const t2 = 2;\n",
        "  switch (t0) {\n",
        "    case t1: {\n",
        "      const t3 = 10;\n",
        "      return t3;\n",
        "    }\n",
        "    case t2: {\n",
        "      const t4 = 20;\n",
        "      return t4;\n",
        "    }\n",
        "    default: {\n",
        "      const t5 = 30;\n",
        "      return t5;\n",
        "    }\n",
        "  }\n",
        "}\n",
    ]);
    assert_eq!(emitted(&f), expected);
}

#[test]
fn switch_fallthrough_links_a_case_to_the_next() {
    let g = func(
        "g",
        &["x"],
        vec![
            Statement::VariableDeclaration(vec![decl("r", num(0))]),
            Statement::Switch {
                discriminant: id("x"),
                cases: vec![
                    SwitchCase { test: Some(num(1)), consequent: vec![assign(AssignOp::Addition, "r", num(1))] },
                    SwitchCase {
                        test: Some(num(2)),
                        consequent: vec![assign(AssignOp::Addition, "r", num(2)), Statement::Break],
                    },
                    SwitchCase { test: Some(num(3)), consequent: vec![assign(AssignOp::Addition, "r", num(4))] },
                ],
            },
            ret(id("r")),
        ],
    );
    let expected = concat_lines(&[
        "function g(x) {\n",
        "  const $ = _c(21);\n",
        "  let r_1, r_2, r_3, r_4, r_5, r_6;\n",
        "  const t0 = 0;\n",
        "  r_1 = t0;\n",
        "  const t2 = x;\n",
        "  const t3 = 1;\n",
        "  const t4 = 2;\n",
        "  const t5 = 3;\n",
        "  switch (t2) {\n",
        "    case t3: {\n",
        "      const t6 = 1;\n",
        "      const t7 = r_1;\n",
        "      const t8 = t7 + t6;\n",
        "      r_3 = t8;\n",
        "      r_4 = r_3;\n",
        "      const t10 = 2;\n",
        "      const t11 = r_4;\n",
        "      const t12 = t11 + t10;\n",
        "      r_5 = t12;\n",
        "      r_2 = r_5;\n",
        "      break;\n",
        "    }\n",
        "    case t4: {\n",
        "      r_4 = r_1;\n",
        "      const t10 = 2;\n",
        "      const t11 = r_4;\n",
        "      const t12 = t11 + t10;\n",
        "      r_5 = t12;\n",
        "      r_2 = r_5;\n",
        "      break;\n",
        "    }\n",
        "    case t5: {\n",
        "      const t14 = 4;\n",
        "      const t15 = r_1;\n",
        "      const t16 = t15 + t14;\n",
        "      r_6 = t16;\n",
        "      r_2 = r_6;\n",
        "      break;\n",
        "    }\n",
        "    default: {\n",
        "      r_2 = r_1;\n",
        "      const t18 = r_2;\n",
        "      return t18;\n",
        "    }\n",
        "  }\n",
        "}\n",
    ]);
    assert_eq!(emitted(&g), expected);
}

#[test]
fn for_loop_carries_the_sum_through_the_header() {
    let h = func(
        "h",
        &["a", "b"],
        vec![
            Statement::VariableDeclaration(vec![decl("s", num(0))]),
            Statement::For {
                init: Some(ForInit::Declaration(vec![decl("i", num(0))])),
                test: Some(bin(BinaryOp::LessThan, id("i"), num(3))),
                update: Some(Expression::Update { increment: true, prefix: false, target: Some("i".to_string()) }),
                body: Box::new(Statement::Block(vec![assign(
                    AssignOp::Addition,
                    "s",
                    bin(BinaryOp::Addition, id("a"), id("b")),
                )])),
            },
            ret(id("s")),
        ],
    );
    let expected = concat_lines(&[
        "function h(a, b) {\n",
        "  const $ = _c(20);\n",
        "  let i_1, i_2, i_3, s_1, s_2, s_3;\n",
        "  const t0 = 0;\n",
        "  s_1 = t0;\n",
        "  const t2 = 0;\n",
        "  i_1 = t2;\n",
        "  s_2 = s_1;\n",
        "  i_2 = i_1;\n",
        "  while (true) {\n",
        "    const t4 = i_2;\n",
        "    const t5 = 3;\n",
        "    const t6 = t4 < t5;\n",
        "    if (t6) {\n",
        "    } else {\n",
        "      break;\n",
        "    }\n",
        "    const t7 = a;\n",
        "    const t8 = b;\n",
        "    const t9 = t7 + t8;\n",
        "    const t10 = s_2;\n",
        "    const t11 = t10 + t9;\n",
        "    s_3 = t11;\n",
        "    const t13 = i_2;\n",
        "    const t14 = 1;\n",
        "    const t15 = t13 + t14;\n",
        "    i_3 = t15;\n",
        "    s_2 = s_3;\n",
        "    i_2 = i_3;\n",
        "    continue;\n",
        "  }\n",
        "  const t17 = s_2;\n",
        "  return t17;\n",
        "}\n",
    ]);
    assert_eq!(emitted(&h), expected);
}

#[test]
fn continue_in_a_while_loop_returns_to_the_header() {
    let w = func(
        "w",
        &[],
        vec![
            Statement::VariableDeclaration(vec![decl("i", num(0)), decl("r", num(0))]),
            Statement::While {
                test: bin(BinaryOp::LessThan, id("i"), num(5)),
                body: Box::new(Statement::Block(vec![
                    Statement::If {
                        test: bin(BinaryOp::StrictEquality, id("i"), num(2)),
                        consequent: Box::new(Statement::Block(vec![
                            Statement::Expression(Expression::Update {
                                increment: true,
                                prefix: false,
                                target: Some("i".to_string()),
                            }),
                            Statement::Continue,
                        ])),
                        alternate: None,
                    },
                    assign(AssignOp::Addition, "r", id("i")),
                    Statement::Expression(Expression::Update {
                        increment: true,
                        prefix: false,
                        target: Some("i".to_string()),
                    }),
                ])),
            },
            ret(id("r")),
        ],
    );
    let expected = concat_lines(&[
        "function w() {\n",
        "  const $ = _c(25);\n",
        "  let i_1, i_2, i_3, i_4, r_1, r_2, r_3;\n",
        "  const t0 = 0;\n",
        "  i_1 = t0;\n",
        "  const t2 = 0;\n",
        "  r_1 = t2;\n",
        "  r_2 = r_1;\n",
        "  i_2 = i_1;\n",
        "  while (true) {\n",
        "    const t4 = i_2;\n",
        "    const t5 = 5;\n",
        "    const t6 = t4 < t5;\n",
        "    if (t6) {\n",
        "    } else {\n",
        "      break;\n",
        "    }\n",
        "    const t7 = i_2;\n",
        "    const t8 = 2;\n",
        "    const t9 = t7 === t8;\n",
        "    if (t9) {\n",
        "      const t10 = i_2;\n",
        "      const t11 = 1;\n",
        "      const t12 = t10 + t11;\n",
        "      i_3 = t12;\n",
        "      i_2 = i_3;\n",
        "      continue;\n",
        "    } else {\n",
        "      const t14 = i_2;\n",
        "      const t15 = r_2;\n",
        "      const t16 = t15 + t14;\n",
        "      r_3 = t16;\n",
        "      const t18 = i_2;\n",
        "      const t19 = 1;\n",
        "      const t20 = t18 + t19;\n",
        "      i_4 = t20;\n",
        "      r_2 = r_3;\n",
        "      i_2 = i_4;\n",
        "      continue;\n",
        "    }\n",
        "  }\n",
        "  const t22 = r_2;\n",
        "  return t22;\n",
        "}\n",
    ]);
    assert_eq!(emitted(&w), expected);
}

#[test]
fn destructured_parameter_is_unpacked_at_entry() {
    let obj = Function {
        name: Some("obj".to_string()),
        params: vec![Param::Pattern(AssignmentTarget::ObjectPattern(vec![
            TargetProperty::Shorthand { name: "a".to_string() },
            TargetProperty::Shorthand { name: "b".to_string() },
        ]))],
        body: vec![ret(bin(BinaryOp::Addition, id("a"), id("b")))],
    };
    let expected = concat_lines(&[
        "function obj(_param0) {\n",
        "  const $ = _c(8);\n",
        "  let a_1, b_1;\n",
        "  const t0 = _param0;\n",
        "  const t1 = t0.a;\n",
        "  a_1 = t1;\n",
        "  const t3 = t0.b;\n",
        "  b_1 = t3;\n",
        "  const t5 = a_1;\n",
        "  const t6 = b_1;\n",
        "  const t7 = t5 + t6;\n",
        "  return t7;\n",
        "}\n",
    ]);
    assert_eq!(emitted(&obj), expected);
}

#[test]
fn nullish_coalescing_tests_for_null_and_undefined() {
    let nullish = func(
        "nullish",
        &["x"],
        vec![ret(Expression::Logical {
            op: LogicalOp::Coalesce,
            left: Box::new(id("x")),
            right: Box::new(num(7)),
        })],
    );
    let expected = concat_lines(&[
        "function nullish(x) {\n",
        "  const t0 = x;\n",
        "  const t2 = (t0 == null);\n",
        "  if (t2) {\n",
        "    const t4 = 7;\n",
        "    const t1 = t4;\n",
        "    const t6 = t1;\n",
        "    return t6;\n",
        "  } else {\n",
        "    const t1 = t0;\n",
        "    const t6 = t1;\n",
        "    return t6;\n",
        "  }\n",
        "}\n",
    ]);
    assert_eq!(emitted(&nullish), expected);
}

#[test]
fn compile_joins_the_functions_of_a_program() {
    let one = func("one", &[], vec![ret(num(1))]);
    let two = func("two", &["x"], vec![ret(id("x"))]);
    let parsed = Parsed::Program(Program { functions: vec![one, two] });
    let expected = concat_lines(&[
        "function one() {\n",
        "  const t0 = 1;\n",
        "  return t0;\n",
        "}\n",
        "\n",
        "function two(x) {\n",
        "  const t0 = x;\n",
        "  return t0;\n",
        "}\n",
        "\n",
    ]);
    assert_eq!(compile(&parsed).unwrap(), expected);
}

#[test]
fn compile_returns_diagnostics_as_text() {
    let parsed = Parsed::Errors(vec!["Unexpected token".to_string(), "Expected `}`".to_string()]);
    let text = compile(&parsed).unwrap();
    assert!(text.starts_with("Parse Errors:"));
    assert_eq!(text, "Parse Errors:\nUnexpected token\nExpected `}`\n");
}

#[test]
fn compile_is_deterministic() {
    let build = || {
        func(
            "k",
            &["a"],
            vec![
                Statement::VariableDeclaration(vec![decl("x", bin(BinaryOp::Multiplication, id("a"), num(2)))]),
                Statement::If {
                    test: id("a"),
                    consequent: Box::new(assign(AssignOp::Assign, "x", num(0))),
                    alternate: None,
                },
                ret(id("x")),
            ],
        )
    };
    assert_eq!(emitted(&build()), emitted(&build()));
}

#[test]
fn anonymous_function_gets_a_name() {
    let f = Function { name: None, params: vec![], body: vec![Statement::Return(None)] };
    assert_eq!(emitted(&f), "function anonymous() {\n  return;\n}\n");
}

#[test]
fn unsupported_expression_becomes_a_dead_temporary() {
    let f = func("u", &[], vec![Statement::Expression(Expression::Other), ret(num(1))]);
    assert_eq!(emitted(&f), "function u() {\n  const t1 = 1;\n  return t1;\n}\n");
}

#[test]
fn compound_assignment_to_a_member_is_not_lowered() {
    let f = func(
        "m",
        &["o"],
        vec![
            Statement::Expression(Expression::Assignment {
                op: AssignOp::Addition,
                target: Box::new(AssignmentTarget::StaticMember {
                    object: Box::new(id("o")),
                    property: "p".to_string(),
                }),
                value: Box::new(num(1)),
            }),
            Statement::Return(None),
        ],
    );
    assert_eq!(emitted(&f), "function m(o) {\n  const t0 = 1;\n  return;\n}\n");
}

fn versioned_definitions(ssa: &HIRFunction) -> Vec<Identifier> {
    ssa.blocks
        .iter()
        .flat_map(|b| b.instructions.iter().map(|i| i.lvalue.identifier.clone()))
        .filter(|id| id.id >= 1)
        .collect()
}

fn has_duplicates(ids: &[Identifier]) -> bool {
    (0..ids.len()).any(|i| ((i + 1)..ids.len()).any(|j| ids[i] == ids[j]))
}

#[test]
fn ssa_form_defines_every_version_once() {
    let w = func(
        "w",
        &["n"],
        vec![
            Statement::VariableDeclaration(vec![decl("i", num(0)), decl("r", num(0))]),
            Statement::While {
                test: bin(BinaryOp::LessThan, id("i"), id("n")),
                body: Box::new(Statement::Block(vec![
                    assign(AssignOp::Addition, "r", id("i")),
                    assign(AssignOp::Addition, "i", num(1)),
                ])),
            },
            ret(Expression::Logical {
                op: LogicalOp::Or,
                left: Box::new(id("r")),
                right: Box::new(num(0)),
            }),
        ],
    );
    let ssa = ssa_form(&w).unwrap();
    let defined = versioned_definitions(&ssa);
    assert!(defined.len() > 10);
    assert!(!has_duplicates(&defined));
}

#[test]
fn variable_named_like_a_temporary_can_collide_with_one() {
    // t0 = a; t1 = 1; t2 = t0 + t1; store t2 <- t2; t4 = 0; store t2 <- t4: the
    // second version of the variable `t2` is the temporary `t2` of the sum
    let f = func(
        "f",
        &["a"],
        vec![
            Statement::VariableDeclaration(vec![decl("t2", bin(BinaryOp::Addition, id("a"), num(1)))]),
            assign(AssignOp::Assign, "t2", num(0)),
            ret(id("t2")),
        ],
    );
    let ssa = ssa_form(&f).unwrap();
    assert!(has_duplicates(&versioned_definitions(&ssa)));
}

#[test]
fn assignment_to_a_parameter_has_no_let() {
    let f = func("f", &["x"], vec![assign(AssignOp::Assign, "x", num(1))]);
    let text = emitted(&f);
    assert_eq!(text, "function f(x) {\n  const $ = _c(2);\n  const t0 = 1;\n  x = t0;\n  return;\n}\n");
    assert!(!text.contains("let"));
}

#[test]
fn reassigned_parameter_is_read_by_its_name() {
    let f = func(
        "f",
        &["x"],
        vec![
            assign(AssignOp::Assign, "x", bin(BinaryOp::Addition, id("x"), num(1))),
            ret(id("x")),
        ],
    );
    let expected = concat_lines(&[
        "function f(x) {\n",
        "  const $ = _c(5);\n",
        "  const t0 = x;\n",
        "  const t1 = 1;\n",
        "  const t2 = t0 + t1;\n",
        "  x = t2;\n",
        "  const t4 = x;\n",
        "  return t4;\n",
        "}\n",
    ]);
    assert_eq!(emitted(&f), expected);
}

#[test]
fn nested_if_falls_through_to_what_follows() {
    // function f(a, b) { let r = 0; if (a) { if (b) { r = 1; } } return r; }
    let f = func(
        "f",
        &["a", "b"],
        vec![
            Statement::VariableDeclaration(vec![decl("r", num(0))]),
            Statement::If {
                test: id("a"),
                consequent: Box::new(Statement::Block(vec![Statement::If {
                    test: id("b"),
                    consequent: Box::new(Statement::Block(vec![assign(AssignOp::Assign, "r", num(1))])),
                    alternate: None,
                }])),
                alternate: None,
            },
            ret(id("r")),
        ],
    );
    let expected = concat_lines(&[
        "function f(a, b) {\n",
        "  const $ = _c(9);\n",
        "  let r_1, r_2, r_3, r_4;\n",
        "  const t0 = 0;\n",
        "  r_1 = t0;\n",
        "  const t2 = a;\n",
        "  if (t2) {\n",
        "    const t3 = b;\n",
        "    if (t3) {\n",
        "      const t4 = 1;\n",
        "      r_2 = t4;\n",
        "      r_3 = r_2;\n",
        "      r_4 = r_3;\n",
        "      const t6 = r_4;\n",
        "      return t6;\n",
        "    } else {\n",
        "      r_3 = r_1;\n",
        "      r_4 = r_3;\n",
        "      const t6 = r_4;\n",
        "      return t6;\n",
        "    }\n",
        "  } else {\n",
        "    r_4 = r_1;\n",
        "    const t6 = r_4;\n",
        "    return t6;\n",
        "  }\n",
        "}\n",
    ]);
    assert_eq!(emitted(&f), expected);
}

#[test]
fn continue_inside_a_switch_continues_the_loop() {
    // function k(n) { let i = 0, r = 0;
    //   while (i < n) { i += 1; switch (i) { case 2: continue; default: r += i; continue; } }
    //   return r; }
    let k = func(
        "k",
        &["n"],
        vec![
            Statement::VariableDeclaration(vec![decl("i", num(0)), decl("r", num(0))]),
            Statement::While {
                test: bin(BinaryOp::LessThan, id("i"), id("n")),
                body: Box::new(Statement::Block(vec![
                    assign(AssignOp::Addition, "i", num(1)),
                    Statement::Switch {
                        discriminant: id("i"),
                        cases: vec![
                            SwitchCase { test: Some(num(2)), consequent: vec![Statement::Continue] },
                            SwitchCase {
                                test: None,
                                consequent: vec![
                                    assign(AssignOp::Addition, "r", id("i")),
                                    Statement::Continue,
                                ],
                            },
                        ],
                    },
                ])),
            },
            ret(id("r")),
        ],
    );
    let expected = concat_lines(&[
        "function k(n) {\n",
        "  const $ = _c(20);\n",
        "  let i_1, i_2, i_3, r_1, r_2, r_3;\n",
        "  const t0 = 0;\n",
        "  i_1 = t0;\n",
        "  const t2 = 0;\n",
        "  r_1 = t2;\n",
        "  r_2 = r_1;\n",
        "  i_2 = i_1;\n",
        "  while (true) {\n",
        "    const t4 = i_2;\n",
        "    const t5 = n;\n",
        "    const t6 = t4 < t5;\n",
        "    if (t6) {\n",
        "    } else {\n",
        "      break;\n",
        "    }\n",
        "    const t7 = 1;\n",
        "    const t8 = i_2;\n",
        "    const t9 = t8 + t7;\n",
        "    i_3 = t9;\n",
        "    const t11 = i_3;\n",
        "    const t12 = 2;\n",
        "    switch (t11) {\n",
        "      case t12: {\n",
        "        i_2 = i_3;\n",
        "        continue;\n",
        "      }\n",
        "      default: {\n",
        "        const t13 = i_3;\n",
        "        const t14 = r_2;\n",
        "        const t15 = t14 + t13;\n",
        "        r_3 = t15;\n",
        "        r_2 = r_3;\n",
        "        i_2 = i_3;\n",
        "        continue;\n",
        "      }\n",
        "    }\n",
        "  }\n",
        "  const t17 = r_2;\n",
        "  return t17;\n",
        "}\n",
    ]);
    assert_eq!(emitted(&k), expected);
}

#[test]
fn branch_with_a_logical_expression_reaches_what_follows() {
    // function f(a, b) { let r = 0; if (a) { r = a && b; } return r; }
    let f = func(
        "f",
        &["a", "b"],
        vec![
            Statement::VariableDeclaration(vec![decl("r", num(0))]),
            Statement::If {
                test: id("a"),
                consequent: Box::new(Statement::Block(vec![assign(
                    AssignOp::Assign,
                    "r",
                    Expression::Logical {
                        op: LogicalOp::And,
                        left: Box::new(id("a")),
                        right: Box::new(id("b")),
                    },
                )])),
                alternate: None,
            },
            ret(id("r")),
        ],
    );
    let text = emitted(&f);
    // every way through the function ends in `return` of the variable
    assert_eq!(text.matches("return ").count(), 3);
    assert!(!text.contains("return;"));
}

fn sample_functions() -> Vec<Function> {
    vec![
        func(
            "w",
            &["n"],
            vec![
                Statement::VariableDeclaration(vec![decl("i", num(0)), decl("r", num(0))]),
                Statement::While {
                    test: bin(BinaryOp::LessThan, id("i"), id("n")),
                    body: Box::new(Statement::Block(vec![
                        Statement::If {
                            test: bin(BinaryOp::StrictEquality, id("i"), num(2)),
                            consequent: Box::new(Statement::Block(vec![
                                assign(AssignOp::Addition, "i", num(1)),
                                Statement::Continue,
                            ])),
                            alternate: None,
                        },
                        assign(AssignOp::Addition, "r", id("i")),
                        assign(AssignOp::Addition, "i", num(1)),
                    ])),
                },
                ret(Expression::Logical {
                    op: LogicalOp::Coalesce,
                    left: Box::new(id("r")),
                    right: Box::new(num(0)),
                }),
            ],
        ),
        func(
            "f",
            &["a", "b"],
            vec![
                Statement::VariableDeclaration(vec![decl("r", num(0))]),
                Statement::If {
                    test: id("a"),
                    consequent: Box::new(Statement::Block(vec![Statement::If {
                        test: id("b"),
                        consequent: Box::new(Statement::Block(vec![assign(AssignOp::Assign, "r", num(1))])),
                        alternate: None,
                    }])),
                    alternate: Some(Box::new(assign(AssignOp::Assign, "r", id("b")))),
                },
                ret(bin(BinaryOp::Addition, id("r"), id("a"))),
            ],
        ),
        func("e", &[], vec![]),
    ]
}

#[test]
fn no_two_instructions_of_the_schedule_define_the_same_identifier() {
    for f in sample_functions() {
        let ssa = ssa_form(&f).unwrap();
        let schedule = react_compiler_rust::hir::schedule::linearize_instructions(&ssa);
        let defined: Vec<Identifier> = schedule.iter().map(|i| i.lvalue.identifier.clone()).collect();
        assert!(!has_duplicates(&defined), "{:?}", f.name);
    }
}

#[test]
fn scopes_are_apart_and_so_are_their_dependencies_and_declarations() {
    for f in sample_functions() {
        let ssa = ssa_form(&f).unwrap();
        let liveness = react_compiler_rust::hir::inference::infer_liveness(&ssa);
        let result = react_compiler_rust::hir::reactive_scopes::construct_reactive_scopes(&ssa, &liveness);
        let scopes = &result.scopes;
        for (i, s) in scopes.iter().enumerate() {
            assert!(s.range.0 < s.range.1);
            for d in &s.dependencies {
                assert!(s.declarations.iter().all(|c| c.place.identifier != d.place.identifier));
            }
            for later in &scopes[i + 1..] {
                assert!(s.range.1 <= later.range.0);
                assert_ne!(s.id, later.id);
            }
        }
    }
}

#[test]
fn predecessors_mirror_successors_in_the_ssa_form() {
    for f in sample_functions() {
        let ssa = ssa_form(&f).unwrap();
        for b in &ssa.blocks {
            for s in &ssa.blocks {
                assert_eq!(s.preds.contains(&b.id), b.successors().contains(&s.id));
            }
        }
    }
}
