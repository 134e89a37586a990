use react_compiler_rust::hir::inference::{infer_liveness, DisjointSet, LiveRange, LivenessResult};
use react_compiler_rust::hir::reactive_scopes::{
    align_scopes, construct_reactive_scopes, get_operand_identifiers, infer_scopes, merge_scopes,
    propagate_dependencies,
};
use react_compiler_rust::hir::scope::{ReactiveScope, ScopeId};
use react_compiler_rust::hir::{
    Argument, ArrayElement, BasicBlock, BinaryOperator, BlockId, Constant, HIRFunction,
    Identifier, InstrId, Instruction, InstructionValue, ObjectProperty, ObjectPropertyKey, Place,
    Terminal,
};

fn ident(name: &str, id: usize) -> Identifier {
    Identifier { name: name.to_string(), id }
}

fn place(name: &str, id: usize) -> Place {
    Place { identifier: ident(name, id) }
}

fn instr(id: usize, lvalue: Place, value: InstructionValue) -> Instruction {
    Instruction { id: InstrId(id), lvalue, value, scope: None }
}

fn live(name: &str, id: usize, start: usize, end: usize) -> LiveRange {
    LiveRange { identifier: ident(name, id), start, end }
}

fn scope(id: usize, start: usize, end: usize) -> ReactiveScope {
    ReactiveScope { id: ScopeId(id), range: (start, end), dependencies: vec![], declarations: vec![] }
}

fn ranges(scopes: &[ReactiveScope]) -> Vec<(usize, usize)> {
    scopes.iter().map(|s| s.range).collect()
}

fn names(ids: &[Identifier]) -> Vec<(String, usize)> {
    ids.iter().map(|i| (i.name.clone(), i.id)).collect()
}

#[test]
fn operands_of_every_kind_of_operation() {
    let binary = InstructionValue::BinaryOp {
        op: BinaryOperator::Add,
        left: place("a", 1),
        right: place("b", 2),
    };
    assert_eq!(get_operand_identifiers(&binary), vec![ident("a", 1), ident("b", 2)]);

    let call = InstructionValue::Call {
        callee: place("f", 0),
        args: vec![Argument::Regular(place("x", 1)), Argument::Spread(place("y", 1))],
    };
    assert_eq!(get_operand_identifiers(&call), vec![ident("f", 0), ident("x", 1), ident("y", 1)]);

    let object = InstructionValue::Object {
        properties: vec![
            ObjectProperty::KeyValue {
                key: ObjectPropertyKey::Identifier("k".to_string()),
                value: place("v", 1),
            },
            ObjectProperty::KeyValue {
                key: ObjectPropertyKey::Computed(place("c", 1)),
                value: place("w", 1),
            },
            ObjectProperty::Spread(place("s", 1)),
        ],
    };
    assert_eq!(
        get_operand_identifiers(&object),
        vec![ident("v", 1), ident("c", 1), ident("w", 1), ident("s", 1)]
    );

    let array = InstructionValue::Array {
        elements: vec![
            ArrayElement::Regular(place("a", 1)),
            ArrayElement::Hole,
            ArrayElement::Spread(place("b", 1)),
        ],
    };
    assert_eq!(get_operand_identifiers(&array), vec![ident("a", 1), ident("b", 1)]);

    let store = InstructionValue::StoreLocal(place("x", 0), place("t1", 1));
    assert_eq!(get_operand_identifiers(&store), vec![ident("t1", 1)]);

    let computed = InstructionValue::ComputedStore {
        object: place("o", 1),
        property: place("p", 1),
        value: place("v", 1),
    };
    assert_eq!(get_operand_identifiers(&computed), vec![ident("o", 1), ident("p", 1), ident("v", 1)]);

    let phi = InstructionValue::Phi {
        operands: vec![(BlockId(1), place("x", 1)), (BlockId(2), place("x", 2))],
    };
    assert_eq!(get_operand_identifiers(&phi), vec![ident("x", 1), ident("x", 2)]);

    assert!(get_operand_identifiers(&InstructionValue::Constant(Constant::Null)).is_empty());
}

#[test]
fn candidates_skip_temporaries_and_short_ranges() {
    // `t0` is a temporary; `t` is a variable like any other
    let liveness = LivenessResult {
        ranges: vec![
            live("t0", 0, 0, 9),
            live("x", 1, 4, 6),
            live("y", 1, 2, 3),
            live("t", 1, 0, 5),
            live("a", 2, 1, 3),
            live("z", 1, 7, 7),
        ],
        aliases: DisjointSet::new(),
    };
    let scopes = infer_scopes(&liveness);
    assert_eq!(ranges(&scopes), vec![(0, 5), (1, 3), (4, 6)]);
    assert_eq!(scopes[0].id, ScopeId(0));
    assert_eq!(scopes[1].id, ScopeId(1));
    assert_eq!(scopes[2].id, ScopeId(2));
    assert!(scopes[0].dependencies.is_empty());
    assert!(scopes[0].declarations.is_empty());
}

#[test]
fn candidates_are_ordered_by_start_name_and_version() {
    let liveness = LivenessResult {
        ranges: vec![
            live("b", 1, 2, 5),
            live("a", 2, 2, 6),
            live("a", 1, 2, 7),
            live("c", 1, 0, 8),
        ],
        aliases: DisjointSet::new(),
    };
    let scopes = infer_scopes(&liveness);
    assert_eq!(ranges(&scopes), vec![(0, 8), (2, 7), (2, 6), (2, 5)]);
}

#[test]
fn merging_sorts_by_start() {
    let merged = merge_scopes(vec![scope(0, 10, 12), scope(1, 0, 2), scope(2, 5, 7)]);
    assert_eq!(ranges(&merged), vec![(0, 2), (5, 7), (10, 12)]);
    assert_eq!(merged[0].id, ScopeId(1));
}

#[test]
fn merging_keeps_touching_scopes_apart() {
    let merged = merge_scopes(vec![scope(0, 0, 5), scope(1, 5, 8)]);
    assert_eq!(ranges(&merged), vec![(0, 5), (5, 8)]);
}

#[test]
fn merging_swallows_a_scope_inside_another() {
    let merged = merge_scopes(vec![scope(0, 0, 10), scope(1, 2, 4), scope(2, 9, 12)]);
    assert_eq!(ranges(&merged), vec![(0, 12)]);
    assert_eq!(merged[0].id, ScopeId(0));
}

#[test]
fn merging_nothing_gives_nothing() {
    assert!(merge_scopes(vec![]).is_empty());
}

#[test]
fn merged_scopes_do_not_overlap() {
    let merged = merge_scopes(vec![
        scope(0, 3, 9),
        scope(1, 0, 4),
        scope(2, 20, 25),
        scope(3, 8, 10),
        scope(4, 12, 14),
        scope(5, 13, 21),
    ]);
    assert_eq!(ranges(&merged), vec![(0, 10), (12, 25)]);
    for i in 0..merged.len() {
        for j in (i + 1)..merged.len() {
            assert!(merged[i].range.1 <= merged[j].range.0);
        }
    }
}

fn straight_line() -> HIRFunction {
    // 0: t0 = 1          1: x_1 = t0        2: t2 = x_1
    // 3: t3 = 2          4: t4 = t2 + t3    5: y_1 = t4
    // 6: t6 = y_1
    HIRFunction {
        name: None,
        params: vec![],
        entry_block: BlockId(0),
        blocks: vec![BasicBlock {
            id: BlockId(0),
            instructions: vec![
                instr(0, place("t0", 0), InstructionValue::Constant(Constant::Int(1))),
                instr(1, place("x", 1), InstructionValue::LoadLocal(place("t0", 0))),
                instr(2, place("t2", 2), InstructionValue::LoadLocal(place("x", 1))),
                instr(3, place("t3", 3), InstructionValue::Constant(Constant::Int(2))),
                instr(
                    4,
                    place("t4", 4),
                    InstructionValue::BinaryOp {
                        op: BinaryOperator::Add,
                        left: place("t2", 2),
                        right: place("t3", 3),
                    },
                ),
                instr(5, place("y", 1), InstructionValue::LoadLocal(place("t4", 4))),
                instr(6, place("t6", 6), InstructionValue::LoadLocal(place("y", 1))),
            ],
            terminal: Terminal::Return(Some(place("t6", 6))),
            preds: vec![],
        }],
        loop_headers: vec![],
    }
}

#[test]
fn declarations_are_defined_inside_and_dependencies_before() {
    let scopes = propagate_dependencies(&straight_line(), vec![scope(0, 3, 6)]);
    let decls: Vec<Identifier> = scopes[0].declarations.iter().map(|d| d.place.identifier.clone()).collect();
    let deps: Vec<Identifier> = scopes[0].dependencies.iter().map(|d| d.place.identifier.clone()).collect();
    assert_eq!(names(&decls), names(&[ident("t3", 3), ident("t4", 4), ident("y", 1)]));
    assert_eq!(names(&deps), names(&[ident("t2", 2)]));
    for d in &deps {
        assert!(!decls.contains(d));
    }
}

#[test]
fn range_past_the_schedule_is_cut() {
    let scopes = propagate_dependencies(&straight_line(), vec![scope(0, 5, 50), scope(1, 60, 70)]);
    assert_eq!(scopes[0].declarations.len(), 2);
    assert_eq!(scopes[0].dependencies.len(), 1);
    assert!(scopes[1].declarations.is_empty());
    assert!(scopes[1].dependencies.is_empty());
}

#[test]
fn scopes_are_constructed_from_liveness() {
    let f = straight_line();
    let liveness = infer_liveness(&f);
    // x_1 lives with t0 and t2 over [0, 5); y_1 lives with t4 and t6 over [4, 7)
    assert_eq!(liveness.range_of(&ident("x", 1)), Some((0, 5)));
    assert_eq!(liveness.range_of(&ident("y", 1)), Some((4, 7)));
    let result = construct_reactive_scopes(&f, &liveness);
    assert_eq!(ranges(&result.scopes), vec![(0, 7)]);
    assert_eq!(result.scopes[0].declarations.len(), 7);
    assert!(result.scopes[0].dependencies.is_empty());
    let mut positions: Vec<(usize, usize)> =
        result.instruction_scopes.iter().map(|(i, s)| (*i, s.0)).collect();
    positions.sort();
    assert_eq!(positions, (0..7).map(|i| (i, 0)).collect::<Vec<_>>());
    assert_eq!(result.instruction_scopes.get(&3), Some(&ScopeId(0)));
    assert_eq!(result.instruction_scopes.get(&7), None);
}

#[test]
fn aligning_orders_by_start_and_keeps_ties_in_place() {
    let aligned = align_scopes(vec![scope(0, 4, 9), scope(1, 2, 3), scope(2, 4, 5), scope(3, 0, 1)]);
    assert_eq!(ranges(&aligned), vec![(0, 1), (2, 3), (4, 9), (4, 5)]);
    let order: Vec<usize> = aligned.iter().map(|s| s.id.0).collect();
    assert_eq!(order, vec![3, 1, 0, 2]);
}
