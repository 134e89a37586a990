//! Reactive scopes: candidate ranges from liveness, merged where they
//! overlap, with the inputs and outputs of each merged range.

use crate::hir::scope::{Declaration, Dependency, ReactiveScope, ScopeId, ScopeV};
use crate::hir::{
    ArgV, Argument, ArrayElement, ElemV, FuncV, HIRFunction, IdentV, Identifier, InstrV,
    Instruction, InstructionValue, KeyV, ObjectProperty, ObjectPropertyKey, Place, PropV, ValueV,
};
use crate::hir::inference::{LiveRange, LivenessResult, RangeV};
use crate::hir::schedule::{defined_once, linearize_instructions, schedule_of};
use crate::hir::scope_laws::{distinct_ids, lemma_scopes_of, well_ranged};
use crate::text::{is_temp_name, temp_name, text_less, text_lt};
use std::collections::HashMap;
use vstd::prelude::*;

verus! {

broadcast use {vstd::std_specs::vec::group_vec_axioms, vstd::std_specs::hash::group_hash_axioms};

/// The scopes of a function in ascending order of their ranges, and for
/// every schedule position inside a scope the scope's id.
#[derive(Debug)]
pub struct ReactiveScopeResult {
    pub scopes: Vec<ReactiveScope>,
    pub instruction_scopes: HashMap<usize, ScopeId>,
}

/// The operand of a call argument.
pub open spec fn arg_ident(a: ArgV) -> IdentV {
    match a {
        ArgV::Regular(p) => p,
        ArgV::Spread(p) => p,
    }
}

/// The operands of the arguments from `i` on, after `acc`.
pub open spec fn arg_idents(args: Seq<ArgV>, i: nat, acc: Seq<IdentV>) -> Seq<IdentV>
    decreases args.len() - i,
{
    if i >= args.len() {
        acc
    } else {
        arg_idents(args, i + 1, acc.push(arg_ident(args[i as int])))
    }
}

/// The operands of an object-literal member, after `acc`: a computed key,
/// then the value.
pub open spec fn prop_operands(p: PropV, acc: Seq<IdentV>) -> Seq<IdentV> {
    match p {
        PropV::KeyValue { key: KeyV::Computed(k), value } => acc.push(k).push(value),
        PropV::KeyValue { key: KeyV::Identifier(_), value } => acc.push(value),
        PropV::Spread(v) => acc.push(v),
    }
}

pub open spec fn prop_idents(props: Seq<PropV>, i: nat, acc: Seq<IdentV>) -> Seq<IdentV>
    decreases props.len() - i,
{
    if i >= props.len() {
        acc
    } else {
        prop_idents(props, i + 1, prop_operands(props[i as int], acc))
    }
}

pub open spec fn elem_idents(elems: Seq<ElemV>, i: nat, acc: Seq<IdentV>) -> Seq<IdentV>
    decreases elems.len() - i,
{
    if i >= elems.len() {
        acc
    } else {
        elem_idents(
            elems,
            i + 1,
            match elems[i as int] {
                ElemV::Regular(p) => acc.push(p),
                ElemV::Spread(p) => acc.push(p),
                ElemV::Hole => acc,
            },
        )
    }
}

pub open spec fn phi_idents(operands: Seq<(nat, IdentV)>, i: nat, acc: Seq<IdentV>) -> Seq<IdentV>
    decreases operands.len() - i,
{
    if i >= operands.len() {
        acc
    } else {
        phi_idents(operands, i + 1, acc.push(operands[i as int].1))
    }
}

/// The identifiers that an operation reads, in reading order.  A store
/// reads the stored value, not its target.
pub open spec fn operands(v: ValueV) -> Seq<IdentV> {
    match v {
        ValueV::Constant(_) => Seq::empty(),
        ValueV::BinaryOp { left, right, .. } => seq![left, right],
        ValueV::UnaryOp { operand, .. } => seq![operand],
        ValueV::Call { callee, args } => arg_idents(args, 0, seq![callee]),
        ValueV::Object { properties } => prop_idents(properties, 0, Seq::empty()),
        ValueV::Array { elements } => elem_idents(elements, 0, Seq::empty()),
        ValueV::PropertyLoad { object, .. } => seq![object],
        ValueV::PropertyStore { object, value, .. } => seq![object, value],
        ValueV::ComputedLoad { object, property } => seq![object, property],
        ValueV::ComputedStore { object, property, value } => seq![object, property, value],
        ValueV::LoadLocal(p) => seq![p],
        ValueV::StoreLocal(_, value) => seq![value],
        ValueV::Phi { operands } => phi_idents(operands, 0, Seq::empty()),
    }
}

fn push_ident(out: &mut Vec<Identifier>, p: &Place)
    ensures
        final(out).deep_view() == old(out).deep_view().push(p.deep_view()),
{
    out.push(p.identifier.clone());
    assert(out.deep_view() =~= old(out).deep_view().push(p.deep_view()));
}

/// The identifiers that an operation reads, as [`operands`] says.
pub fn get_operand_identifiers(value: &InstructionValue) -> (result: Vec<Identifier>)
    ensures
        result.deep_view() == operands(value.deep_view()),
{
    let mut result: Vec<Identifier> = Vec::new();
    assert(result.deep_view() =~= Seq::empty());
    match value {
        InstructionValue::BinaryOp { left, right, .. } => {
            push_ident(&mut result, left);
            push_ident(&mut result, right);
            assert(result.deep_view() =~= seq![left.deep_view(), right.deep_view()]);
        },
        InstructionValue::UnaryOp { operand, .. } => {
            push_ident(&mut result, operand);
            assert(result.deep_view() =~= seq![operand.deep_view()]);
        },
        InstructionValue::Call { callee, args } => {
            push_ident(&mut result, callee);
            assert(result.deep_view() =~= seq![callee.deep_view()]);
            let ghost start = result.deep_view();
            let mut i: usize = 0;
            while i < args.len()
                invariant
                    i <= args.len(),
                    arg_idents(args.deep_view(), i as nat, result.deep_view()) == arg_idents(
                        args.deep_view(),
                        0,
                        start,
                    ),
                decreases args.len() - i,
            {
                match &args[i] {
                    Argument::Regular(p) => push_ident(&mut result, p),
                    Argument::Spread(p) => push_ident(&mut result, p),
                }
                i += 1;
            }
        },
        InstructionValue::Object { properties } => {
            let mut i: usize = 0;
            while i < properties.len()
                invariant
                    i <= properties.len(),
                    prop_idents(properties.deep_view(), i as nat, result.deep_view())
                        == prop_idents(properties.deep_view(), 0, Seq::empty()),
                decreases properties.len() - i,
            {
                match &properties[i] {
                    ObjectProperty::KeyValue { key, value } => {
                        match key {
                            ObjectPropertyKey::Computed(k) => {
                                push_ident(&mut result, k);
                            },
                            ObjectPropertyKey::Identifier(_) => {},
                        }
                        push_ident(&mut result, value);
                    },
                    ObjectProperty::Spread(p) => push_ident(&mut result, p),
                }
                i += 1;
            }
        },
        InstructionValue::Array { elements } => {
            let mut i: usize = 0;
            while i < elements.len()
                invariant
                    i <= elements.len(),
                    elem_idents(elements.deep_view(), i as nat, result.deep_view())
                        == elem_idents(elements.deep_view(), 0, Seq::empty()),
                decreases elements.len() - i,
            {
                match &elements[i] {
                    ArrayElement::Regular(p) => push_ident(&mut result, p),
                    ArrayElement::Spread(p) => push_ident(&mut result, p),
                    ArrayElement::Hole => {},
                }
                i += 1;
            }
        },
        InstructionValue::PropertyLoad { object, .. } => {
            push_ident(&mut result, object);
            assert(result.deep_view() =~= seq![object.deep_view()]);
        },
        InstructionValue::PropertyStore { object, value, .. } => {
            push_ident(&mut result, object);
            push_ident(&mut result, value);
            assert(result.deep_view() =~= seq![object.deep_view(), value.deep_view()]);
        },
        InstructionValue::ComputedLoad { object, property } => {
            push_ident(&mut result, object);
            push_ident(&mut result, property);
            assert(result.deep_view() =~= seq![object.deep_view(), property.deep_view()]);
        },
        InstructionValue::ComputedStore { object, property, value } => {
            push_ident(&mut result, object);
            push_ident(&mut result, property);
            push_ident(&mut result, value);
            assert(result.deep_view() =~= seq![
                object.deep_view(),
                property.deep_view(),
                value.deep_view(),
            ]);
        },
        InstructionValue::LoadLocal(place) => {
            push_ident(&mut result, place);
            assert(result.deep_view() =~= seq![place.deep_view()]);
        },
        InstructionValue::StoreLocal(_, val) => {
            push_ident(&mut result, val);
            assert(result.deep_view() =~= seq![val.deep_view()]);
        },
        InstructionValue::Phi { operands } => {
            let mut i: usize = 0;
            while i < operands.len()
                invariant
                    i <= operands.len(),
                    phi_idents(operands.deep_view(), i as nat, result.deep_view()) == phi_idents(
                        operands.deep_view(),
                        0,
                        Seq::empty(),
                    ),
                decreases operands.len() - i,
            {
                push_ident(&mut result, &operands[i].1);
                i += 1;
            }
        },
        InstructionValue::Constant(_) => {},
    }
    result
}

/// Whether the range `[start, end)` is worth a scope: it covers at least
/// two positions.
pub open spec fn spans(start: nat, end: nat) -> bool {
    end > start + 1
}

/// A candidate: an identifier that is no temporary, with its range.
pub ghost struct CandidateV {
    pub ident: IdentV,
    pub start: nat,
    pub end: nat,
}

/// The order of candidates: by start, then name, then version.
pub open spec fn candidate_lt(a: CandidateV, b: CandidateV) -> bool {
    a.start < b.start || (a.start == b.start && ident_lt(a.ident, b.ident))
}

/// The order of identifiers: by name, then version.
pub open spec fn ident_lt(a: IdentV, b: IdentV) -> bool {
    text_lt(a.name, b.name, 0) || (a.name == b.name && a.id < b.id)
}

/// `x` put into the ascending list before the first candidate from `i` on
/// that is greater.
pub open spec fn insert_candidate(sorted: Seq<CandidateV>, x: CandidateV, i: nat) -> Seq<CandidateV>
    decreases sorted.len() - i,
{
    if i >= sorted.len() {
        sorted.push(x)
    } else if candidate_lt(x, sorted[i as int]) {
        sorted.insert(i as int, x)
    } else {
        insert_candidate(sorted, x, i + 1)
    }
}

/// A scope without inputs and outputs.
pub open spec fn bare_scope(id: nat, start: nat, end: nat) -> ScopeV {
    ScopeV { id, start, end, dependencies: Seq::empty(), declarations: Seq::empty() }
}

/// The scopes of the candidates in their order, numbered from 0.
pub open spec fn number_scopes(sorted: Seq<CandidateV>) -> Seq<ScopeV> {
    Seq::new(sorted.len(), |i: int| bare_scope(i as nat, sorted[i].start, sorted[i].end))
}

/// A scope put into the list before the first scope from `i` on that
/// starts later.
pub open spec fn insert_scope(sorted: Seq<ScopeV>, x: ScopeV, i: nat) -> Seq<ScopeV>
    decreases sorted.len() - i,
{
    if i >= sorted.len() {
        sorted.push(x)
    } else if x.start < sorted[i as int].start {
        sorted.insert(i as int, x)
    } else {
        insert_scope(sorted, x, i + 1)
    }
}

/// The scopes from `i` on inserted one by one into `acc`: with an empty
/// `acc`, the scopes in ascending order of their starts, scopes with equal
/// starts in their given order.
pub open spec fn sort_scopes(v: Seq<ScopeV>, i: nat, acc: Seq<ScopeV>) -> Seq<ScopeV>
    decreases v.len() - i,
{
    if i >= v.len() {
        acc
    } else {
        sort_scopes(v, i + 1, insert_scope(acc, v[i as int], 0))
    }
}

/// The scopes from `i` on folded into `acc`: a scope that starts before the
/// last one ends extends it, any other is appended.
pub open spec fn merge_from(sorted: Seq<ScopeV>, i: nat, acc: Seq<ScopeV>) -> Seq<ScopeV>
    decreases sorted.len() - i,
{
    if i >= sorted.len() {
        acc
    } else {
        merge_from(sorted, i + 1, merge_step(acc, sorted[i as int]))
    }
}

/// The scopes sorted by start and merged where they overlap.
pub open spec fn merged_scopes(scopes: Seq<ScopeV>) -> Seq<ScopeV> {
    merge_from(sort_scopes(scopes, 0, Seq::empty()), 0, Seq::empty())
}

/// The starts ascend.
pub open spec fn starts_ascend(s: Seq<ScopeV>) -> bool {
    forall|i: int, j: int| #![trigger s[i], s[j]] 0 <= i < j < s.len() ==> s[i].start <= s[j].start
}

/// Insertion keeps the starts ascending.
pub proof fn lemma_insert_scope(sorted: Seq<ScopeV>, x: ScopeV, i: nat)
    requires
        starts_ascend(sorted),
        i <= sorted.len(),
        forall|k: int| 0 <= k < i ==> sorted[k].start <= x.start,
    ensures
        starts_ascend(insert_scope(sorted, x, i)),
        insert_scope(sorted, x, i).len() == sorted.len() + 1,
    decreases sorted.len() - i,
{
    if i >= sorted.len() {
        let r = sorted.push(x);
        assert forall|a: int, b: int| 0 <= a < b < r.len() implies r[a].start <= r[b].start by {
            if b == sorted.len() {
                assert(sorted[a].start <= x.start);
            }
        }
    } else if x.start < sorted[i as int].start {
        let r = sorted.insert(i as int, x);
        assert forall|a: int, b: int| 0 <= a < b < r.len() implies r[a].start <= r[b].start by {
            if b < i {
                assert(r[a] == sorted[a]);
                assert(r[b] == sorted[b]);
            } else if b == i {
                assert(r[a] == sorted[a]);
                assert(sorted[a].start <= x.start);
            } else {
                assert(r[b] == sorted[b - 1]);
                if a < i {
                    assert(r[a] == sorted[a]);
                    assert(sorted[a].start <= sorted[b - 1].start);
                } else if a == i {
                    if i as int != b - 1 {
                        assert(sorted[i as int].start <= sorted[b - 1].start);
                    }
                } else {
                    assert(r[a] == sorted[a - 1]);
                    assert(sorted[a - 1].start <= sorted[b - 1].start);
                }
            }
        }
    } else {
        lemma_insert_scope(sorted, x, i + 1);
    }
}

/// Sorting yields ascending starts.
pub proof fn lemma_sort_scopes(v: Seq<ScopeV>, i: nat, acc: Seq<ScopeV>)
    requires
        starts_ascend(acc),
    ensures
        starts_ascend(sort_scopes(v, i, acc)),
    decreases v.len() - i,
{
    if i < v.len() {
        lemma_insert_scope(acc, v[i as int], 0);
        lemma_sort_scopes(v, i + 1, insert_scope(acc, v[i as int], 0));
    }
}

/// Every scope ends where the next one starts or before, and the starts
/// ascend.
pub open spec fn chained(s: Seq<ScopeV>) -> bool {
    &&& starts_ascend(s)
    &&& forall|k: int| 0 <= k < s.len() - 1 ==> (#[trigger] s[k]).end <= s[k + 1].start
}

/// Merging keeps the accumulated scopes chained.
pub proof fn lemma_merge_from(sorted: Seq<ScopeV>, i: nat, acc: Seq<ScopeV>)
    requires
        starts_ascend(sorted),
        chained(acc),
        i <= sorted.len(),
        acc.len() > 0 && i < sorted.len() ==> acc.last().start <= sorted[i as int].start,
    ensures
        chained(merge_from(sorted, i, acc)),
    decreases sorted.len() - i,
{
    if i < sorted.len() {
        let x = sorted[i as int];
        let next = merge_step(acc, x);
        assert(chained(next)) by {
            if acc.len() > 0 && x.start < acc.last().end {
                assert forall|a: int, b: int| 0 <= a < b < next.len() implies next[a].start
                    <= next[b].start by {
                    assert(acc[a].start <= acc[b].start);
                }
                assert forall|k: int| 0 <= k < next.len() - 1 implies (#[trigger] next[k]).end
                    <= next[k + 1].start by {
                    assert(acc[k].end <= acc[k + 1].start);
                }
            } else {
                assert forall|a: int, b: int| 0 <= a < b < next.len() implies next[a].start
                    <= next[b].start by {
                    if b == acc.len() {
                        assert(acc[a].start <= acc.last().start);
                    } else {
                        assert(acc[a].start <= acc[b].start);
                    }
                }
                assert forall|k: int| 0 <= k < next.len() - 1 implies (#[trigger] next[k]).end
                    <= next[k + 1].start by {
                    if k + 1 < acc.len() {
                        assert(acc[k].end <= acc[k + 1].start);
                    }
                }
            }
        }
        if i + 1 < sorted.len() {
            assert(sorted[i as int].start <= sorted[i as int + 1].start);
        }
        lemma_merge_from(sorted, i + 1, next);
    }
}

/// After merging, no two scope ranges overlap: of any two scopes, the
/// earlier ends where the later starts or before.
pub proof fn lemma_merged_disjoint(scopes: Seq<ScopeV>, i: int, j: int)
    requires
        0 <= i < j < merged_scopes(scopes).len(),
    ensures
        merged_scopes(scopes)[i].end <= merged_scopes(scopes)[j].start,
{
    let sorted = sort_scopes(scopes, 0, Seq::empty());
    lemma_sort_scopes(scopes, 0, Seq::empty());
    lemma_merge_from(sorted, 0, Seq::empty());
    let m = merged_scopes(scopes);
    assert(m[i].end <= m[i + 1].start);
    if i + 1 < j {
        assert(m[i + 1].start <= m[j].start);
    }
}

/// One step of merging: `x` extends the last scope of `acc` where it
/// starts before that one ends, and is appended otherwise.
pub open spec fn merge_step(acc: Seq<ScopeV>, x: ScopeV) -> Seq<ScopeV> {
    if acc.len() > 0 && x.start < acc.last().end {
        acc.update(
            acc.len() - 1,
            ScopeV {
                end: if acc.last().end > x.end {
                    acc.last().end
                } else {
                    x.end
                },
                ..acc.last()
            },
        )
    } else {
        acc.push(x)
    }
}

/// Puts a scope into a list sorted by start, as [`insert_scope`] says.
fn insert_by_start(r: &mut Vec<ReactiveScope>, x: ReactiveScope)
    ensures
        final(r).deep_view() == insert_scope(old(r).deep_view(), x.deep_view(), 0),
{
    let ghost acc = r.deep_view();
    let mut j: usize = 0;
    while j < r.len() && !(x.range.0 < r[j].range.0)
        invariant
            j <= r.len(),
            *r == *old(r),
            acc == r.deep_view(),
            insert_scope(acc, x.deep_view(), j as nat) == insert_scope(acc, x.deep_view(), 0),
        decreases r.len() - j,
    {
        j += 1;
    }
    r.insert(j, x);
    proof {
        if j < acc.len() {
            assert(r.deep_view() =~= acc.insert(j as int, x.deep_view()));
        } else {
            assert(r.deep_view() =~= acc.push(x.deep_view()));
        }
    }
}

/// Folds one scope into the merged list, as [`merge_step`] says.
fn merge_one(merged: &mut Vec<ReactiveScope>, scope: ReactiveScope)
    ensures
        final(merged).deep_view() == merge_step(old(merged).deep_view(), scope.deep_view()),
{
    let ghost acc = merged.deep_view();
    let n: usize = merged.len();
    if n > 0 && scope.range.0 < merged[n - 1].range.1 {
        let ghost prev = *merged;
        if scope.range.1 > merged[n - 1].range.1 {
            merged[n - 1].range.1 = scope.range.1;
        }
        proof {
            assert forall|k: int| 0 <= k < n - 1 implies merged.deep_view()[k] == acc[k] by {
                assert(merged@[k] == prev@[k]);
            }
            assert(merged@[n - 1].dependencies == prev@[n - 1].dependencies);
            assert(merged@[n - 1].declarations == prev@[n - 1].declarations);
            assert(merged.deep_view() =~= merge_step(acc, scope.deep_view()));
        }
    } else {
        merged.push(scope);
        assert(merged.deep_view() =~= acc.push(scope.deep_view()));
    }
}

/// Aligns the scopes: they are put in ascending order of their starts,
/// scopes with equal starts in their given order, as [`sort_scopes`] says.
/// Ranges stay as they are.
pub fn align_scopes(scopes: Vec<ReactiveScope>) -> (r: Vec<ReactiveScope>)
    ensures
        r.deep_view() == sort_scopes(scopes.deep_view(), 0, Seq::empty()),
{
    let ghost orig = scopes.deep_view();
    let ghost items = scopes@;
    let mut rest = scopes;
    let mut r: Vec<ReactiveScope> = Vec::new();
    assert(r.deep_view() =~= Seq::empty());
    let ghost mut done: int = 0;
    while rest.len() > 0
        invariant
            0 <= done <= items.len(),
            orig.len() == items.len(),
            forall|k: int| 0 <= k < items.len() ==> orig[k] == (#[trigger] items[k]).deep_view(),
            rest@ == items.subrange(done, items.len() as int),
            sort_scopes(orig, done as nat, r.deep_view()) == sort_scopes(orig, 0, Seq::empty()),
        decreases rest.len(),
    {
        let x = rest.remove(0);
        assert(x == items[done]);
        assert(rest@ =~= items.subrange(done + 1, items.len() as int));
        insert_by_start(&mut r, x);
        proof {
            done = done + 1;
        }
    }
    r
}

/// Merges sorted scopes, as [`merge_from`] says.
fn merge_sorted(sorted: Vec<ReactiveScope>) -> (merged: Vec<ReactiveScope>)
    ensures
        merged.deep_view() == merge_from(sorted.deep_view(), 0, Seq::empty()),
{
    let ghost sv = sorted.deep_view();
    let ghost items = sorted@;
    let mut rest = sorted;
    let mut merged: Vec<ReactiveScope> = Vec::new();
    assert(merged.deep_view() =~= Seq::empty());
    let ghost mut done: int = 0;
    while rest.len() > 0
        invariant
            0 <= done <= items.len(),
            sv.len() == items.len(),
            forall|k: int| 0 <= k < items.len() ==> sv[k] == (#[trigger] items[k]).deep_view(),
            rest@ == items.subrange(done, items.len() as int),
            merge_from(sv, done as nat, merged.deep_view()) == merge_from(sv, 0, Seq::empty()),
        decreases rest.len(),
    {
        let scope = rest.remove(0);
        assert(scope == items[done]);
        assert(rest@ =~= items.subrange(done + 1, items.len() as int));
        merge_one(&mut merged, scope);
        proof {
            done = done + 1;
        }
    }
    merged
}

/// Sorts the scopes by start and merges those that overlap, as
/// [`merged_scopes`] says.  In the result the starts ascend and every scope
/// ends where the next one starts or before.
pub fn merge_scopes(scopes: Vec<ReactiveScope>) -> (merged: Vec<ReactiveScope>)
    ensures
        merged.deep_view() == merged_scopes(scopes.deep_view()),
        chained(merged.deep_view()),
{
    let ghost sv = scopes.deep_view();
    let sorted = align_scopes(scopes);
    let merged = merge_sorted(sorted);
    proof {
        lemma_sort_scopes(sv, 0, Seq::empty());
        lemma_merge_from(sort_scopes(sv, 0, Seq::empty()), 0, Seq::empty());
    }
    merged
}

/// Whether a live range makes a candidate: it covers at least two
/// positions and its identifier is no temporary.
pub open spec fn is_candidate(r: RangeV) -> bool {
    spans(r.start, r.end) && !is_temp_name(r.ident.name)
}

/// The candidates among the ranges from `i` on, inserted into `acc` in
/// candidate order.
pub open spec fn candidates_from(ranges: Seq<RangeV>, i: nat, acc: Seq<CandidateV>) -> Seq<CandidateV>
    decreases ranges.len() - i,
{
    if i >= ranges.len() {
        acc
    } else {
        let r = ranges[i as int];
        candidates_from(
            ranges,
            i + 1,
            if is_candidate(r) {
                insert_candidate(acc, CandidateV { ident: r.ident, start: r.start, end: r.end }, 0)
            } else {
                acc
            },
        )
    }
}

/// The candidate scopes of a liveness result: one per identifier that is
/// no temporary and lives over at least two positions, in the order of
/// (start, name, version), numbered from 0.
pub open spec fn inferred_scopes(ranges: Seq<RangeV>) -> Seq<ScopeV> {
    number_scopes(candidates_from(ranges, 0, Seq::empty()))
}

/// The candidate of a live range.
pub open spec fn candidate_of(r: RangeV) -> CandidateV {
    CandidateV { ident: r.ident, start: r.start, end: r.end }
}

fn ident_less(a: &Identifier, b: &Identifier) -> (r: bool)
    ensures
        r == ident_lt(a.deep_view(), b.deep_view()),
{
    if text_less(a.name.as_str(), b.name.as_str()) {
        true
    } else {
        a.name == b.name && a.id < b.id
    }
}

fn candidate_less(a: &LiveRange, b: &LiveRange) -> (r: bool)
    ensures
        r == candidate_lt(candidate_of(a.deep_view()), candidate_of(b.deep_view())),
{
    a.start < b.start || (a.start == b.start && ident_less(&a.identifier, &b.identifier))
}

/// Hands out scope ids.
pub struct ScopeInferenceContext {
    next_scope_id: usize,
    identifier_to_scope: Vec<(Identifier, ScopeId)>,
}

/// The map that a list of (identifier, scope) entries stands for: a later
/// entry for an identifier replaces an earlier one.
pub open spec fn scope_map(entries: Seq<(IdentV, nat)>) -> Map<IdentV, nat>
    decreases entries.len(),
{
    if entries.len() == 0 {
        Map::empty()
    } else {
        scope_map(entries.drop_last()).insert(entries.last().0, entries.last().1)
    }
}

impl ScopeInferenceContext {
    /// The id that the next scope gets.
    pub closed spec fn next_id(&self) -> nat {
        self.next_scope_id as nat
    }

    /// The entries that were remembered, oldest first.
    pub closed spec fn entries(&self) -> Seq<(IdentV, nat)> {
        Seq::new(
            self.identifier_to_scope@.len(),
            |i: int| (self.identifier_to_scope@[i].0.deep_view(), self.identifier_to_scope@[i].1.0 as nat),
        )
    }

    /// The scope that each remembered identifier defines.
    pub open spec fn scopes(&self) -> Map<IdentV, nat> {
        scope_map(self.entries())
    }

    /// A context that numbers scopes from 0 and remembers nothing.
    pub fn new() -> (r: Self)
        ensures
            r.next_id() == 0,
            r.scopes() == Map::<IdentV, nat>::empty(),
    {
        ScopeInferenceContext { next_scope_id: 0, identifier_to_scope: Vec::new() }
    }

    /// A scope over `range` with the next id and neither inputs nor outputs.
    pub fn create_scope(&mut self, range: (usize, usize)) -> (scope: ReactiveScope)
        requires
            old(self).next_id() < usize::MAX,
        ensures
            final(self).next_id() == old(self).next_id() + 1,
            final(self).scopes() == old(self).scopes(),
            scope.deep_view() == bare_scope(old(self).next_id(), range.0 as nat, range.1 as nat),
    {
        let id = ScopeId(self.next_scope_id);
        self.next_scope_id = self.next_scope_id + 1;
        let scope = ReactiveScope {
            id,
            range,
            dependencies: Vec::new(),
            declarations: Vec::new(),
        };
        assert(scope.deep_view().dependencies =~= Seq::empty());
        assert(scope.deep_view().declarations =~= Seq::empty());
        scope
    }

    /// Remembers the scope of an identifier: from now on the identifier
    /// maps to `scope`, whatever it mapped to before, and every other
    /// identifier maps to what it did.  The numbering is not touched.
    fn remember(&mut self, id: &Identifier, scope: ScopeId)
        ensures
            final(self).next_id() == old(self).next_id(),
            final(self).scopes() == old(self).scopes().insert(id.deep_view(), scope.0 as nat),
    {
        self.identifier_to_scope.push((id.clone(), scope));
        proof {
            let entry = (id.deep_view(), scope.0 as nat);
            assert(self.entries() =~= old(self).entries().push(entry));
            assert(self.entries().drop_last() =~= old(self).entries());
        }
    }
}

/// The candidate scopes, as [`inferred_scopes`] says.
pub fn infer_scopes(liveness: &LivenessResult) -> (scopes: Vec<ReactiveScope>)
    ensures
        scopes.deep_view() == inferred_scopes(liveness.ranges.deep_view()),
{
    let ghost ranges = liveness.ranges.deep_view();
    let mut sorted: Vec<&LiveRange> = Vec::new();
    let ghost mut acc: Seq<CandidateV> = Seq::empty();
    let mut i: usize = 0;
    while i < liveness.ranges.len()
        invariant
            i <= liveness.ranges.len(),
            ranges == liveness.ranges.deep_view(),
            acc.len() == sorted@.len(),
            forall|k: int| 0 <= k < acc.len() ==> acc[k] == candidate_of((#[trigger] sorted@[k]).deep_view()),
            candidates_from(ranges, i as nat, acc) == candidates_from(ranges, 0, Seq::empty()),
        decreases liveness.ranges.len() - i,
    {
        let r = &liveness.ranges[i];
        assert(ranges[i as int] == r.deep_view());
        if r.end > r.start && r.end - r.start > 1 && !temp_name(r.identifier.name.as_str()) {
            let mut j: usize = 0;
            while j < sorted.len() && !candidate_less(r, sorted[j])
                invariant
                    j <= sorted.len(),
                    acc.len() == sorted@.len(),
                    forall|k: int|
                        0 <= k < acc.len() ==> acc[k] == candidate_of(
                            (#[trigger] sorted@[k]).deep_view(),
                        ),
                    insert_candidate(acc, candidate_of(r.deep_view()), j as nat) == insert_candidate(
                        acc,
                        candidate_of(r.deep_view()),
                        0,
                    ),
                decreases sorted.len() - j,
            {
                j += 1;
            }
            sorted.insert(j, r);
            proof {
                let x = candidate_of(r.deep_view());
                let next = if j < acc.len() {
                    acc.insert(j as int, x)
                } else {
                    acc.push(x)
                };
                assert(next == insert_candidate(acc, x, 0));
                acc = next;
            }
        }
        i += 1;
    }
    let mut ctx = ScopeInferenceContext::new();
    let mut scopes: Vec<ReactiveScope> = Vec::new();
    let mut k: usize = 0;
    while k < sorted.len()
        invariant
            k <= sorted.len(),
            ctx.next_id() == k,
            scopes@.len() == k,
            acc.len() == sorted@.len(),
            forall|j: int| 0 <= j < acc.len() ==> acc[j] == candidate_of((#[trigger] sorted@[j]).deep_view()),
            forall|j: int|
                0 <= j < k ==> (#[trigger] scopes@[j]).deep_view() == bare_scope(
                    j as nat,
                    acc[j].start,
                    acc[j].end,
                ),
        decreases sorted.len() - k,
    {
        let r = sorted[k];
        let scope = ctx.create_scope((r.start, r.end));
        ctx.remember(&r.identifier, scope.id);
        scopes.push(scope);
        k += 1;
    }
    assert(scopes.deep_view() =~= number_scopes(acc));
    scopes
}

/// `x` put into the ascending list of identifiers, unless it is there.
pub open spec fn insert_ident(s: Seq<IdentV>, x: IdentV, i: nat) -> Seq<IdentV>
    decreases s.len() - i,
{
    if i >= s.len() {
        s.push(x)
    } else if s[i as int] == x {
        s
    } else if ident_lt(x, s[i as int]) {
        s.insert(i as int, x)
    } else {
        insert_ident(s, x, i + 1)
    }
}

/// The first position from `i` on at which `id` is defined.
pub open spec fn def_index(sched: Seq<InstrV>, id: IdentV, i: nat) -> Option<nat>
    decreases sched.len() - i,
{
    if i >= sched.len() {
        None
    } else if sched[i as int].lvalue == id {
        Some(i)
    } else {
        def_index(sched, id, i + 1)
    }
}

/// Whether `id` is defined before position `start`.
pub open spec fn defined_before(sched: Seq<InstrV>, id: IdentV, start: nat) -> bool {
    def_index(sched, id, 0) matches Some(k) && k < start
}

/// The operands from `j` on that are defined before `start` join `acc`.
pub open spec fn deps_from(sched: Seq<InstrV>, ops: Seq<IdentV>, j: nat, start: nat, acc: Seq<IdentV>) -> Seq<
    IdentV,
>
    decreases ops.len() - j,
{
    if j >= ops.len() {
        acc
    } else {
        deps_from(
            sched,
            ops,
            j + 1,
            start,
            if defined_before(sched, ops[j as int], start) {
                insert_ident(acc, ops[j as int], 0)
            } else {
                acc
            },
        )
    }
}

/// The declarations and dependencies of the range `[start, end)`, gathered
/// from position `idx` on: every lvalue in the range is a declaration,
/// every operand used in the range and defined before its start is a
/// dependency.
pub open spec fn scope_sets(
    sched: Seq<InstrV>,
    idx: nat,
    start: nat,
    end: nat,
    decls: Seq<IdentV>,
    deps: Seq<IdentV>,
) -> (Seq<IdentV>, Seq<IdentV>)
    decreases end - idx,
{
    if idx >= end || idx >= sched.len() {
        (decls, deps)
    } else {
        scope_sets(
            sched,
            idx + 1,
            start,
            end,
            insert_ident(decls, sched[idx as int].lvalue, 0),
            deps_from(sched, operands(sched[idx as int].value), 0, start, deps),
        )
    }
}

/// A scope with its declarations and dependencies.
pub open spec fn propagated(sched: Seq<InstrV>, scope: ScopeV) -> ScopeV {
    let sets = scope_sets(sched, scope.start, scope.start, scope.end, Seq::empty(), Seq::empty());
    ScopeV { declarations: sets.0, dependencies: sets.1, ..scope }
}

/// Every scope with its declarations and dependencies.
pub open spec fn propagate(sched: Seq<InstrV>, scopes: Seq<ScopeV>) -> Seq<ScopeV> {
    Seq::new(scopes.len(), |i: int| propagated(sched, scopes[i]))
}

fn find_definition(sched: &Vec<&Instruction>, id: &Identifier) -> (r: Option<usize>)
    ensures
        match r {
            Some(k) => def_index(sched.deep_view(), id.deep_view(), 0) == Some(k as nat),
            None => def_index(sched.deep_view(), id.deep_view(), 0) is None,
        },
{
    let mut i: usize = 0;
    while i < sched.len()
        invariant
            i <= sched.len(),
            def_index(sched.deep_view(), id.deep_view(), i as nat) == def_index(
                sched.deep_view(),
                id.deep_view(),
                0,
            ),
        decreases sched.len() - i,
    {
        if sched[i].lvalue.identifier.same(id) {
            return Some(i);
        }
        i += 1;
    }
    None
}

/// Puts an identifier into an ascending list, as [`insert_ident`] says.
fn insert_identifier(list: &mut Vec<Identifier>, x: &Identifier)
    ensures
        final(list).deep_view() == insert_ident(old(list).deep_view(), x.deep_view(), 0),
{
    let ghost s = list.deep_view();
    let mut i: usize = 0;
    while i < list.len()
        invariant
            i <= list.len(),
            *list == *old(list),
            s == list.deep_view(),
            insert_ident(s, x.deep_view(), i as nat) == insert_ident(s, x.deep_view(), 0),
        decreases list.len() - i,
    {
        if list[i].same(x) {
            return ;
        }
        if ident_less(x, &list[i]) {
            list.insert(i, x.clone());
            assert(list.deep_view() =~= s.insert(i as int, x.deep_view()));
            return ;
        }
        i += 1;
    }
    list.push(x.clone());
    assert(list.deep_view() =~= s.push(x.deep_view()));
}

/// The declarations and dependencies of a range, as [`scope_sets`] says.
fn gather_sets(sched: &Vec<&Instruction>, start: usize, end: usize) -> (r: (
    Vec<Identifier>,
    Vec<Identifier>,
))
    ensures
        (r.0.deep_view(), r.1.deep_view()) == scope_sets(
            sched.deep_view(),
            start as nat,
            start as nat,
            end as nat,
            Seq::empty(),
            Seq::empty(),
        ),
{
    let ghost s = sched.deep_view();
    let mut decls: Vec<Identifier> = Vec::new();
    let mut deps: Vec<Identifier> = Vec::new();
    assert(decls.deep_view() =~= Seq::empty());
    assert(deps.deep_view() =~= Seq::empty());
    let mut idx: usize = start;
    while idx < end && idx < sched.len()
        invariant
            s == sched.deep_view(),
            start <= idx,
            scope_sets(s, idx as nat, start as nat, end as nat, decls.deep_view(), deps.deep_view())
                == scope_sets(s, start as nat, start as nat, end as nat, Seq::empty(), Seq::empty()),
        decreases sched.len() - idx,
    {
        let instr = sched[idx];
        insert_identifier(&mut decls, &instr.lvalue.identifier);
        let ops = get_operand_identifiers(&instr.value);
        let ghost before = deps.deep_view();
        let mut j: usize = 0;
        while j < ops.len()
            invariant
                j <= ops.len(),
                s == sched.deep_view(),
                deps_from(s, ops.deep_view(), j as nat, start as nat, deps.deep_view()) == deps_from(
                    s,
                    ops.deep_view(),
                    0,
                    start as nat,
                    before,
                ),
            decreases ops.len() - j,
        {
            match find_definition(sched, &ops[j]) {
                Some(k) => {
                    if k < start {
                        insert_identifier(&mut deps, &ops[j]);
                    }
                },
                None => {},
            }
            j += 1;
        }
        idx += 1;
    }
    (decls, deps)
}

fn wrap_dependencies(ids: Vec<Identifier>) -> (r: Vec<Dependency>)
    ensures
        r.deep_view() == ids.deep_view(),
{
    let ghost items = ids@;
    let mut rest = ids;
    let mut r: Vec<Dependency> = Vec::new();
    while rest.len() > 0
        invariant
            r@.len() + rest@.len() == items.len(),
            rest@ == items.subrange(r@.len() as int, items.len() as int),
            forall|k: int| 0 <= k < r@.len() ==> (#[trigger] r@[k]).place.identifier == items[k],
        decreases rest.len(),
    {
        let id = rest.remove(0);
        r.push(Dependency { place: Place { identifier: id } });
    }
    assert(r.deep_view() =~= ids.deep_view());
    r
}

fn wrap_declarations(ids: Vec<Identifier>) -> (r: Vec<Declaration>)
    ensures
        r.deep_view() == ids.deep_view(),
{
    let ghost items = ids@;
    let mut rest = ids;
    let mut r: Vec<Declaration> = Vec::new();
    while rest.len() > 0
        invariant
            r@.len() + rest@.len() == items.len(),
            rest@ == items.subrange(r@.len() as int, items.len() as int),
            forall|k: int| 0 <= k < r@.len() ==> (#[trigger] r@[k]).place.identifier == items[k],
        decreases rest.len(),
    {
        let id = rest.remove(0);
        r.push(Declaration { place: Place { identifier: id } });
    }
    assert(r.deep_view() =~= ids.deep_view());
    r
}

/// Gives every scope its declarations and dependencies, as [`propagate`]
/// says.
pub fn propagate_dependencies(func: &HIRFunction, scopes: Vec<ReactiveScope>) -> (r: Vec<
    ReactiveScope,
>)
    ensures
        r.deep_view() == propagate(schedule_of(func.deep_view()), scopes.deep_view()),
{
    let sched = linearize_instructions(func);
    let ghost s = sched.deep_view();
    let ghost orig = scopes.deep_view();
    let mut scopes = scopes;
    let mut i: usize = 0;
    while i < scopes.len()
        invariant
            i <= scopes.len(),
            s == sched.deep_view(),
            scopes@.len() == orig.len(),
            forall|k: int|
                0 <= k < scopes@.len() ==> (#[trigger] scopes.deep_view()[k]) == if k < i {
                    propagated(s, orig[k])
                } else {
                    orig[k]
                },
        decreases scopes.len() - i,
    {
        let (decls, deps) = gather_sets(&sched, scopes[i].range.0, scopes[i].range.1);
        let ghost before = scopes.deep_view();
        let ghost prev = scopes;
        let dependencies = wrap_dependencies(deps);
        let declarations = wrap_declarations(decls);
        scopes[i].dependencies = dependencies;
        scopes[i].declarations = declarations;
        proof {
            assert forall|k: int| 0 <= k < scopes@.len() implies (#[trigger] scopes.deep_view()[k])
                == if k < i + 1 {
                propagated(s, orig[k])
            } else {
                orig[k]
            } by {
                if k != i {
                    assert(scopes@[k] == prev@[k]);
                    assert(scopes.deep_view()[k] == before[k]);
                } else {
                    assert(before[k] == orig[k]);
                    assert(scopes@[k].id == prev@[k].id);
                    assert(scopes@[k].range == prev@[k].range);
                }
            }
        }
        i += 1;
    }
    assert(scopes.deep_view() =~= propagate(s, orig));
    scopes
}

/// The map `acc` with the positions `idx..end` sent to scope `id`.
pub open spec fn range_scopes(idx: nat, end: nat, id: ScopeId, acc: Map<usize, ScopeId>) -> Map<
    usize,
    ScopeId,
>
    decreases end - idx,
{
    if idx >= end {
        acc
    } else {
        range_scopes(idx + 1, end, id, acc.insert(idx as usize, id))
    }
}

/// The map `acc` with, for the scopes from `i` on, every position of
/// their ranges sent to the scope's id; where two ranges hold a position,
/// the later scope has it.
pub open spec fn position_scopes(scopes: Seq<ScopeV>, i: nat, acc: Map<usize, ScopeId>) -> Map<
    usize,
    ScopeId,
>
    decreases scopes.len() - i,
{
    if i >= scopes.len() {
        acc
    } else {
        position_scopes(
            scopes,
            i + 1,
            range_scopes(
                scopes[i as int].start,
                scopes[i as int].end,
                ScopeId(scopes[i as int].id as usize),
                acc,
            ),
        )
    }
}

/// Whether the range of a scope holds a position.
pub open spec fn holds(s: ScopeV, p: nat) -> bool {
    s.start <= p < s.end
}

/// Sending a range to a scope sends every position of the range to it and
/// leaves every other position as it was.
pub proof fn lemma_range_scopes(idx: nat, end: nat, id: ScopeId, acc: Map<usize, ScopeId>, p: usize)
    requires
        end <= usize::MAX + 1,
    ensures
        idx <= p < end ==> range_scopes(idx, end, id, acc).contains_key(p) && range_scopes(
            idx,
            end,
            id,
            acc,
        )[p] == id,
        !(idx <= p < end) ==> (range_scopes(idx, end, id, acc).contains_key(p) == acc.contains_key(p)
            && (acc.contains_key(p) ==> range_scopes(idx, end, id, acc)[p] == acc[p])),
    decreases end - idx,
{
    if idx < end {
        lemma_range_scopes(idx + 1, end, id, acc.insert(idx as usize, id), p);
    }
}

/// The map from positions to scopes sends a position to a scope whose
/// range holds it, and holds no position that is in no range.
pub proof fn lemma_position_scopes(scopes: Seq<ScopeV>, i: nat, acc: Map<usize, ScopeId>, p: usize)
    requires
        forall|k: int| 0 <= k < scopes.len() ==> (#[trigger] scopes[k]).end <= usize::MAX + 1,
    ensures
        (exists|k: int| i <= k < scopes.len() && holds(#[trigger] scopes[k], p as nat))
            ==> position_scopes(scopes, i, acc).contains_key(p) && exists|k: int|
            i <= k < scopes.len() && holds(#[trigger] scopes[k], p as nat) && position_scopes(
                scopes,
                i,
                acc,
            )[p] == ScopeId(scopes[k].id as usize),
        (forall|k: int| i <= k < scopes.len() ==> !holds(#[trigger] scopes[k], p as nat)) ==> (
        position_scopes(scopes, i, acc).contains_key(p) == acc.contains_key(p) && (acc.contains_key(p)
            ==> position_scopes(scopes, i, acc)[p] == acc[p])),
    decreases scopes.len() - i,
{
    if i < scopes.len() {
        let here = scopes[i as int];
        let next = range_scopes(here.start, here.end, ScopeId(here.id as usize), acc);
        lemma_range_scopes(here.start, here.end, ScopeId(here.id as usize), acc, p);
        lemma_position_scopes(scopes, i + 1, next, p);
        let m = position_scopes(scopes, i, acc);
        if exists|k: int| i + 1 <= k < scopes.len() && holds(#[trigger] scopes[k], p as nat) {
            let k = choose|k: int|
                i + 1 <= k < scopes.len() && holds(#[trigger] scopes[k], p as nat) && m[p] == ScopeId(
                    scopes[k].id as usize,
                );
            assert(i <= k < scopes.len() && holds(scopes[k], p as nat));
        } else if holds(here, p as nat) {
            assert(m[p] == ScopeId(here.id as usize));
            assert(holds(scopes[i as int], p as nat));
        } else {
            assert forall|k: int| i <= k < scopes.len() implies !holds(#[trigger] scopes[k], p as nat) by {
                if k == i {
                } else {
                    assert(i + 1 <= k);
                }
            }
        }
    }
}

/// The scopes in ascending order of their starts.
pub open spec fn aligned_scopes(scopes: Seq<ScopeV>) -> Seq<ScopeV> {
    sort_scopes(scopes, 0, Seq::empty())
}

/// The scopes of a function: inferred from the live ranges, aligned,
/// merged, and given their declarations and dependencies.
pub open spec fn scopes_of(f: FuncV, ranges: Seq<RangeV>) -> Seq<ScopeV> {
    propagate(schedule_of(f), merged_scopes(aligned_scopes(inferred_scopes(ranges))))
}

/// The map from positions to scopes, as [`position_scopes`] says.
fn index_positions(scopes: &Vec<ReactiveScope>) -> (instruction_scopes: HashMap<usize, ScopeId>)
    ensures
        instruction_scopes@ == position_scopes(scopes.deep_view(), 0, Map::empty()),
{
    let ghost sv = scopes.deep_view();
    let mut instruction_scopes: HashMap<usize, ScopeId> = HashMap::new();
    let mut i: usize = 0;
    while i < scopes.len()
        invariant
            i <= scopes.len(),
            sv == scopes.deep_view(),
            position_scopes(sv, i as nat, instruction_scopes@) == position_scopes(
                sv,
                0,
                Map::empty(),
            ),
        decreases scopes.len() - i,
    {
        let id = scopes[i].id;
        let end: usize = scopes[i].range.1;
        let ghost before = instruction_scopes@;
        let mut idx: usize = scopes[i].range.0;
        assert(sv[i as int].id == id.0);
        assert(ScopeId(sv[i as int].id as usize) == id);
        while idx < end
            invariant
                range_scopes(idx as nat, end as nat, id, instruction_scopes@) == range_scopes(
                    scopes@[i as int].range.0 as nat,
                    end as nat,
                    id,
                    before,
                ),
                i < scopes@.len(),
            decreases end - idx,
        {
            instruction_scopes.insert(idx, id);
            idx += 1;
        }
        i += 1;
    }
    instruction_scopes
}

/// Constructs the reactive scopes of a function from its liveness, as
/// [`scopes_of`] says.  The scopes come in ascending order of their starts,
/// each holds at least one position and ends where the next one starts or
/// before, and no two carry the same id.
pub fn construct_reactive_scopes(func: &HIRFunction, liveness: &LivenessResult) -> (r:
    ReactiveScopeResult)
    ensures
        r.scopes.deep_view() == scopes_of(func.deep_view(), liveness.ranges.deep_view()),
        r.instruction_scopes@ == position_scopes(r.scopes.deep_view(), 0, Map::empty()),
        chained(r.scopes.deep_view()),
        well_ranged(r.scopes.deep_view()),
        distinct_ids(r.scopes.deep_view()),
{
    let inferred = infer_scopes(liveness);
    let aligned = align_scopes(inferred);
    let merged = merge_scopes(aligned);
    let scopes = propagate_dependencies(func, merged);
    let instruction_scopes = index_positions(&scopes);
    proof {
        lemma_scopes_of(func.deep_view(), liveness.ranges.deep_view());
    }
    ReactiveScopeResult { scopes, instruction_scopes }
}

/// What is in a list after an insertion: what was in it, and the inserted
/// identifier.
pub proof fn lemma_insert_ident(s: Seq<IdentV>, x: IdentV, i: nat, y: IdentV)
    requires
        i <= s.len(),
    ensures
        insert_ident(s, x, i).contains(y) <==> s.contains(y) || y == x,
    decreases s.len() - i,
{
    if i >= s.len() {
        let r = s.push(x);
        assert(r[s.len() as int] == x);
        assert forall|k: int| 0 <= k < s.len() implies r[k] == s[k] by {}
        if r.contains(y) {
            let k = choose|k: int| 0 <= k < r.len() && r[k] == y;
            if k < s.len() {
                assert(s[k] == y);
            }
        }
        if s.contains(y) {
            let k = choose|k: int| 0 <= k < s.len() && s[k] == y;
            assert(r[k] == y);
        }
    } else if s[i as int] == x {
    } else if ident_lt(x, s[i as int]) {
        let r = s.insert(i as int, x);
        assert(r[i as int] == x);
        if r.contains(y) {
            let k = choose|k: int| 0 <= k < r.len() && r[k] == y;
            if k < i {
                assert(s[k] == y);
            } else if k > i {
                assert(s[k - 1] == y);
            }
        }
        if s.contains(y) {
            let k = choose|k: int| 0 <= k < s.len() && s[k] == y;
            if k < i {
                assert(r[k] == y);
            } else {
                assert(r[k + 1] == y);
            }
        }
    } else {
        lemma_insert_ident(s, x, i + 1, y);
    }
}

/// What [`def_index`] finds is the first position from `i` on that defines
/// the identifier.
pub proof fn lemma_def_index(sched: Seq<InstrV>, id: IdentV, i: nat)
    ensures
        def_index(sched, id, i) matches Some(k) ==> i <= k < sched.len() && sched[k as int].lvalue
            == id,
    decreases sched.len() - i,
{
    if i < sched.len() && sched[i as int].lvalue != id {
        lemma_def_index(sched, id, i + 1);
    }
}

/// A dependency gathered from operands was there before or is defined
/// before the start of the range.
pub proof fn lemma_deps_from(
    sched: Seq<InstrV>,
    ops: Seq<IdentV>,
    j: nat,
    start: nat,
    acc: Seq<IdentV>,
    d: IdentV,
)
    requires
        deps_from(sched, ops, j, start, acc).contains(d),
    ensures
        acc.contains(d) || defined_before(sched, d, start),
    decreases ops.len() - j,
{
    if j < ops.len() {
        let next = if defined_before(sched, ops[j as int], start) {
            insert_ident(acc, ops[j as int], 0)
        } else {
            acc
        };
        lemma_deps_from(sched, ops, j + 1, start, next, d);
        if defined_before(sched, ops[j as int], start) {
            lemma_insert_ident(acc, ops[j as int], 0, d);
        }
    }
}

/// Whether `d` is the lvalue of a position of the range `[from, end)`.
pub open spec fn defined_within(sched: Seq<InstrV>, d: IdentV, from: nat, end: nat) -> bool {
    exists|k: int| from <= k < end && k < sched.len() && #[trigger] sched[k].lvalue == d
}

/// What the sets of a range hold: a declaration is defined within the
/// range, a dependency is defined before its start.
pub proof fn lemma_scope_sets(
    sched: Seq<InstrV>,
    idx: nat,
    start: nat,
    end: nat,
    decls: Seq<IdentV>,
    deps: Seq<IdentV>,
    d: IdentV,
)
    ensures
        scope_sets(sched, idx, start, end, decls, deps).0.contains(d) ==> decls.contains(d)
            || defined_within(sched, d, idx, end),
        scope_sets(sched, idx, start, end, decls, deps).1.contains(d) ==> deps.contains(d)
            || defined_before(sched, d, start),
    decreases end - idx,
{
    if !(idx >= end || idx >= sched.len()) {
        let decls1 = insert_ident(decls, sched[idx as int].lvalue, 0);
        let deps1 = deps_from(sched, operands(sched[idx as int].value), 0, start, deps);
        lemma_scope_sets(sched, idx + 1, start, end, decls1, deps1, d);
        let r = scope_sets(sched, idx, start, end, decls, deps);
        if r.0.contains(d) {
            if decls1.contains(d) {
                lemma_insert_ident(decls, sched[idx as int].lvalue, 0, d);
                if !decls.contains(d) {
                    assert(sched[idx as int].lvalue == d);
                }
            } else {
                let k = choose|k: int|
                    idx + 1 <= k < end && k < sched.len() && #[trigger] sched[k].lvalue == d;
                assert(sched[k].lvalue == d);
            }
        }
        if r.1.contains(d) {
            if deps1.contains(d) {
                lemma_deps_from(sched, operands(sched[idx as int].value), 0, start, deps, d);
            }
        }
    }
}

/// Every identifier has at most one defining position in the schedule.
pub open spec fn single_definitions(sched: Seq<InstrV>) -> bool {
    forall|i: int, j: int|
        #![trigger sched[i], sched[j]]
        0 <= i < j < sched.len() ==> sched[i].lvalue != sched[j].lvalue
}

/// An identifier that is defined at most once in the schedule is not both
/// a dependency and a declaration of a scope.
pub proof fn lemma_dependency_is_no_declaration(sched: Seq<InstrV>, scope: ScopeV, d: IdentV)
    requires
        defined_once(sched, d),
    ensures
        !(propagated(sched, scope).dependencies.contains(d) && propagated(
            sched,
            scope,
        ).declarations.contains(d)),
{
    let p = propagated(sched, scope);
    if p.dependencies.contains(d) && p.declarations.contains(d) {
        lemma_scope_sets(sched, scope.start, scope.start, scope.end, Seq::empty(), Seq::empty(), d);
        assert(!Seq::<IdentV>::empty().contains(d));
        lemma_def_index(sched, d, 0);
        let before = def_index(sched, d, 0)->0 as int;
        let within = choose|k: int|
            scope.start <= k < scope.end && k < sched.len() && #[trigger] sched[k].lvalue == d;
        assert(sched[before].lvalue == d && sched[within].lvalue == d);
        assert(before < within);
    }
}

/// Where every identifier is defined once, no identifier is both a
/// dependency and a declaration of a scope.
pub proof fn lemma_dependencies_apart(sched: Seq<InstrV>, scope: ScopeV, d: IdentV)
    requires
        single_definitions(sched),
    ensures
        !(propagated(sched, scope).dependencies.contains(d) && propagated(
            sched,
            scope,
        ).declarations.contains(d)),
{
    assert(defined_once(sched, d)) by {
        assert forall|i: int, j: int|
            #![trigger sched[i], sched[j]]
            0 <= i < j < sched.len() implies !(sched[i].lvalue == d && sched[j].lvalue == d) by {
            assert(sched[i].lvalue != sched[j].lvalue);
        }
    }
    lemma_dependency_is_no_declaration(sched, scope, d);
}

} // verus!
