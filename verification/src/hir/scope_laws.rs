//! What the constructed scopes guarantee: the candidates come in ascending
//! order, and the scopes of a function are sorted by start, not empty,
//! apart from each other, and carry ids of their own.

use crate::hir::inference::RangeV;
use crate::hir::reactive_scopes::{
    aligned_scopes, candidate_lt, candidate_of, candidates_from, chained, ident_lt,
    inferred_scopes, insert_candidate, insert_scope, is_candidate, lemma_dependencies_apart,
    lemma_merge_from, lemma_sort_scopes, merge_from, merge_step, merged_scopes, number_scopes,
    propagate, propagated, scopes_of, single_definitions, sort_scopes, starts_ascend, CandidateV,
};
use crate::hir::schedule::schedule_of;
use crate::hir::scope::ScopeV;
use crate::hir::{FuncV, IdentV};
use crate::text::{lemma_text_lt_asym, lemma_text_lt_trans};
use vstd::prelude::*;

verus! {

/// Of two identifiers at most one is less than the other.
pub proof fn lemma_ident_lt_asym(a: IdentV, b: IdentV)
    ensures
        !(ident_lt(a, b) && ident_lt(b, a)),
{
    lemma_text_lt_asym(a.name, b.name, 0);
    lemma_text_lt_asym(a.name, a.name, 0);
}

/// Less than less is less, for identifiers.
pub proof fn lemma_ident_lt_trans(a: IdentV, b: IdentV, c: IdentV)
    requires
        ident_lt(a, b),
        ident_lt(b, c),
    ensures
        ident_lt(a, c),
{
    if a.name != b.name && b.name != c.name {
        lemma_text_lt_trans(a.name, b.name, c.name, 0);
    }
}

/// Of two candidates at most one is less than the other.
pub proof fn lemma_candidate_lt_asym(a: CandidateV, b: CandidateV)
    ensures
        !(candidate_lt(a, b) && candidate_lt(b, a)),
{
    lemma_ident_lt_asym(a.ident, b.ident);
}

/// Less than less is less, for candidates.
pub proof fn lemma_candidate_lt_trans(a: CandidateV, b: CandidateV, c: CandidateV)
    requires
        candidate_lt(a, b),
        candidate_lt(b, c),
    ensures
        candidate_lt(a, c),
{
    if a.start == b.start && b.start == c.start {
        lemma_ident_lt_trans(a.ident, b.ident, c.ident);
    }
}

/// No candidate of the list is less than one before it.
pub open spec fn candidates_ascend(s: Seq<CandidateV>) -> bool {
    forall|i: int, j: int| #![trigger s[i], s[j]] 0 <= i < j < s.len() ==> !candidate_lt(s[j], s[i])
}

/// Inserting into an ascending list gives an ascending list that holds
/// the candidate inserted and, beside it, what the list held.
pub proof fn lemma_insert_candidate(sorted: Seq<CandidateV>, x: CandidateV, i: nat)
    requires
        candidates_ascend(sorted),
        i <= sorted.len(),
        forall|k: int| 0 <= k < i ==> !candidate_lt(x, #[trigger] sorted[k]),
    ensures
        candidates_ascend(insert_candidate(sorted, x, i)),
        insert_candidate(sorted, x, i).to_multiset() == sorted.to_multiset().insert(x),
    decreases sorted.len() - i,
{
    let r = insert_candidate(sorted, x, i);
    if i >= sorted.len() {
        vstd::seq_lib::to_multiset_build(sorted, x);
        assert forall|a: int, b: int| #![trigger r[a], r[b]] 0 <= a < b < r.len() implies !candidate_lt(
            r[b],
            r[a],
        ) by {
            if b < sorted.len() {
                assert(!candidate_lt(sorted[b], sorted[a]));
            }
        }
    } else if candidate_lt(x, sorted[i as int]) {
        vstd::seq_lib::to_multiset_insert(sorted, i as int, x);
        assert forall|a: int, b: int| #![trigger r[a], r[b]] 0 <= a < b < r.len() implies !candidate_lt(
            r[b],
            r[a],
        ) by {
            if b < i {
                assert(!candidate_lt(sorted[b], sorted[a]));
            } else if b == i {
                assert(r[b] == x && r[a] == sorted[a]);
            } else if a < i {
                assert(r[b] == sorted[b - 1] && r[a] == sorted[a]);
                assert(!candidate_lt(sorted[b - 1], sorted[a]));
            } else if a == i {
                assert(r[a] == x && r[b] == sorted[b - 1]);
                if candidate_lt(sorted[b - 1], x) {
                    lemma_candidate_lt_trans(sorted[b - 1], x, sorted[i as int]);
                    if b - 1 > i {
                        assert(!candidate_lt(sorted[b - 1], sorted[i as int]));
                    } else {
                        lemma_candidate_lt_asym(x, sorted[i as int]);
                    }
                }
            } else {
                assert(r[b] == sorted[b - 1] && r[a] == sorted[a - 1]);
                assert(!candidate_lt(sorted[b - 1], sorted[a - 1]));
            }
        }
    } else {
        lemma_insert_candidate(sorted, x, i + 1);
    }
}

/// The candidates of the ranges from `i` on, in the order of the ranges.
pub open spec fn candidates_listed(ranges: Seq<RangeV>, i: nat) -> Seq<CandidateV>
    decreases ranges.len() - i,
{
    if i >= ranges.len() {
        Seq::empty()
    } else if is_candidate(ranges[i as int]) {
        seq![candidate_of(ranges[i as int])] + candidates_listed(ranges, i + 1)
    } else {
        candidates_listed(ranges, i + 1)
    }
}

/// Every candidate covers at least two positions.
pub open spec fn all_wide(s: Seq<CandidateV>) -> bool {
    forall|k: int| 0 <= k < s.len() ==> (#[trigger] s[k]).end > s[k].start + 1
}

/// Inserting a candidate that covers at least two positions among such
/// candidates leaves such candidates.
pub proof fn lemma_wide_insert(sorted: Seq<CandidateV>, x: CandidateV, i: nat)
    requires
        all_wide(sorted),
        x.end > x.start + 1,
        i <= sorted.len(),
    ensures
        all_wide(insert_candidate(sorted, x, i)),
    decreases sorted.len() - i,
{
    let r = insert_candidate(sorted, x, i);
    if i >= sorted.len() {
        assert forall|k: int| 0 <= k < r.len() implies (#[trigger] r[k]).end > r[k].start + 1 by {
            if k < sorted.len() {
                assert(r[k] == sorted[k]);
            }
        }
    } else if candidate_lt(x, sorted[i as int]) {
        assert forall|k: int| 0 <= k < r.len() implies (#[trigger] r[k]).end > r[k].start + 1 by {
            if k < i {
                assert(r[k] == sorted[k]);
            } else if k > i {
                assert(r[k] == sorted[k - 1]);
            }
        }
    } else {
        lemma_wide_insert(sorted, x, i + 1);
    }
}

/// The candidates come in ascending order, each covers at least two
/// positions, and they are the candidates of the ranges, each as often as
/// the ranges hold it.
pub proof fn lemma_candidates_from(ranges: Seq<RangeV>, i: nat, acc: Seq<CandidateV>)
    requires
        candidates_ascend(acc),
        all_wide(acc),
    ensures
        candidates_ascend(candidates_from(ranges, i, acc)),
        all_wide(candidates_from(ranges, i, acc)),
        candidates_from(ranges, i, acc).to_multiset() == acc.to_multiset().add(
            candidates_listed(ranges, i).to_multiset(),
        ),
    decreases ranges.len() - i,
{
    broadcast use vstd::seq_lib::group_to_multiset_ensures;

    if i >= ranges.len() {
        assert(candidates_listed(ranges, i).to_multiset() =~= vstd::multiset::Multiset::empty());
        assert(acc.to_multiset().add(vstd::multiset::Multiset::empty()) =~= acc.to_multiset());
    } else {
        let r = ranges[i as int];
        if is_candidate(r) {
            let x = candidate_of(r);
            let next = insert_candidate(acc, x, 0);
            lemma_insert_candidate(acc, x, 0);
            lemma_wide_insert(acc, x, 0);
            lemma_candidates_from(ranges, i + 1, next);
            let tail = candidates_listed(ranges, i + 1);
            vstd::seq_lib::to_multiset_insert(tail, 0, x);
            assert(tail.insert(0, x) =~= seq![x] + tail);
            assert(acc.to_multiset().insert(x).add(tail.to_multiset()) =~= acc.to_multiset().add(
                tail.to_multiset().insert(x),
            ));
        } else {
            lemma_candidates_from(ranges, i + 1, acc);
        }
    }
}

/// Every scope holds at least one position.
pub open spec fn well_ranged(s: Seq<ScopeV>) -> bool {
    forall|k: int| 0 <= k < s.len() ==> (#[trigger] s[k]).start < s[k].end
}

/// No two scopes carry the same id.
pub open spec fn distinct_ids(s: Seq<ScopeV>) -> bool {
    forall|i: int, j: int| #![trigger s[i], s[j]] 0 <= i < j < s.len() ==> s[i].id != s[j].id
}

/// Whether a scope of the list carries the id.
pub open spec fn has_id(s: Seq<ScopeV>, id: nat) -> bool {
    exists|k: int| 0 <= k < s.len() && (#[trigger] s[k]).id == id
}

/// A scope with a range and an id of its own, put into a list of scopes
/// with ranges and ids of their own, leaves such a list, whose ids are
/// those of the list and that of the scope.
pub proof fn lemma_insert_scope_tidy(sorted: Seq<ScopeV>, x: ScopeV, i: nat, id: nat)
    requires
        well_ranged(sorted),
        distinct_ids(sorted),
        x.start < x.end,
        !has_id(sorted, x.id),
        i <= sorted.len(),
    ensures
        well_ranged(insert_scope(sorted, x, i)),
        distinct_ids(insert_scope(sorted, x, i)),
        has_id(insert_scope(sorted, x, i), id) <==> id == x.id || has_id(sorted, id),
    decreases sorted.len() - i,
{
    let r = insert_scope(sorted, x, i);
    if i < sorted.len() && !(x.start < sorted[i as int].start) {
        lemma_insert_scope_tidy(sorted, x, i + 1, id);
    } else {
        let p: int = if i >= sorted.len() {
            sorted.len() as int
        } else {
            i as int
        };
        assert(r =~= sorted.insert(p, x));
        assert forall|k: int| 0 <= k < r.len() implies (#[trigger] r[k]).start < r[k].end by {
            if k < p {
                assert(r[k] == sorted[k]);
            } else if k > p {
                assert(r[k] == sorted[k - 1]);
            }
        }
        assert forall|a: int, b: int| #![trigger r[a], r[b]] 0 <= a < b < r.len() implies r[a].id
            != r[b].id by {
            let ea = if a < p {
                a
            } else {
                a - 1
            };
            let eb = if b < p {
                b
            } else {
                b - 1
            };
            if a != p && b != p {
                assert(r[a] == sorted[ea] && r[b] == sorted[eb]);
                assert(sorted[ea].id != sorted[eb].id);
            } else if a == p {
                assert(r[b] == sorted[eb]);
                assert(sorted[eb].id != x.id);
            } else {
                assert(r[a] == sorted[ea]);
                assert(sorted[ea].id != x.id);
            }
        }
        if has_id(r, id) {
            let k = choose|k: int| 0 <= k < r.len() && (#[trigger] r[k]).id == id;
            if k < p {
                assert(sorted[k].id == id);
            } else if k > p {
                assert(sorted[k - 1].id == id);
            }
        }
        if has_id(sorted, id) {
            let k = choose|k: int| 0 <= k < sorted.len() && (#[trigger] sorted[k]).id == id;
            if k < p {
                assert(r[k].id == id);
            } else {
                assert(r[k + 1].id == id);
            }
        }
        assert(r[p].id == x.id);
    }
}

/// The scopes from `i` on have ranges, and ids that neither another of
/// them nor a scope of `acc` carries.
pub open spec fn fresh_from(v: Seq<ScopeV>, i: nat, acc: Seq<ScopeV>) -> bool {
    &&& forall|k: int| i <= k < v.len() ==> (#[trigger] v[k]).start < v[k].end
    &&& forall|a: int, b: int| #![trigger v[a], v[b]] i <= a < b < v.len() ==> v[a].id != v[b].id
    &&& forall|k: int| i <= k < v.len() ==> !has_id(acc, (#[trigger] v[k]).id)
}

/// Sorting keeps the ranges and the ids: the sorted scopes have ranges and
/// ids of their own, and every id is one that was there.
pub proof fn lemma_sort_tidy(v: Seq<ScopeV>, i: nat, acc: Seq<ScopeV>, id: nat)
    requires
        well_ranged(acc),
        distinct_ids(acc),
        fresh_from(v, i, acc),
    ensures
        well_ranged(sort_scopes(v, i, acc)),
        distinct_ids(sort_scopes(v, i, acc)),
        has_id(sort_scopes(v, i, acc), id) ==> has_id(acc, id) || exists|k: int|
            i <= k < v.len() && (#[trigger] v[k]).id == id,
    decreases v.len() - i,
{
    if i < v.len() {
        let x = v[i as int];
        let next = insert_scope(acc, x, 0);
        lemma_insert_scope_tidy(acc, x, 0, id);
        assert(fresh_from(v, i + 1, next)) by {
            assert forall|k: int| i + 1 <= k < v.len() implies !has_id(next, (#[trigger] v[k]).id) by {
                lemma_insert_scope_tidy(acc, x, 0, v[k].id);
                assert(v[i as int].id != v[k].id);
            }
        }
        lemma_sort_tidy(v, i + 1, next, id);
    }
}

/// Every id of `acc` is the id of a scope before position `i`.
pub open spec fn ids_from_before(sorted: Seq<ScopeV>, i: nat, acc: Seq<ScopeV>) -> bool {
    forall|a: int|
        0 <= a < acc.len() ==> exists|k: int|
            0 <= k < i && k < sorted.len() && (#[trigger] sorted[k]).id == (#[trigger] acc[a]).id
}

/// Merging keeps the ranges and the ids: the merged scopes have ranges and
/// ids of their own.
pub proof fn lemma_merge_tidy(sorted: Seq<ScopeV>, i: nat, acc: Seq<ScopeV>)
    requires
        well_ranged(sorted),
        distinct_ids(sorted),
        well_ranged(acc),
        distinct_ids(acc),
        ids_from_before(sorted, i, acc),
        i <= sorted.len(),
    ensures
        well_ranged(merge_from(sorted, i, acc)),
        distinct_ids(merge_from(sorted, i, acc)),
    decreases sorted.len() - i,
{
    if i < sorted.len() {
        let x = sorted[i as int];
        let next = merge_step(acc, x);
        if acc.len() > 0 && x.start < acc.last().end {
            assert forall|k: int| 0 <= k < next.len() implies (#[trigger] next[k]).start < next[k].end by {
                assert(acc[k].start < acc[k].end);
            }
            assert forall|a: int, b: int| #![trigger next[a], next[b]] 0 <= a < b < next.len() implies next[a].id
                != next[b].id by {
                assert(acc[a].id != acc[b].id);
            }
            assert forall|a: int| 0 <= a < next.len() implies exists|k: int|
                0 <= k < i + 1 && k < sorted.len() && (#[trigger] sorted[k]).id == (#[trigger] next[a]).id by {
                let k = choose|k: int| 0 <= k < i && k < sorted.len() && (#[trigger] sorted[k]).id == acc[a].id;
                assert(sorted[k].id == next[a].id);
            }
        } else {
            assert(next =~= acc.push(x));
            assert forall|k: int| 0 <= k < next.len() implies (#[trigger] next[k]).start < next[k].end by {
                if k < acc.len() {
                    assert(acc[k].start < acc[k].end);
                } else {
                    assert(sorted[i as int].start < sorted[i as int].end);
                }
            }
            assert forall|a: int, b: int| #![trigger next[a], next[b]] 0 <= a < b < next.len() implies next[a].id
                != next[b].id by {
                if b < acc.len() {
                    assert(acc[a].id != acc[b].id);
                } else {
                    let k = choose|k: int| 0 <= k < i && k < sorted.len() && (#[trigger] sorted[k]).id == acc[a].id;
                    assert(sorted[k].id != sorted[i as int].id);
                }
            }
            assert forall|a: int| 0 <= a < next.len() implies exists|k: int|
                0 <= k < i + 1 && k < sorted.len() && (#[trigger] sorted[k]).id == (#[trigger] next[a]).id by {
                if a < acc.len() {
                    let k = choose|k: int| 0 <= k < i && k < sorted.len() && (#[trigger] sorted[k]).id == acc[a].id;
                    assert(sorted[k].id == next[a].id);
                } else {
                    assert(sorted[i as int].id == next[a].id);
                }
            }
        }
        lemma_merge_tidy(sorted, i + 1, next);
    }
}

/// The scopes of a function come in ascending order of their starts, each
/// holds at least one position, each ends where the next one starts or
/// before, and no two carry the same id.
pub proof fn lemma_scopes_of(f: FuncV, ranges: Seq<RangeV>)
    ensures
        chained(scopes_of(f, ranges)),
        well_ranged(scopes_of(f, ranges)),
        distinct_ids(scopes_of(f, ranges)),
{
    let cands = candidates_from(ranges, 0, Seq::empty());
    lemma_candidates_from(ranges, 0, Seq::empty());
    let inferred = inferred_scopes(ranges);
    assert(inferred == number_scopes(cands));
    assert(well_ranged(inferred)) by {
        assert forall|k: int| 0 <= k < inferred.len() implies (#[trigger] inferred[k]).start
            < inferred[k].end by {
            assert(cands[k].end > cands[k].start + 1);
        }
    }
    assert(distinct_ids(inferred));
    let none = Seq::<ScopeV>::empty();
    assert(fresh_from(inferred, 0, none)) by {
        assert forall|k: int| 0 <= k < inferred.len() implies !has_id(none, (#[trigger] inferred[k]).id) by {}
    }
    let aligned = aligned_scopes(inferred);
    lemma_sort_tidy(inferred, 0, none, 0);
    lemma_sort_scopes(inferred, 0, none);
    let sorted = sort_scopes(aligned, 0, none);
    assert(fresh_from(aligned, 0, none)) by {
        assert forall|k: int| 0 <= k < aligned.len() implies !has_id(none, (#[trigger] aligned[k]).id) by {}
    }
    lemma_sort_tidy(aligned, 0, none, 0);
    lemma_sort_scopes(aligned, 0, none);
    lemma_merge_tidy(sorted, 0, none);
    lemma_merge_from(sorted, 0, none);
    let merged = merged_scopes(aligned);
    assert(merged == merge_from(sorted, 0, none));
    let result = propagate(schedule_of(f), merged);
    assert(result == scopes_of(f, ranges));
    assert forall|k: int| 0 <= k < result.len() implies (#[trigger] result[k]).start == merged[k].start
        && result[k].end == merged[k].end && result[k].id == merged[k].id by {}
    assert(starts_ascend(result)) by {
        assert forall|a: int, b: int| #![trigger result[a], result[b]] 0 <= a < b < result.len() implies result[a].start
            <= result[b].start by {
            assert(merged[a].start <= merged[b].start);
        }
    }
    assert forall|k: int| 0 <= k < result.len() - 1 implies (#[trigger] result[k]).end <= result[k
        + 1].start by {
        assert(merged[k].end <= merged[k + 1].start);
    }
    assert(well_ranged(result)) by {
        assert forall|k: int| 0 <= k < result.len() implies (#[trigger] result[k]).start < result[k].end by {
            assert(merged[k].start < merged[k].end);
        }
    }
    assert(distinct_ids(result)) by {
        assert forall|a: int, b: int| #![trigger result[a], result[b]] 0 <= a < b < result.len() implies result[a].id
            != result[b].id by {
            assert(merged[a].id != merged[b].id);
        }
    }
}

/// In a function whose schedule defines every identifier once, no
/// identifier is both a dependency and a declaration of a scope of the
/// function.
pub proof fn lemma_scopes_apart(f: FuncV, ranges: Seq<RangeV>, k: int, d: IdentV)
    requires
        single_definitions(schedule_of(f)),
        0 <= k < scopes_of(f, ranges).len(),
    ensures
        !(scopes_of(f, ranges)[k].dependencies.contains(d) && scopes_of(f, ranges)[k].declarations.contains(
            d,
        )),
{
    let merged = merged_scopes(aligned_scopes(inferred_scopes(ranges)));
    assert(scopes_of(f, ranges)[k] == propagated(schedule_of(f), merged[k]));
    lemma_dependencies_apart(schedule_of(f), merged[k], d);
}

} // verus!
