//! Liveness is monotone in the uses: a function whose instructions read
//! what those of another read, and more, has live ranges that start where
//! the other's start and end no earlier.

use crate::hir::inference::{
    alias_all, alias_instr, alias_roots, define_all, entry_index, extends, identity_roots,
    lemma_class_end_grows, lemma_class_start_same, lemma_entry_index, lemma_use_extends,
    live_ranges, mark_use, mark_uses, merge_ranges, set_range, use_all, RangeV,
};
use crate::hir::reactive_function::{lemma_unvisited_update, unvisited};
use crate::hir::reactive_scopes::operands;
use crate::hir::schedule::{
    all_marked, dfs, dfs_succs, flatten, lemma_dfs, no_repeats, rpo_of, schedule_of,
};
use crate::hir::{term_successors, BlockV, FuncV, IdentV, InstrV, ValueV};
use vstd::prelude::*;

verus! {

/// Whether an operation is a copy or a Φ, which merge alias classes.
pub open spec fn merges_classes(v: ValueV) -> bool {
    v is LoadLocal || v is Phi
}

/// Instruction `b` defines what instruction `a` defines and reads what `a`
/// reads and, possibly, more, in whatever order.  A copy or a Φ is not
/// changed.
pub open spec fn uses_more(a: InstrV, b: InstrV) -> bool {
    &&& b.lvalue == a.lvalue
    &&& forall|j: int|
        0 <= j < operands(a.value).len() ==> operands(b.value).contains(
            #[trigger] operands(a.value)[j],
        )
    &&& merges_classes(a.value) || merges_classes(b.value) ==> b.value == a.value
}

/// The instructions of `s2` are those of `s1` with more uses.
pub open spec fn schedule_uses_more(s1: Seq<InstrV>, s2: Seq<InstrV>) -> bool {
    &&& s1.len() == s2.len()
    &&& forall|k: int| 0 <= k < s1.len() ==> uses_more(#[trigger] s1[k], s2[k])
}

/// Function `f2` is function `f1` with more uses: the same entry, the same
/// terminals, and in every block the same instructions with more uses.
pub open spec fn function_uses_more(f1: FuncV, f2: FuncV) -> bool {
    &&& f2.entry == f1.entry
    &&& f2.blocks.len() == f1.blocks.len()
    &&& forall|b: int|
        0 <= b < f1.blocks.len() ==> (#[trigger] f2.blocks[b]).terminal == f1.blocks[b].terminal
            && schedule_uses_more(f1.blocks[b].instructions, f2.blocks[b].instructions)
}

/// Entries with the same identifiers are found at the same positions.
pub proof fn lemma_entry_index_same(w: Seq<RangeV>, e: Seq<RangeV>, id: IdentV, i: nat)
    requires
        extends(w, e),
    ensures
        entry_index(w, id, i) == entry_index(e, id, i),
    decreases e.len() - i,
{
    if i < e.len() {
        assert(w[i as int].ident == e[i as int].ident);
        lemma_entry_index_same(w, e, id, i + 1);
    }
}

/// Wider ranges stay wider when the same use is marked in both.
pub proof fn lemma_mark_use_mono(w: Seq<RangeV>, e: Seq<RangeV>, id: IdentV, idx: nat)
    requires
        extends(w, e),
    ensures
        extends(mark_use(w, id, idx), mark_use(e, id, idx)),
{
    lemma_entry_index_same(w, e, id, 0);
    lemma_entry_index(e, id, 0);
    let w2 = mark_use(w, id, idx);
    let e2 = mark_use(e, id, idx);
    assert forall|k: int| 0 <= k < e2.len() implies {
        &&& (#[trigger] w2[k]).ident == e2[k].ident
        &&& w2[k].start == e2[k].start
        &&& w2[k].end >= e2[k].end
    } by {
        assert(w[k].ident == e[k].ident);
    }
}

/// Marking a use makes ranges wider.
pub proof fn lemma_mark_use_wider(e: Seq<RangeV>, id: IdentV, idx: nat)
    ensures
        extends(mark_use(e, id, idx), e),
{
    let w = mark_use(e, id, idx);
    lemma_entry_index(e, id, 0);
    assert forall|k: int| 0 <= k < e.len() implies {
        &&& (#[trigger] w[k]).ident == e[k].ident
        &&& w[k].start == e[k].start
        &&& w[k].end >= e[k].end
    } by {
        lemma_use_extends(e, id, idx, k);
    }
}

/// Wider than wider is wider.
pub proof fn lemma_extends_trans(a: Seq<RangeV>, b: Seq<RangeV>, c: Seq<RangeV>)
    requires
        extends(a, b),
        extends(b, c),
    ensures
        extends(a, c),
{
    assert forall|k: int| 0 <= k < c.len() implies {
        &&& (#[trigger] a[k]).ident == c[k].ident
        &&& a[k].start == c[k].start
        &&& a[k].end >= c[k].end
    } by {
        assert(b[k].ident == c[k].ident);
    }
}

/// Whether one of the identifiers from `j` on is recorded at entry `k`.
pub open spec fn marks_entry(e: Seq<RangeV>, ids: Seq<IdentV>, j: nat, k: int) -> bool {
    exists|t: int| j <= t < ids.len() && entry_index(e, #[trigger] ids[t], 0) == Some(k as nat)
}

/// What marking uses does to an entry: the range ends after the use where
/// one of the identifiers is recorded there, and is left alone otherwise.
pub proof fn lemma_mark_uses_ends(e: Seq<RangeV>, ids: Seq<IdentV>, j: nat, idx: nat, k: int)
    requires
        0 <= k < e.len(),
    ensures
        extends(mark_uses(e, ids, j, idx), e),
        mark_uses(e, ids, j, idx)[k].end == if marks_entry(e, ids, j, k) && e[k].end <= idx + 1 {
            idx + 1
        } else {
            e[k].end
        },
    decreases ids.len() - j,
{
    if j < ids.len() {
        let e1 = mark_use(e, ids[j as int], idx);
        lemma_mark_use_wider(e, ids[j as int], idx);
        lemma_entry_index(e, ids[j as int], 0);
        lemma_mark_uses_ends(e1, ids, j + 1, idx, k);
        lemma_extends_trans(mark_uses(e, ids, j, idx), e1, e);
        assert(marks_entry(e1, ids, j + 1, k) <==> marks_entry(e, ids, j + 1, k)) by {
            if marks_entry(e1, ids, j + 1, k) {
                let t = choose|t: int|
                    j + 1 <= t < ids.len() && entry_index(e1, #[trigger] ids[t], 0) == Some(k as nat);
                lemma_entry_index_same(e1, e, ids[t], 0);
            }
            if marks_entry(e, ids, j + 1, k) {
                let t = choose|t: int|
                    j + 1 <= t < ids.len() && entry_index(e, #[trigger] ids[t], 0) == Some(k as nat);
                lemma_entry_index_same(e1, e, ids[t], 0);
            }
        }
        assert(marks_entry(e, ids, j, k) <==> entry_index(e, ids[j as int], 0) == Some(k as nat)
            || marks_entry(e, ids, j + 1, k)) by {
            if marks_entry(e, ids, j, k) {
                let t = choose|t: int|
                    j <= t < ids.len() && entry_index(e, #[trigger] ids[t], 0) == Some(k as nat);
                if t != j {
                    assert(j + 1 <= t);
                }
            }
            if marks_entry(e, ids, j + 1, k) {
                let t = choose|t: int|
                    j + 1 <= t < ids.len() && entry_index(e, #[trigger] ids[t], 0) == Some(k as nat);
                assert(j <= t);
            }
            if entry_index(e, ids[j as int], 0) == Some(k as nat) {
                assert(entry_index(e, ids[j as int], 0) == Some(k as nat));
            }
        }
    } else {
        assert(extends(e, e));
    }
}

/// Wider ranges stay wider when more uses are marked in them, in whatever
/// order.
pub proof fn lemma_mark_uses_mono(
    w: Seq<RangeV>,
    e: Seq<RangeV>,
    more: Seq<IdentV>,
    ids: Seq<IdentV>,
    idx: nat,
)
    requires
        extends(w, e),
        forall|t: int| 0 <= t < ids.len() ==> more.contains(#[trigger] ids[t]),
    ensures
        extends(mark_uses(w, more, 0, idx), mark_uses(e, ids, 0, idx)),
{
    let rw = mark_uses(w, more, 0, idx);
    let re = mark_uses(e, ids, 0, idx);
    lemma_marks_len(w, more, 0, idx);
    lemma_marks_len(e, ids, 0, idx);
    assert forall|k: int| 0 <= k < re.len() implies {
        &&& (#[trigger] rw[k]).ident == re[k].ident
        &&& rw[k].start == re[k].start
        &&& rw[k].end >= re[k].end
    } by {
        lemma_mark_uses_ends(e, ids, 0, idx, k);
        lemma_mark_uses_ends(w, more, 0, idx, k);
        assert(w[k].ident == e[k].ident);
        if marks_entry(e, ids, 0, k) {
            let t = choose|t: int|
                0 <= t < ids.len() && entry_index(e, #[trigger] ids[t], 0) == Some(k as nat);
            assert(more.contains(ids[t]));
            let u = choose|u: int| 0 <= u < more.len() && more[u] == ids[t];
            lemma_entry_index_same(w, e, more[u], 0);
            assert(entry_index(w, more[u], 0) == Some(k as nat));
            assert(marks_entry(w, more, 0, k));
        }
    }
}

/// Marking uses keeps the number of ranges.
pub proof fn lemma_marks_len(e: Seq<RangeV>, ids: Seq<IdentV>, j: nat, idx: nat)
    ensures
        mark_uses(e, ids, j, idx).len() == e.len(),
    decreases ids.len() - j,
{
    if j < ids.len() {
        lemma_mark_use_wider(e, ids[j as int], idx);
        lemma_marks_len(mark_use(e, ids[j as int], idx), ids, j + 1, idx);
    }
}

/// Wider ranges stay wider when the uses of a schedule with more uses are
/// marked in them.
pub proof fn lemma_use_all_mono(s1: Seq<InstrV>, s2: Seq<InstrV>, i: nat, w: Seq<RangeV>, e: Seq<RangeV>)
    requires
        schedule_uses_more(s1, s2),
        extends(w, e),
    ensures
        extends(use_all(s2, i, w), use_all(s1, i, e)),
    decreases s1.len() - i,
{
    if i < s1.len() {
        assert(uses_more(s1[i as int], s2[i as int]));
        let more = operands(s2[i as int].value);
        let ids = operands(s1[i as int].value);
        lemma_mark_uses_mono(w, e, more, ids, i);
        lemma_use_all_mono(s1, s2, i + 1, mark_uses(w, more, 0, i), mark_uses(e, ids, 0, i));
    }
}

/// Schedules that define the same identifiers at the same positions start
/// the same ranges.
pub proof fn lemma_define_all_same(s1: Seq<InstrV>, s2: Seq<InstrV>, i: nat, entries: Seq<RangeV>)
    requires
        schedule_uses_more(s1, s2),
    ensures
        define_all(s2, i, entries) == define_all(s1, i, entries),
    decreases s1.len() - i,
{
    if i < s1.len() {
        assert(uses_more(s1[i as int], s2[i as int]));
        lemma_define_all_same(
            s1,
            s2,
            i + 1,
            set_range(entries, s1[i as int].lvalue, i, i + 1),
        );
    }
}

/// Schedules with the same copies and Φs have the same alias classes.
pub proof fn lemma_alias_all_same(
    s1: Seq<InstrV>,
    s2: Seq<InstrV>,
    i: nat,
    r: spec_fn(IdentV) -> IdentV,
)
    requires
        schedule_uses_more(s1, s2),
    ensures
        alias_all(s2, i, r) == alias_all(s1, i, r),
    decreases s1.len() - i,
{
    if i < s1.len() {
        assert(uses_more(s1[i as int], s2[i as int]));
        assert(alias_instr(r, s2[i as int]) == alias_instr(r, s1[i as int]));
        lemma_alias_all_same(s1, s2, i + 1, alias_instr(r, s1[i as int]));
    }
}

/// Wider ranges are wider after the classes are merged.
pub proof fn lemma_merge_mono(w: Seq<RangeV>, e: Seq<RangeV>, roots: spec_fn(IdentV) -> IdentV)
    requires
        extends(w, e),
    ensures
        extends(merge_ranges(w, roots), merge_ranges(e, roots)),
{
    let mw = merge_ranges(w, roots);
    let me = merge_ranges(e, roots);
    assert forall|k: int| 0 <= k < me.len() implies {
        &&& (#[trigger] mw[k]).ident == me[k].ident
        &&& mw[k].start == me[k].start
        &&& mw[k].end >= me[k].end
    } by {
        assert(w[k].ident == e[k].ident);
        let r = roots(e[k].ident);
        lemma_class_start_same(w, e, roots, r, 0, e[k].start);
        lemma_class_end_grows(w, e, roots, r, 0, w[k].end, e[k].end);
    }
}

/// The walk from a block is the same in lists of blocks with the same
/// terminals.
pub proof fn lemma_dfs_same(b1: Seq<BlockV>, b2: Seq<BlockV>, b: nat, visited: Seq<bool>, po: Seq<nat>)
    requires
        b1.len() == b2.len(),
        forall|x: int| 0 <= x < b1.len() ==> (#[trigger] b2[x]).terminal == b1[x].terminal,
        no_repeats(po),
        all_marked(po, visited),
    ensures
        dfs(b2, b, visited, po) == dfs(b1, b, visited, po),
    decreases unvisited(visited), 0nat,
{
    if !(b >= b1.len() || b >= visited.len() || visited[b as int]) {
        let inner = visited.update(b as int, true);
        lemma_unvisited_update(visited, b as int);
        assert(b2[b as int].terminal == b1[b as int].terminal);
        assert(all_marked(po, inner));
        lemma_dfs_succs_same(b1, b2, term_successors(b1[b as int].terminal), 0, inner, po);
    }
}

/// The walk through successors is the same in lists of blocks with the
/// same terminals.
pub proof fn lemma_dfs_succs_same(
    b1: Seq<BlockV>,
    b2: Seq<BlockV>,
    succs: Seq<nat>,
    i: nat,
    visited: Seq<bool>,
    po: Seq<nat>,
)
    requires
        b1.len() == b2.len(),
        forall|x: int| 0 <= x < b1.len() ==> (#[trigger] b2[x]).terminal == b1[x].terminal,
        no_repeats(po),
        all_marked(po, visited),
    ensures
        dfs_succs(b2, succs, i, visited, po) == dfs_succs(b1, succs, i, visited, po),
    decreases unvisited(visited), 1 + succs.len() - i,
{
    if i < succs.len() {
        lemma_dfs_same(b1, b2, succs[i as int], visited, po);
        lemma_dfs(b1, succs[i as int], visited, po);
        let (v, p) = dfs(b1, succs[i as int], visited, po);
        if unvisited(v) <= unvisited(visited) {
            lemma_dfs_succs_same(b1, b2, succs, i + 1, v, p);
        }
    }
}

/// Laying out blocks with more uses gives a schedule with more uses.
pub proof fn lemma_flatten_more(
    b1: Seq<BlockV>,
    b2: Seq<BlockV>,
    order: Seq<nat>,
    i: nat,
    acc1: Seq<InstrV>,
    acc2: Seq<InstrV>,
)
    requires
        b1.len() == b2.len(),
        forall|x: int|
            0 <= x < b1.len() ==> schedule_uses_more(
                (#[trigger] b1[x]).instructions,
                b2[x].instructions,
            ),
        schedule_uses_more(acc1, acc2),
    ensures
        schedule_uses_more(flatten(b1, order, i, acc1), flatten(b2, order, i, acc2)),
    decreases order.len() - i,
{
    if i < order.len() {
        let x = order[i as int];
        if x < b1.len() {
            let n1 = acc1 + b1[x as int].instructions;
            let n2 = acc2 + b2[x as int].instructions;
            assert(schedule_uses_more(b1[x as int].instructions, b2[x as int].instructions));
            assert forall|k: int| 0 <= k < n1.len() implies uses_more(#[trigger] n1[k], n2[k]) by {
                if k < acc1.len() {
                    assert(uses_more(acc1[k], acc2[k]));
                } else {
                    assert(uses_more(
                        b1[x as int].instructions[k - acc1.len()],
                        b2[x as int].instructions[k - acc1.len()],
                    ));
                }
            }
            lemma_flatten_more(b1, b2, order, i + 1, n1, n2);
        } else {
            lemma_flatten_more(b1, b2, order, i + 1, acc1, acc2);
        }
    }
}

/// A function with more uses has the schedule of the other with more
/// uses.
pub proof fn lemma_schedule_more(f1: FuncV, f2: FuncV)
    requires
        function_uses_more(f1, f2),
    ensures
        rpo_of(f2) == rpo_of(f1),
        schedule_uses_more(schedule_of(f1), schedule_of(f2)),
{
    let marks = Seq::new(f1.blocks.len(), |i: int| false);
    assert(marks == Seq::new(f2.blocks.len(), |i: int| false));
    lemma_dfs_same(f1.blocks, f2.blocks, f1.entry, marks, Seq::empty());
    lemma_flatten_more(f1.blocks, f2.blocks, rpo_of(f1), 0, Seq::empty(), Seq::empty());
}

/// Adding uses can only extend live ranges: where `f2` is `f1` with more
/// uses, wherever among the operands they are added, the two have ranges
/// for the same identifiers in the same order, and every range of `f2`
/// starts where that of `f1` starts and ends no earlier.
pub proof fn lemma_more_uses_extend(f1: FuncV, f2: FuncV)
    requires
        function_uses_more(f1, f2),
    ensures
        extends(live_ranges(f2), live_ranges(f1)),
{
    lemma_schedule_more(f1, f2);
    let s1 = schedule_of(f1);
    let s2 = schedule_of(f2);
    lemma_define_all_same(s1, s2, 0, Seq::empty());
    let start = define_all(s1, 0, Seq::empty());
    assert(extends(start, start));
    lemma_use_all_mono(s1, s2, 0, start, start);
    lemma_alias_all_same(s1, s2, 0, identity_roots());
    lemma_merge_mono(use_all(s2, 0, start), use_all(s1, 0, start), alias_roots(f1));
}

} // verus!
