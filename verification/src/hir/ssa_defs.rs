//! Single definition after SSA construction: in the schedule of the SSA
//! form of a function, no two instructions define the same identifier.

use crate::hir::dominance::{known_below, lemma_iterate_known, lemma_rebuilt_preds_listed, preds_listed};
use crate::hir::dominators::{
    dominators_of, frontiers_of, idoms_of, initial, lemma_dominator_comes_first,
    lemma_dominators_rooted, lemma_entry_dominates_itself,
};
use crate::hir::liveness_laws::lemma_dfs_same;
use crate::hir::reactive_function::{lemma_unvisited_update, unvisited};
use crate::hir::reactive_scopes::single_definitions;
use crate::hir::schedule::{
    lemma_origin, lemma_origin_apart, lemma_rpo, lemma_rpo_short, origin, post_order_of, rpo_of,
    schedule_of,
};
use crate::hir::ssa::{
    add_operands, add_operands_block, current_version, globals_of, initial_rename, insert_phis,
    instr_total, lemma_add_operands, lemma_insert_phis, lemma_name_index, lemma_pop_all,
    lemma_remaining_update, lemma_rename_instr, lemma_with_preds, lengths, max_id, name_index,
    phi_instr, place_all, pop_all, remaining, rename, rename_children, rename_instr,
    rename_instrs, ssa_fits, ssa_of, versions_ok, versions_unassigned, with_instr, with_preds,
    RenameV,
};
use crate::hir::ssa_laws::{lemma_ssa_frame, same_frame};
use crate::hir::{
    at, distinct_versions, lvalue_at, single_versions, term_successors, BlockV, FuncV, IdentV,
    InstrV, ValueV,
};
use vstd::prelude::*;

verus! {

/// A Φ of a promotable variable that has no version yet.
pub open spec fn pending(names: Seq<Seq<char>>, instr: InstrV) -> bool {
    instr.value is Phi && instr.lvalue.id == 0 && name_index(names, instr.lvalue.name, 0) is Some
}

/// Of two instructions that define identifiers of version 0, one is a Φ
/// that has no version yet.
pub open spec fn zero_ok(names: Seq<Seq<char>>, blocks: Seq<BlockV>) -> bool {
    forall|b1: int, i1: int, b2: int, i2: int|
        #![trigger lvalue_at(blocks, b1, i1), lvalue_at(blocks, b2, i2)]
        at(blocks, b1, i1) && at(blocks, b2, i2) && (b1 != b2 || i1 != i2) && lvalue_at(
            blocks,
            b1,
            i1,
        ).id == 0 && lvalue_at(blocks, b2, i2).id == 0 ==> pending(
            names,
            blocks[b1].instructions[i1],
        ) || pending(names, blocks[b2].instructions[i2])
}

/// No Φ of a marked block is without version.
pub open spec fn phis_ok(names: Seq<Seq<char>>, blocks: Seq<BlockV>, visited: Seq<bool>) -> bool {
    forall|b: int, i: int|
        #![trigger blocks[b].instructions[i]]
        at(blocks, b, i) && b < visited.len() && visited[b] ==> !pending(
            names,
            blocks[b].instructions[i],
        )
}

/// What renaming may do to an instruction: it stays a Φ or no Φ, and
/// defines what it defined or an identifier with a version.
pub open spec fn kept(p: InstrV, q: InstrV) -> bool {
    (q.value is Phi) == (p.value is Phi) && (q.lvalue == p.lvalue || q.lvalue.id >= 1)
}

/// Instruction `j` of block `x` is kept from `a` to `b`.
pub open spec fn kept_at(a: Seq<BlockV>, b: Seq<BlockV>, x: int, j: int) -> bool {
    kept(a[x].instructions[j], b[x].instructions[j])
}

/// The blocks `b` are the blocks `a` after renaming steps: as many blocks
/// with as many instructions, each kept as [`kept`] says.
pub open spec fn evolved(a: Seq<BlockV>, b: Seq<BlockV>) -> bool {
    &&& a.len() == b.len()
    &&& forall|x: int| 0 <= x < a.len() ==> (#[trigger] b[x]).instructions.len() == a[x].instructions.len()
    &&& forall|x: int, j: int| at(a, x, j) ==> #[trigger] kept_at(a, b, x, j)
}

/// Steps after steps are steps.
pub proof fn lemma_evolved_trans(a: Seq<BlockV>, b: Seq<BlockV>, c: Seq<BlockV>)
    requires
        evolved(a, b),
        evolved(b, c),
    ensures
        evolved(a, c),
{
    assert forall|x: int| 0 <= x < a.len() implies (#[trigger] c[x]).instructions.len()
        == a[x].instructions.len() by {
        assert(b[x].instructions.len() == a[x].instructions.len());
    }
    assert forall|x: int, j: int| at(a, x, j) implies #[trigger] kept_at(a, c, x, j) by {
        assert(b[x].instructions.len() == a[x].instructions.len());
        assert(at(b, x, j));
        assert(kept_at(a, b, x, j));
        assert(kept_at(b, c, x, j));
    }
}

/// Steps keep the number of instructions of every block.
pub proof fn lemma_evolved_lengths(a: Seq<BlockV>, b: Seq<BlockV>)
    requires
        evolved(a, b),
    ensures
        lengths(a) == lengths(b),
{
    assert(lengths(a) =~= lengths(b));
}

/// A Φ that is without version after steps was without version before.
pub proof fn lemma_pending_before(names: Seq<Seq<char>>, old_blocks: Seq<BlockV>, new_blocks: Seq<BlockV>, x: int, j: int)
    requires
        evolved(old_blocks, new_blocks),
        at(old_blocks, x, j),
        pending(names, new_blocks[x].instructions[j]),
    ensures
        pending(names, old_blocks[x].instructions[j]),
        new_blocks[x].instructions[j].lvalue == old_blocks[x].instructions[j].lvalue,
{
    assert(kept_at(old_blocks, new_blocks, x, j));
}

/// Steps make no Φ lose its version and no second instruction define an
/// identifier of version 0.
pub proof fn lemma_evolved_keeps(names: Seq<Seq<char>>, old_blocks: Seq<BlockV>, new_blocks: Seq<BlockV>, visited: Seq<bool>)
    requires
        evolved(old_blocks, new_blocks),
    ensures
        zero_ok(names, old_blocks) ==> zero_ok(names, new_blocks),
        phis_ok(names, old_blocks, visited) ==> phis_ok(names, new_blocks, visited),
{
    if zero_ok(names, old_blocks) {
        assert forall|b1: int, i1: int, b2: int, i2: int|
            #![trigger lvalue_at(new_blocks, b1, i1), lvalue_at(new_blocks, b2, i2)]
            at(new_blocks, b1, i1) && at(new_blocks, b2, i2) && (b1 != b2 || i1 != i2) && lvalue_at(new_blocks, b1, i1).id == 0
                && lvalue_at(new_blocks, b2, i2).id == 0 implies pending(names, new_blocks[b1].instructions[i1])
            || pending(names, new_blocks[b2].instructions[i2]) by {
            assert(new_blocks[b1].instructions.len() == old_blocks[b1].instructions.len());
            assert(new_blocks[b2].instructions.len() == old_blocks[b2].instructions.len());
            assert(kept_at(old_blocks, new_blocks, b1, i1));
            assert(kept_at(old_blocks, new_blocks, b2, i2));
            assert(lvalue_at(old_blocks, b1, i1).id == 0 && lvalue_at(old_blocks, b2, i2).id == 0);
            assert(pending(names, old_blocks[b1].instructions[i1]) || pending(names, old_blocks[b2].instructions[i2]));
        }
    }
    if phis_ok(names, old_blocks, visited) {
        assert forall|x: int, j: int|
            #![trigger new_blocks[x].instructions[j]]
            at(new_blocks, x, j) && x < visited.len() && visited[x] implies !pending(
            names,
            new_blocks[x].instructions[j],
        ) by {
            assert(new_blocks[x].instructions.len() == old_blocks[x].instructions.len());
            if pending(names, new_blocks[x].instructions[j]) {
                lemma_pending_before(names, old_blocks, new_blocks, x, j);
                assert(lvalue_at(old_blocks, x, j) == old_blocks[x].instructions[j].lvalue);
                assert(!pending(names, old_blocks[x].instructions[j]));
            }
        }
            }
}

/// Replacing an instruction by one that keeps it is a step.
pub proof fn lemma_evolved_with_instr(blocks: Seq<BlockV>, b: nat, i: nat, instr: InstrV)
    requires
        at(blocks, b as int, i as int),
        kept(blocks[b as int].instructions[i as int], instr),
    ensures
        evolved(blocks, with_instr(blocks, b, i, instr)),
        with_instr(blocks, b, i, instr)[b as int].instructions[i as int] == instr,
{
}

/// Renaming an instruction is a step that leaves the instruction with a
/// version, where it is a Φ of a promotable variable, and raises no
/// counter by more than one.
pub proof fn lemma_step_instr(names: Seq<Seq<char>>, st: RenameV, b: nat, i: nat)
    requires
        versions_ok(names, st.blocks, st.counters),
        at(st.blocks, b as int, i as int),
        forall|k: int| 0 <= k < st.counters.len() ==> #[trigger] st.counters[k] < usize::MAX,
    ensures
        versions_ok(
            names,
            rename_instr(names, st, b, i).0.blocks,
            rename_instr(names, st, b, i).0.counters,
        ),
        evolved(st.blocks, rename_instr(names, st, b, i).0.blocks),
        rename_instr(names, st, b, i).0.counters.len() == st.counters.len(),
        forall|k: int|
            0 <= k < st.counters.len() ==> st.counters[k] <= (#[trigger] rename_instr(
                names,
                st,
                b,
                i,
            ).0.counters[k]) <= st.counters[k] + 1,
        !pending(names, rename_instr(names, st, b, i).0.blocks[b as int].instructions[i as int]),
{
    lemma_rename_instr(names, st, b, i);
    let instr = st.blocks[b as int].instructions[i as int];
    match instr.value {
        ValueV::Phi { .. } => {
            lemma_name_index(names, instr.lvalue.name, 0);
            match name_index(names, instr.lvalue.name, 0) {
                Some(k) => {
                    assert(st.counters[k as int] >= 1);
                    let changed = InstrV {
                        lvalue: IdentV { name: instr.lvalue.name, id: st.counters[k as int] as nat },
                        ..instr
                    };
                    lemma_evolved_with_instr(st.blocks, b, i, changed);
                },
                None => {
                    assert(evolved(st.blocks, st.blocks));
                },
            }
        },
        ValueV::LoadLocal(p) => {
            let changed = InstrV {
                value: ValueV::LoadLocal(
                    IdentV { name: p.name, id: current_version(names, st.stacks, p.name) },
                ),
                ..instr
            };
            lemma_evolved_with_instr(st.blocks, b, i, changed);
        },
        ValueV::StoreLocal(target, val) => {
            lemma_name_index(names, target.name, 0);
            match name_index(names, target.name, 0) {
                Some(k) => {
                    assert(st.counters[k as int] >= 1);
                    let changed = InstrV {
                        lvalue: IdentV { name: target.name, id: st.counters[k as int] as nat },
                        value: ValueV::LoadLocal(val),
                        ..instr
                    };
                    lemma_evolved_with_instr(st.blocks, b, i, changed);
                },
                None => {
                    assert(evolved(st.blocks, st.blocks));
                },
            }
        },
        _ => {
            assert(evolved(st.blocks, st.blocks));
        },
    }
}

/// Renaming the instructions of a block from `i` on is a step that leaves
/// no Φ of a promotable variable among them without version, and raises no
/// counter by more than their number.
pub proof fn lemma_step_instrs(
    names: Seq<Seq<char>>,
    st: RenameV,
    b: nat,
    i: nat,
    len: nat,
    pushed: Seq<usize>,
)
    requires
        versions_ok(names, st.blocks, st.counters),
        b < st.blocks.len(),
        len == st.blocks[b as int].instructions.len(),
        i <= len,
        forall|k: int| 0 <= k < st.counters.len() ==> (#[trigger] st.counters[k]) + (len - i) <= usize::MAX,
    ensures
        versions_ok(
            names,
            rename_instrs(names, st, b, i, len, pushed).0.blocks,
            rename_instrs(names, st, b, i, len, pushed).0.counters,
        ),
        evolved(st.blocks, rename_instrs(names, st, b, i, len, pushed).0.blocks),
        rename_instrs(names, st, b, i, len, pushed).0.counters.len() == st.counters.len(),
        forall|k: int|
            0 <= k < st.counters.len() ==> st.counters[k] <= (#[trigger] rename_instrs(
                names,
                st,
                b,
                i,
                len,
                pushed,
            ).0.counters[k]) <= st.counters[k] + (len - i),
        forall|j: int|
            i <= j < len ==> !pending(
                names,
                #[trigger] rename_instrs(names, st, b, i, len, pushed).0.blocks[b as int].instructions[j],
            ),
    decreases len - i,
{
    let last = rename_instrs(names, st, b, i, len, pushed).0;
    if i < len {
        lemma_step_instr(names, st, b, i);
        let (s1, p) = rename_instr(names, st, b, i);
        let next = match p {
            Some(k) => pushed.push(k as usize),
            None => pushed,
        };
        assert(s1.blocks[b as int].instructions.len() == st.blocks[b as int].instructions.len());
        assert forall|k: int| 0 <= k < s1.counters.len() implies (#[trigger] s1.counters[k]) + (len - (i
            + 1)) <= usize::MAX by {
            assert(st.counters[k] + (len - i) <= usize::MAX);
        }
        lemma_step_instrs(names, s1, b, i + 1, len, next);
        lemma_evolved_trans(st.blocks, s1.blocks, last.blocks);
        assert forall|k: int| 0 <= k < st.counters.len() implies st.counters[k] <= (
        #[trigger] last.counters[k]) <= st.counters[k] + (len - i) by {
            assert(st.counters[k] <= s1.counters[k] <= st.counters[k] + 1);
        }
        assert forall|j: int| i <= j < len implies !pending(
            names,
            #[trigger] last.blocks[b as int].instructions[j],
        ) by {
            if j == i && pending(names, last.blocks[b as int].instructions[j]) {
                lemma_pending_before(names, s1.blocks, last.blocks, b as int, i as int);
            }
        }
    } else {
        lemma_evolved_refl(st.blocks);
    }
}

/// Nothing done is a step.
pub proof fn lemma_evolved_refl(blocks: Seq<BlockV>)
    ensures
        evolved(blocks, blocks),
{
    assert forall|x: int, j: int| at(blocks, x, j) implies #[trigger] kept_at(blocks, blocks, x, j) by {}
}

/// Giving the Φs of a block their operands is a step.
pub proof fn lemma_step_operands_block(
    names: Seq<Seq<char>>,
    st: RenameV,
    from: nat,
    succ: nat,
    i: nat,
    len: nat,
)
    requires
        succ < st.blocks.len(),
        len == st.blocks[succ as int].instructions.len(),
    ensures
        evolved(st.blocks, add_operands_block(names, st, from, succ, i, len).blocks),
    decreases len - i,
{
    lemma_evolved_refl(st.blocks);
    if i < len {
        let instr = st.blocks[succ as int].instructions[i as int];
        match instr.value {
            ValueV::Phi { operands } => {
                if name_index(names, instr.lvalue.name, 0) is Some {
                    let changed = InstrV {
                        value: ValueV::Phi {
                            operands: operands.push(
                                (
                                    from,
                                    IdentV {
                                        name: instr.lvalue.name,
                                        id: current_version(names, st.stacks, instr.lvalue.name),
                                    },
                                ),
                            ),
                        },
                        ..instr
                    };
                    lemma_evolved_with_instr(st.blocks, succ, i, changed);
                    let next = RenameV { blocks: with_instr(st.blocks, succ, i, changed), ..st };
                    lemma_step_operands_block(names, next, from, succ, i + 1, len);
                    lemma_evolved_trans(
                        st.blocks,
                        next.blocks,
                        add_operands_block(names, st, from, succ, i, len).blocks,
                    );
                } else {
                    lemma_step_operands_block(names, st, from, succ, i + 1, len);
                }
            },
            _ => {},
        }
    }
}

/// Giving the Φs of the successors their operands is a step.
pub proof fn lemma_step_operands(names: Seq<Seq<char>>, st: RenameV, from: nat, succs: Seq<nat>, j: nat)
    ensures
        evolved(st.blocks, add_operands(names, st, from, succs, j).blocks),
    decreases succs.len() - j,
{
    lemma_evolved_refl(st.blocks);
    if j < succs.len() {
        let t = succs[j as int];
        if t < st.blocks.len() {
            let len = st.blocks[t as int].instructions.len();
            lemma_step_operands_block(names, st, from, t, 0, len);
            let next = add_operands_block(names, st, from, t, 0, len);
            lemma_step_operands(names, next, from, succs, j + 1);
            lemma_evolved_trans(
                st.blocks,
                next.blocks,
                add_operands(names, st, from, succs, j).blocks,
            );
        } else {
            lemma_step_operands(names, st, from, succs, j + 1);
        }
    }
}

/// Where more blocks are marked, fewer are unmarked.
pub proof fn lemma_unvisited_mono(v: Seq<bool>, w: Seq<bool>)
    requires
        v.len() == w.len(),
        forall|x: int| 0 <= x < v.len() && v[x] ==> #[trigger] w[x],
    ensures
        unvisited(w) <= unvisited(v),
    decreases v.len(),
{
    if v.len() > 0 {
        assert forall|x: int| 0 <= x < v.drop_last().len() && v.drop_last()[x] implies #[trigger] w.drop_last()[x] by {
            assert(v[x] ==> w[x]);
        }
        lemma_unvisited_mono(v.drop_last(), w.drop_last());
        assert(v.last() ==> w.last());
    }
}

/// The state of renaming is sound: the definitions are consistent, the
/// blocks have the lengths they had, no counter can overflow while the
/// unmarked blocks are renamed, and no Φ of a marked block is without
/// version.
pub open spec fn renaming_ok(names: Seq<Seq<char>>, st: RenameV, visited: Seq<bool>, lens: Seq<nat>) -> bool {
    &&& versions_ok(names, st.blocks, st.counters)
    &&& lengths(st.blocks) == lens
    &&& visited.len() == st.blocks.len()
    &&& forall|k: int|
        0 <= k < st.counters.len() ==> (#[trigger] st.counters[k]) + remaining(lens, visited)
            <= usize::MAX
    &&& phis_ok(names, st.blocks, visited)
}

/// Every mark that was set is set.
pub open spec fn grown(visited: Seq<bool>, after: Seq<bool>) -> bool {
    &&& after.len() == visited.len()
    &&& forall|x: int| 0 <= x < visited.len() && visited[x] ==> #[trigger] after[x]
}

/// Block `c` is a child of block `u` in the dominator tree.
pub open spec fn child_of(idoms: Seq<Option<nat>>, c: int, u: int) -> bool {
    0 <= c < idoms.len() && 0 <= u && idoms[c] == Some(u as nat) && c != u
}

/// Every child of a block that was marked since is marked.
pub open spec fn closed(idoms: Seq<Option<nat>>, visited: Seq<bool>, after: Seq<bool>) -> bool {
    forall|u: int, c: int|
        0 <= u < after.len() && after[u] && !visited[u] && #[trigger] child_of(idoms, c, u) && c
            < after.len() ==> after[c]
}

/// Renaming a block and what it dominates keeps the state sound, marks
/// the block, and marks every child of every block it marks.
pub proof fn lemma_rename(
    names: Seq<Seq<char>>,
    idoms: Seq<Option<nat>>,
    st: RenameV,
    visited: Seq<bool>,
    b: nat,
    lens: Seq<nat>,
)
    requires
        renaming_ok(names, st, visited, lens),
    ensures
        renaming_ok(
            names,
            rename(names, idoms, st, visited, b).0,
            rename(names, idoms, st, visited, b).1,
            lens,
        ),
        evolved(st.blocks, rename(names, idoms, st, visited, b).0.blocks),
        grown(visited, rename(names, idoms, st, visited, b).1),
        b < visited.len() ==> rename(names, idoms, st, visited, b).1[b as int],
        closed(idoms, visited, rename(names, idoms, st, visited, b).1),
    decreases unvisited(visited), 0nat,
{
    lemma_evolved_refl(st.blocks);
    if !(b >= st.blocks.len() || b >= visited.len() || visited[b as int]) {
        let inner = visited.update(b as int, true);
        lemma_unvisited_update(visited, b as int);
        assert(lens[b as int] == st.blocks[b as int].instructions.len());
        let n = st.blocks[b as int].instructions.len();
        lemma_remaining_update(lens, visited, b as int);
        assert forall|k: int| 0 <= k < st.counters.len() implies (#[trigger] st.counters[k]) + (n - 0)
            <= usize::MAX by {
            assert(st.counters[k] + remaining(lens, visited) <= usize::MAX);
        }
        lemma_step_instrs(names, st, b, 0, n, Seq::empty());
        let (s1, pushed) = rename_instrs(names, st, b, 0, n, Seq::empty());
        let succs = term_successors(s1.blocks[b as int].terminal);
        let from = s1.blocks[b as int].id;
        lemma_add_operands(names, s1, from, succs, 0);
        lemma_step_operands(names, s1, from, succs, 0);
        let s2 = add_operands(names, s1, from, succs, 0);
        lemma_evolved_trans(st.blocks, s1.blocks, s2.blocks);
        lemma_evolved_lengths(st.blocks, s2.blocks);
        assert(renaming_ok(names, s2, inner, lens)) by {
            assert forall|k: int| 0 <= k < s2.counters.len() implies (#[trigger] s2.counters[k])
                + remaining(lens, inner) <= usize::MAX by {
                assert(st.counters[k] + remaining(lens, visited) <= usize::MAX);
                assert(s1.counters[k] <= st.counters[k] + (n - 0));
            }
            assert forall|x: int, j: int|
                #![trigger s2.blocks[x].instructions[j]]
                at(s2.blocks, x, j) && x < inner.len() && inner[x] implies !pending(
                names,
                s2.blocks[x].instructions[j],
            ) by {
                if pending(names, s2.blocks[x].instructions[j]) {
                    assert(s2.blocks[x].instructions.len() == st.blocks[x].instructions.len());
                    if x == b {
                        assert(s1.blocks[x].instructions.len() == st.blocks[x].instructions.len());
                        lemma_pending_before(names, s1.blocks, s2.blocks, x, j);
                        assert(!pending(names, s1.blocks[b as int].instructions[j]));
                    } else {
                        lemma_pending_before(names, st.blocks, s2.blocks, x, j);
                        assert(!pending(names, st.blocks[x].instructions[j]));
                    }
                }
            }
        }
        lemma_rename_children(names, idoms, s2, inner, b, 0, lens);
        let (s3, v3) = rename_children(names, idoms, s2, inner, b, 0);
        lemma_pop_all(s3, pushed, 0);
        let last = pop_all(s3, pushed, 0);
        assert(rename(names, idoms, st, visited, b) == (last, v3));
        lemma_evolved_trans(st.blocks, s2.blocks, s3.blocks);
        assert(grown(visited, v3)) by {
            assert forall|x: int| 0 <= x < visited.len() && visited[x] implies #[trigger] v3[x] by {
                assert(inner[x]);
            }
        }
        assert(inner[b as int]);
        assert(closed(idoms, visited, v3)) by {
            assert forall|u: int, c: int|
                0 <= u < v3.len() && v3[u] && !visited[u] && #[trigger] child_of(idoms, c, u) && c
                    < v3.len() implies v3[c] by {
                if u != b {
                    assert(!inner[u]);
                }
            }
        }
    }
}

/// Renaming the children of a block from `c` on keeps the state sound,
/// marks these children, and marks every child of every block it marks.
pub proof fn lemma_rename_children(
    names: Seq<Seq<char>>,
    idoms: Seq<Option<nat>>,
    st: RenameV,
    visited: Seq<bool>,
    b: nat,
    c: nat,
    lens: Seq<nat>,
)
    requires
        renaming_ok(names, st, visited, lens),
    ensures
        renaming_ok(
            names,
            rename_children(names, idoms, st, visited, b, c).0,
            rename_children(names, idoms, st, visited, b, c).1,
            lens,
        ),
        evolved(st.blocks, rename_children(names, idoms, st, visited, b, c).0.blocks),
        grown(visited, rename_children(names, idoms, st, visited, b, c).1),
        closed(idoms, visited, rename_children(names, idoms, st, visited, b, c).1),
        forall|c2: int|
            c <= c2 && #[trigger] child_of(idoms, c2, b as int) && c2 < visited.len()
                ==> rename_children(names, idoms, st, visited, b, c).1[c2],
    decreases unvisited(visited), 1 + idoms.len() - c,
{
    lemma_evolved_refl(st.blocks);
    if c < idoms.len() {
        if idoms[c as int] == Some(b) && c != b {
            lemma_rename(names, idoms, st, visited, c, lens);
            let (s1, v1) = rename(names, idoms, st, visited, c);
            lemma_unvisited_mono(visited, v1);
            lemma_rename_children(names, idoms, s1, v1, b, c + 1, lens);
            let (s2, v2) = rename_children(names, idoms, s1, v1, b, c + 1);
            assert(rename_children(names, idoms, st, visited, b, c) == (s2, v2));
            lemma_evolved_trans(st.blocks, s1.blocks, s2.blocks);
            assert(grown(visited, v2)) by {
                assert forall|x: int| 0 <= x < visited.len() && visited[x] implies #[trigger] v2[x] by {
                    assert(v1[x]);
                }
            }
            assert(closed(idoms, visited, v2)) by {
                assert forall|u: int, c3: int|
                    0 <= u < v2.len() && v2[u] && !visited[u] && #[trigger] child_of(idoms, c3, u)
                        && c3 < v2.len() implies v2[c3] by {
                    if v1[u] {
                        assert(v1[c3]);
                    }
                }
            }
            assert forall|c2: int|
                c <= c2 && #[trigger] child_of(idoms, c2, b as int) && c2 < visited.len() implies v2[c2] by {
                if c2 == c {
                    assert(v1[c as int]);
                }
            }
        } else {
            lemma_rename_children(names, idoms, st, visited, b, c + 1, lens);
            assert forall|c2: int|
                c <= c2 && #[trigger] child_of(idoms, c2, b as int) && c2 < visited.len()
                    implies rename_children(names, idoms, st, visited, b, c).1[c2] by {
                if c2 == c {
                    assert(!child_of(idoms, c as int, b as int));
                }
            }
        }
    }
}

/// Putting Φs without version in front of blocks leaves, of two
/// instructions that define identifiers of version 0, one such Φ.
pub proof fn lemma_zero_insert_phis(
    blocks: Seq<BlockV>,
    names: Seq<Seq<char>>,
    placed: Seq<(nat, usize)>,
    base: nat,
    j: nat,
)
    requires
        zero_ok(names, blocks),
    ensures
        zero_ok(names, insert_phis(blocks, names, placed, base, j)),
    decreases placed.len() - j,
{
    if j < placed.len() {
        let (d, v) = placed[j as int];
        if d < blocks.len() && v < names.len() {
            let phi = phi_instr(names[v as int], base + j);
            let after = blocks.update(
                d as int,
                BlockV {
                    instructions: blocks[d as int].instructions.insert(0, phi),
                    ..blocks[d as int]
                },
            );
            lemma_name_index(names, names[v as int], 0);
            assert(pending(names, phi));
            assert forall|b1: int, i1: int, b2: int, i2: int|
                #![trigger lvalue_at(after, b1, i1), lvalue_at(after, b2, i2)]
                at(after, b1, i1) && at(after, b2, i2) && (b1 != b2 || i1 != i2) && lvalue_at(
                    after,
                    b1,
                    i1,
                ).id == 0 && lvalue_at(after, b2, i2).id == 0 implies pending(
                names,
                after[b1].instructions[i1],
            ) || pending(names, after[b2].instructions[i2]) by {
                let o1 = if b1 == d {
                    i1 - 1
                } else {
                    i1
                };
                let o2 = if b2 == d {
                    i2 - 1
                } else {
                    i2
                };
                if b1 == d && i1 == 0 {
                    assert(after[b1].instructions[i1] == phi);
                } else if b2 == d && i2 == 0 {
                    assert(after[b2].instructions[i2] == phi);
                } else {
                    assert(after[b1].instructions[i1] == blocks[b1].instructions[o1]);
                    assert(after[b2].instructions[i2] == blocks[b2].instructions[o2]);
                    assert(at(blocks, b1, o1) && at(blocks, b2, o2));
                    assert(lvalue_at(blocks, b1, o1).id == 0 && lvalue_at(blocks, b2, o2).id == 0);
                }
            }
            lemma_zero_insert_phis(after, names, placed, base, j + 1);
        } else {
            lemma_zero_insert_phis(blocks, names, placed, base, j + 1);
        }
    }
}

/// Where renaming from the entry has marked every child of every block
/// it marked, it has marked every block of the reverse post-order.
pub proof fn lemma_reachable_marked(f: FuncV, marks: Seq<bool>, k: nat)
    requires
        preds_listed(f),
        rpo_of(f).len() <= usize::MAX,
        marks.len() == f.blocks.len(),
        f.entry < f.blocks.len() ==> marks[f.entry as int],
        closed(idoms_of(f), Seq::new(f.blocks.len(), |i: int| false), marks),
        k < rpo_of(f).len(),
    ensures
        rpo_of(f)[k as int] < marks.len(),
        marks[rpo_of(f)[k as int] as int],
    decreases k,
{
    let order = rpo_of(f);
    lemma_rpo(f);
    assert(f.entry < f.blocks.len()) by {
        if f.entry >= f.blocks.len() {
            assert(post_order_of(f).len() == 0);
        }
    }
    if k > 0 {
        let s = dominators_of(f);
        lemma_iterate_known(f, initial(order.len()));
        assert(known_below(s, order.len()));
        lemma_dominators_rooted(f);
        assert(s.known[k as int]);
        lemma_dominator_comes_first(f, k as int);
        let p = s.d[k as int] as nat;
        lemma_reachable_marked(f, marks, p);
        lemma_entry_dominates_itself(f);
        let u = order[p as int] as int;
        let c = order[k as int] as int;
        assert(order[p as int] != order[k as int]);
        assert(child_of(idoms_of(f), c, u));
    }
}

/// In the SSA form of a function in which every instruction defines a
/// temporary of its own and no version was given out, no two instructions
/// of the schedule define the same identifier, of whatever version, and
/// no two instructions at all define the same identifier with a version
/// of at least 1.
pub proof fn lemma_ssa_definitions(f: FuncV)
    requires
        versions_unassigned(f),
        distinct_versions(f.blocks),
        ssa_fits(f),
        f.blocks.len() <= usize::MAX,
    ensures
        single_versions(ssa_of(f).blocks),
        single_definitions(schedule_of(ssa_of(f))),
{
    let b1 = with_preds(f.blocks);
    let f1 = FuncV { blocks: b1, ..f };
    lemma_rpo_short(f1);
    let g = globals_of(b1);
    let names = g.names;
    let ones = Seq::new(names.len(), |k: int| 1usize);
    lemma_with_preds(names, f.blocks, ones);
    assert(zero_ok(names, b1)) by {
        assert forall|x1: int, i1: int, x2: int, i2: int|
            #![trigger lvalue_at(b1, x1, i1), lvalue_at(b1, x2, i2)]
            at(b1, x1, i1) && at(b1, x2, i2) && (x1 != x2 || i1 != i2) && lvalue_at(b1, x1, i1).id == 0
                && lvalue_at(b1, x2, i2).id == 0 implies pending(names, b1[x1].instructions[i1])
            || pending(names, b1[x2].instructions[i2]) by {
            assert(lvalue_at(b1, x1, i1) == lvalue_at(f.blocks, x1, i1));
            assert(lvalue_at(b1, x2, i2) == lvalue_at(f.blocks, x2, i2));
            assert(at(f.blocks, x1, i1) && at(f.blocks, x2, i2));
        }
    }
    let placed = place_all(frontiers_of(f1), g.defs, 0, b1.len(), Seq::empty());
    let base = max_id(b1) + 1;
    let b2 = insert_phis(b1, names, placed, base, 0);
    lemma_insert_phis(b1, names, placed, base, 0, ones);
    lemma_zero_insert_phis(b1, names, placed, base, 0);
    let st0 = initial_rename(b2, names.len());
    let none = Seq::new(b2.len(), |i: int| false);
    let lens = lengths(b2);
    assert(st0.counters =~= ones);
    assert(renaming_ok(names, st0, none, lens)) by {
        assert(remaining(lens, none) == instr_total(b2));
    }
    let idoms = idoms_of(f1);
    lemma_rename(names, idoms, st0, none, f.entry, lens);
    let (sf, vf) = rename(names, idoms, st0, none, f.entry);
    assert(ssa_of(f).blocks == sf.blocks);
    lemma_evolved_keeps(names, b2, sf.blocks, none);
    lemma_ssa_frame(f);
    let h = ssa_of(f);
    // the schedule of the SSA form runs through the blocks that were marked
    let marks0 = Seq::new(b1.len(), |i: int| false);
    lemma_dfs_same(b1, h.blocks, f.entry, marks0, Seq::empty());
    assert(Seq::new(h.blocks.len(), |i: int| false) == marks0);
    assert(rpo_of(h) == rpo_of(f1));
    lemma_rebuilt_preds_listed(f);
    let order = rpo_of(h);
    lemma_rpo(h);
    assert(none == Seq::new(f1.blocks.len(), |i: int| false));
    let sched = schedule_of(h);
    assert forall|i: int, j: int| #![trigger sched[i], sched[j]] 0 <= i < j < sched.len() implies sched[i].lvalue
        != sched[j].lvalue by {
        lemma_origin(h.blocks, order, 0, Seq::empty(), i);
        lemma_origin(h.blocks, order, 0, Seq::empty(), j);
        lemma_origin_apart(h.blocks, order, 0, Seq::empty(), i, j);
        let a = origin(h.blocks, order, 0, 0, i as nat);
        let b = origin(h.blocks, order, 0, 0, j as nat);
        let x1 = order[a.0 as int] as int;
        let x2 = order[b.0 as int] as int;
        if a.0 != b.0 {
            assert(order[a.0 as int] != order[b.0 as int]);
        }
        lemma_reachable_marked(f1, vf, a.0);
        lemma_reachable_marked(f1, vf, b.0);
        assert(at(sf.blocks, x1, a.1 as int) && at(sf.blocks, x2, b.1 as int));
        let l1 = lvalue_at(sf.blocks, x1, a.1 as int);
        let l2 = lvalue_at(sf.blocks, x2, b.1 as int);
        assert(sched[i].lvalue == l1 && sched[j].lvalue == l2);
        assert(!pending(names, sf.blocks[x1].instructions[a.1 as int]));
        assert(!pending(names, sf.blocks[x2].instructions[b.1 as int]));
        if l1.id >= 1 {
            assert(l1 != l2);
        } else if l2.id >= 1 {
            assert(l2 != l1);
        }
    }
}

} // verus!
