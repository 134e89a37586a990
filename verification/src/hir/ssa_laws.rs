//! What SSA construction keeps: the blocks, their terminals and their
//! predecessor lists.  So in the SSA form of a function a block is among
//! the predecessors of another exactly when it has an edge to it.

use crate::hir::dominators::{frontiers_of, idoms_of};
use crate::hir::reactive_function::{lemma_unvisited_update, unvisited};
use crate::hir::ssa::{
    add_operands, add_operands_block, current_version, globals_of, initial_rename, insert_phis,
    lemma_pred_iff_succ, max_id, name_index, phi_instr, place_all, pop_all, rename,
    rename_children, rename_instr, rename_instrs, ssa_of, with_instr, with_preds, RenameV,
};
use crate::hir::{term_successors, BlockV, FuncV, IdentV, InstrV, ValueV};
use vstd::prelude::*;

verus! {

/// The blocks `b` are the blocks `a` with other instructions: as many
/// blocks, each with the id, the terminal and the predecessors it had.
pub open spec fn same_frame(a: Seq<BlockV>, b: Seq<BlockV>) -> bool {
    &&& a.len() == b.len()
    &&& forall|x: int|
        0 <= x < a.len() ==> (#[trigger] b[x]).terminal == a[x].terminal && b[x].preds == a[x].preds
            && b[x].id == a[x].id
}

/// Replacing an instruction keeps the frame.
pub proof fn lemma_frame_with_instr(blocks: Seq<BlockV>, b: nat, i: nat, instr: InstrV)
    requires
        b < blocks.len(),
    ensures
        same_frame(blocks, with_instr(blocks, b, i, instr)),
{
}

/// Renaming an instruction keeps the frame.
pub proof fn lemma_frame_rename_instr(names: Seq<Seq<char>>, st: RenameV, b: nat, i: nat)
    requires
        b < st.blocks.len(),
    ensures
        same_frame(st.blocks, rename_instr(names, st, b, i).0.blocks),
{
}

/// Renaming the instructions of a block keeps the frame.
pub proof fn lemma_frame_rename_instrs(
    names: Seq<Seq<char>>,
    st: RenameV,
    b: nat,
    i: nat,
    len: nat,
    pushed: Seq<usize>,
)
    requires
        b < st.blocks.len(),
    ensures
        same_frame(st.blocks, rename_instrs(names, st, b, i, len, pushed).0.blocks),
    decreases len - i,
{
    if i < len {
        lemma_frame_rename_instr(names, st, b, i);
        let (s1, p) = rename_instr(names, st, b, i);
        lemma_frame_rename_instrs(
            names,
            s1,
            b,
            i + 1,
            len,
            match p {
                Some(k) => pushed.push(k as usize),
                None => pushed,
            },
        );
    }
}

/// Giving the Φs of a block their operands keeps the frame.
pub proof fn lemma_frame_add_operands_block(
    names: Seq<Seq<char>>,
    st: RenameV,
    from: nat,
    succ: nat,
    i: nat,
    len: nat,
)
    requires
        succ < st.blocks.len(),
    ensures
        same_frame(st.blocks, add_operands_block(names, st, from, succ, i, len).blocks),
    decreases len - i,
{
    if i < len {
        let instr = st.blocks[succ as int].instructions[i as int];
        match instr.value {
            ValueV::Phi { operands } => {
                let next = if name_index(names, instr.lvalue.name, 0) is Some {
                    RenameV {
                        blocks: with_instr(
                            st.blocks,
                            succ,
                            i,
                            InstrV {
                                value: ValueV::Phi {
                                    operands: operands.push(
                                        (
                                            from,
                                            IdentV {
                                                name: instr.lvalue.name,
                                                id: current_version(
                                                    names,
                                                    st.stacks,
                                                    instr.lvalue.name,
                                                ),
                                            },
                                        ),
                                    ),
                                },
                                ..instr
                            },
                        ),
                        ..st
                    }
                } else {
                    st
                };
                lemma_frame_add_operands_block(names, next, from, succ, i + 1, len);
            },
            _ => {},
        }
    }
}

/// Giving the Φs of the successors their operands keeps the frame.
pub proof fn lemma_frame_add_operands(
    names: Seq<Seq<char>>,
    st: RenameV,
    from: nat,
    succs: Seq<nat>,
    j: nat,
)
    ensures
        same_frame(st.blocks, add_operands(names, st, from, succs, j).blocks),
    decreases succs.len() - j,
{
    if j < succs.len() {
        let t = succs[j as int];
        let next = if t < st.blocks.len() {
            lemma_frame_add_operands_block(
                names,
                st,
                from,
                t,
                0,
                st.blocks[t as int].instructions.len(),
            );
            add_operands_block(names, st, from, t, 0, st.blocks[t as int].instructions.len())
        } else {
            st
        };
        lemma_frame_add_operands(names, next, from, succs, j + 1);
    }
}

/// Taking versions off the stacks changes no block.
pub proof fn lemma_frame_pop_all(st: RenameV, pushed: Seq<usize>, j: nat)
    ensures
        pop_all(st, pushed, j).blocks == st.blocks,
    decreases pushed.len() - j,
{
    if j < pushed.len() {
        let k = pushed[j as int] as int;
        let next = if k < st.stacks.len() && st.stacks[k].len() > 0 {
            RenameV { stacks: st.stacks.update(k, st.stacks[k].drop_last()), ..st }
        } else {
            st
        };
        lemma_frame_pop_all(next, pushed, j + 1);
    }
}

/// Renaming a block and what it dominates keeps the frame.
pub proof fn lemma_frame_rename(
    names: Seq<Seq<char>>,
    idoms: Seq<Option<nat>>,
    st: RenameV,
    visited: Seq<bool>,
    b: nat,
)
    ensures
        same_frame(st.blocks, rename(names, idoms, st, visited, b).0.blocks),
    decreases unvisited(visited), 0nat,
{
    if !(b >= st.blocks.len() || b >= visited.len() || visited[b as int]) {
        lemma_unvisited_update(visited, b as int);
        let n = st.blocks[b as int].instructions.len();
        lemma_frame_rename_instrs(names, st, b, 0, n, Seq::empty());
        let (s1, pushed) = rename_instrs(names, st, b, 0, n, Seq::empty());
        let succs = term_successors(s1.blocks[b as int].terminal);
        lemma_frame_add_operands(names, s1, s1.blocks[b as int].id, succs, 0);
        let s2 = add_operands(names, s1, s1.blocks[b as int].id, succs, 0);
        lemma_frame_rename_children(names, idoms, s2, visited.update(b as int, true), b, 0);
        let (s3, v3) = rename_children(names, idoms, s2, visited.update(b as int, true), b, 0);
        lemma_frame_pop_all(s3, pushed, 0);
    }
}

/// Renaming the children of a block keeps the frame.
pub proof fn lemma_frame_rename_children(
    names: Seq<Seq<char>>,
    idoms: Seq<Option<nat>>,
    st: RenameV,
    visited: Seq<bool>,
    b: nat,
    c: nat,
)
    ensures
        same_frame(st.blocks, rename_children(names, idoms, st, visited, b, c).0.blocks),
    decreases unvisited(visited), 1 + idoms.len() - c,
{
    if c < idoms.len() {
        if idoms[c as int] == Some(b) && c != b {
            lemma_frame_rename(names, idoms, st, visited, c);
            let (s1, v1) = rename(names, idoms, st, visited, c);
            if unvisited(v1) <= unvisited(visited) {
                lemma_frame_rename_children(names, idoms, s1, v1, b, c + 1);
            }
        } else {
            lemma_frame_rename_children(names, idoms, st, visited, b, c + 1);
        }
    }
}

/// Putting Φs in front of blocks keeps the frame.
pub proof fn lemma_frame_insert_phis(
    blocks: Seq<BlockV>,
    names: Seq<Seq<char>>,
    placed: Seq<(nat, usize)>,
    base: nat,
    j: nat,
)
    ensures
        same_frame(blocks, insert_phis(blocks, names, placed, base, j)),
    decreases placed.len() - j,
{
    if j < placed.len() {
        let (d, v) = placed[j as int];
        let next = if d < blocks.len() && v < names.len() {
            blocks.update(
                d as int,
                BlockV {
                    instructions: blocks[d as int].instructions.insert(
                        0,
                        phi_instr(names[v as int], base + j),
                    ),
                    ..blocks[d as int]
                },
            )
        } else {
            blocks
        };
        lemma_frame_insert_phis(next, names, placed, base, j + 1);
    }
}

/// SSA construction keeps the blocks of the function with rebuilt
/// predecessors, but for their instructions.
pub proof fn lemma_ssa_frame(f: FuncV)
    ensures
        same_frame(with_preds(f.blocks), ssa_of(f).blocks),
        ssa_of(f).entry == f.entry,
{
    let b1 = with_preds(f.blocks);
    let f1 = FuncV { blocks: b1, ..f };
    let g = globals_of(b1);
    let placed = place_all(frontiers_of(f1), g.defs, 0, b1.len(), Seq::empty());
    let b2 = insert_phis(b1, g.names, placed, max_id(b1) + 1, 0);
    lemma_frame_insert_phis(b1, g.names, placed, max_id(b1) + 1, 0);
    lemma_frame_rename(
        g.names,
        idoms_of(f1),
        initial_rename(b2, g.names.len()),
        Seq::new(b2.len(), |i: int| false),
        f.entry,
    );
}

/// In the SSA form of a function, a block is among the predecessors of
/// another exactly when the other is among its successors.
pub proof fn lemma_ssa_pred_iff_succ(f: FuncV, b: nat, s: nat)
    requires
        b < f.blocks.len(),
        s < f.blocks.len(),
    ensures
        ssa_of(f).blocks.len() == f.blocks.len(),
        ssa_of(f).blocks[s as int].preds.contains(b) <==> term_successors(
            ssa_of(f).blocks[b as int].terminal,
        ).contains(s),
{
    lemma_ssa_frame(f);
    lemma_pred_iff_succ(f.blocks, b, s);
    let w = with_preds(f.blocks);
    let r = ssa_of(f).blocks;
    assert(r[s as int].preds == w[s as int].preds);
    assert(r[b as int].terminal == w[b as int].terminal);
}

} // verus!
