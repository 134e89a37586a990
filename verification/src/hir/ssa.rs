//! Static single assignment form: predecessors are rebuilt from the
//! terminals, Φ-instructions are placed on iterated dominance frontiers, and
//! every definition of a promotable variable gets a version of its own.

use crate::hir::dominators::{frontiers_of, idoms_of, DominatorTree};
use crate::hir::{
    at, lvalue_at, single_versions, store_target_at, term_successors, BasicBlock, BlockId, BlockV, FuncV, HIRFunction, IdentV, Identifier, InstrId,
    InstrV, Instruction, InstructionValue, Place, ValueV,
};
use crate::hir::dominators::insert_sorted;
use crate::hir::reactive_function::{lemma_unvisited_update, unvisited};
use crate::text::{text_less, text_lt, texts};
use vstd::prelude::*;

verus! {

broadcast use vstd::std_specs::vec::group_vec_axioms;

/// `b` once for every occurrence of `target` among `succs[i..]`, after `acc`.
pub open spec fn sources_in(succs: Seq<nat>, i: nat, b: nat, target: nat, acc: Seq<nat>) -> Seq<nat>
    decreases succs.len() - i,
{
    if i >= succs.len() {
        acc
    } else {
        sources_in(
            succs,
            i + 1,
            b,
            target,
            if succs[i as int] == target {
                acc.push(b)
            } else {
                acc
            },
        )
    }
}

/// The sources of the edges into `target` from the blocks from `b` on, in
/// block order and, within a block, in the order of its successors.
pub open spec fn sources_from(blocks: Seq<BlockV>, b: nat, target: nat, acc: Seq<nat>) -> Seq<nat>
    decreases blocks.len() - b,
{
    if b >= blocks.len() {
        acc
    } else {
        sources_from(
            blocks,
            b + 1,
            target,
            sources_in(term_successors(blocks[b as int].terminal), 0, b, target, acc),
        )
    }
}

/// The predecessors of `target`: one entry per edge into it.
pub open spec fn preds_of(blocks: Seq<BlockV>, target: nat) -> Seq<nat> {
    sources_from(blocks, 0, target, Seq::empty())
}

/// The blocks with their predecessor lists rebuilt from the terminals.
pub open spec fn with_preds(blocks: Seq<BlockV>) -> Seq<BlockV> {
    Seq::new(blocks.len(), |s: int| BlockV { preds: preds_of(blocks, s as nat), ..blocks[s] })
}

/// An accumulator only grows, and what is added is `b` exactly when
/// `target` occurs among the successors scanned.
pub proof fn lemma_sources_in(succs: Seq<nat>, i: nat, b: nat, target: nat, acc: Seq<nat>, x: nat)
    requires
        i <= succs.len(),
    ensures
        sources_in(succs, i, b, target, acc).contains(x) <==> acc.contains(x) || (x == b
            && succs.subrange(i as int, succs.len() as int).contains(target)),
    decreases succs.len() - i,
{
    let rest = succs.subrange(i as int, succs.len() as int);
    if i < succs.len() {
        let next = if succs[i as int] == target {
            acc.push(b)
        } else {
            acc
        };
        lemma_sources_in(succs, i + 1, b, target, next, x);
        let tail = succs.subrange(i as int + 1, succs.len() as int);
        assert(rest[0] == succs[i as int]);
        assert forall|k: int| 0 <= k < tail.len() implies tail[k] == rest[k + 1] by {}
        if succs[i as int] == target {
            assert(acc.push(b).last() == b);
            assert forall|k: int| 0 <= k < acc.len() implies acc.push(b)[k] == acc[k] by {}
            if acc.push(b).contains(x) && !acc.contains(x) {
                let k = choose|k: int| 0 <= k < acc.push(b).len() && acc.push(b)[k] == x;
                assert(k == acc.len());
            }
        }
        if tail.contains(target) {
            let k = choose|k: int| 0 <= k < tail.len() && tail[k] == target;
            assert(rest[k + 1] == target);
        }
        if rest.contains(target) && succs[i as int] != target {
            let k = choose|k: int| 0 <= k < rest.len() && rest[k] == target;
            assert(k > 0);
            assert(tail[k - 1] == target);
        }
    } else {
        assert(rest.len() == 0);
    }
}

/// What is among the sources collected from block `from` on.
pub proof fn lemma_sources_from(blocks: Seq<BlockV>, from: nat, target: nat, acc: Seq<nat>, x: nat)
    requires
        from <= blocks.len(),
    ensures
        sources_from(blocks, from, target, acc).contains(x) <==> acc.contains(x) || (from <= x
            < blocks.len() && term_successors(blocks[x as int].terminal).contains(target)),
    decreases blocks.len() - from,
{
    if from < blocks.len() {
        let succs = term_successors(blocks[from as int].terminal);
        let next = sources_in(succs, 0, from, target, acc);
        lemma_sources_in(succs, 0, from, target, acc, x);
        assert(succs.subrange(0, succs.len() as int) =~= succs);
        lemma_sources_from(blocks, from + 1, target, next, x);
    }
}

/// After the predecessors are rebuilt, `b` is a predecessor of `s` exactly
/// when `s` is a successor of `b`.
pub proof fn lemma_pred_iff_succ(blocks: Seq<BlockV>, b: nat, s: nat)
    requires
        b < blocks.len(),
        s < blocks.len(),
    ensures
        with_preds(blocks)[s as int].preds.contains(b) <==> term_successors(
            with_preds(blocks)[b as int].terminal,
        ).contains(s),
{
    lemma_sources_from(blocks, 0, s, Seq::empty(), b);
    assert(!Seq::<nat>::empty().contains(b));
}

/// Rebuilds the predecessor lists, as [`with_preds`] says.
pub fn rebuild_predecessors(blocks: &mut Vec<BasicBlock>)
    ensures
        final(blocks).deep_view() == with_preds(old(blocks).deep_view()),
{
    let ghost orig = blocks.deep_view();
    let n: usize = blocks.len();
    let mut s: usize = 0;
    while s < n
        invariant
            s <= n,
            blocks@.len() == n,
            orig.len() == n,
            forall|k: int|
                0 <= k < n ==> (#[trigger] blocks.deep_view()[k]) == if k < s {
                    BlockV { preds: Seq::empty(), ..orig[k] }
                } else {
                    orig[k]
                },
        decreases n - s,
    {
        let ghost before = blocks.deep_view();
        let ghost prev = *blocks;
        blocks[s].preds.clear();
        proof {
            assert(blocks@[s as int].preds.deep_view() =~= Seq::empty());
            assert(blocks@[s as int].instructions == prev@[s as int].instructions);
            assert(blocks@[s as int].terminal == prev@[s as int].terminal);
            assert(blocks@[s as int].id == prev@[s as int].id);
            assert(before[s as int] == orig[s as int]);
            assert(blocks.deep_view()[s as int] == (BlockV {
                preds: Seq::empty(),
                ..orig[s as int]
            }));
            assert forall|k: int| 0 <= k < n implies (#[trigger] blocks.deep_view()[k]) == if k < s
                + 1 {
                BlockV { preds: Seq::empty(), ..orig[k] }
            } else {
                orig[k]
            } by {
                if k != s {
                    assert(blocks@[k] == prev@[k]);
                    assert(blocks.deep_view()[k] == before[k]);
                }
            }
        }
        s += 1;
    }
    let mut b: usize = 0;
    while b < n
        invariant
            b <= n,
            blocks@.len() == n,
            orig.len() == n,
            forall|k: int|
                0 <= k < n ==> (#[trigger] blocks.deep_view()[k]) == (BlockV {
                    preds: blocks.deep_view()[k].preds,
                    ..orig[k]
                }),
            forall|k: int|
                0 <= k < n ==> sources_from(orig, b as nat, k as nat, (#[trigger] blocks.deep_view()[k]).preds)
                    == preds_of(orig, k as nat),
        decreases n - b,
    {
        let succs = blocks[b].successors();
        let ghost ss = succs.deep_view();
        assert(ss == term_successors(orig[b as int].terminal)) by {
            assert(blocks.deep_view()[b as int].terminal == orig[b as int].terminal);
        }
        let ghost start = blocks.deep_view();
        let mut i: usize = 0;
        while i < succs.len()
            invariant
                i <= succs.len(),
                b < n,
                blocks@.len() == n,
                orig.len() == n,
                ss == succs.deep_view(),
                start.len() == n,
                forall|k: int|
                    0 <= k < n ==> (#[trigger] blocks.deep_view()[k]) == (BlockV {
                        preds: blocks.deep_view()[k].preds,
                        ..orig[k]
                    }),
                forall|k: int|
                    0 <= k < n ==> sources_in(
                        ss,
                        i as nat,
                        b as nat,
                        k as nat,
                        (#[trigger] blocks.deep_view()[k]).preds,
                    ) == sources_in(ss, 0, b as nat, k as nat, start[k].preds),
            decreases succs.len() - i,
        {
            let t: usize = succs[i].0;
            if t < n {
                let ghost before = blocks.deep_view();
                let ghost before_preds = blocks@[t as int].preds;
                blocks[t].preds.push(BlockId(b));
                proof {
                    assert(blocks@[t as int].preds.deep_view() =~= before_preds.deep_view().push(
                        b as nat,
                    ));
                    assert forall|k: int| 0 <= k < n implies (#[trigger] blocks.deep_view()[k]) == (
                    BlockV { preds: blocks.deep_view()[k].preds, ..orig[k] }) && sources_in(
                        ss,
                        (i + 1) as nat,
                        b as nat,
                        k as nat,
                        blocks.deep_view()[k].preds,
                    ) == sources_in(ss, 0, b as nat, k as nat, start[k].preds) by {
                        if k != t {
                            assert(blocks.deep_view()[k] == before[k]);
                        } else {
                            assert(before[k].preds == before_preds.deep_view());
                        }
                    }
                }
            } else {
                proof {
                    assert forall|k: int| 0 <= k < n implies sources_in(
                        ss,
                        (i + 1) as nat,
                        b as nat,
                        k as nat,
                        (#[trigger] blocks.deep_view()[k]).preds,
                    ) == sources_in(ss, 0, b as nat, k as nat, start[k].preds) by {}
                }
            }
            i += 1;
        }
        b += 1;
    }
    assert(blocks.deep_view() =~= with_preds(orig));
}

/// The promotable variables in ascending order of their names, each with
/// the blocks that store into it in ascending order.
pub ghost struct GlobalsV {
    pub names: Seq<Seq<char>>,
    pub defs: Seq<Seq<nat>>,
}

/// The first position from `i` on that holds `name`.
pub open spec fn name_index(names: Seq<Seq<char>>, name: Seq<char>, i: nat) -> Option<nat>
    decreases names.len() - i,
{
    if i >= names.len() {
        None
    } else if names[i as int] == name {
        Some(i)
    } else {
        name_index(names, name, i + 1)
    }
}

/// The first position from `i` on whose name is greater than `name`.
pub open spec fn insert_position(names: Seq<Seq<char>>, name: Seq<char>, i: nat) -> nat
    decreases names.len() - i,
{
    if i >= names.len() {
        names.len()
    } else if text_lt(name, names[i as int], 0) {
        i
    } else {
        insert_position(names, name, i + 1)
    }
}

/// Records that `block` stores into `name`.
pub open spec fn add_def(g: GlobalsV, name: Seq<char>, block: nat) -> GlobalsV {
    match name_index(g.names, name, 0) {
        Some(k) => GlobalsV {
            defs: g.defs.update(k as int, insert_sorted(g.defs[k as int], block, 0)),
            ..g
        },
        None => {
            let at = insert_position(g.names, name, 0) as int;
            GlobalsV { names: g.names.insert(at, name), defs: g.defs.insert(at, seq![block]) }
        },
    }
}

pub open spec fn collect_stores(g: GlobalsV, instrs: Seq<InstrV>, i: nat, block: nat) -> GlobalsV
    decreases instrs.len() - i,
{
    if i >= instrs.len() {
        g
    } else {
        collect_stores(
            match instrs[i as int].value {
                ValueV::StoreLocal(target, _) => add_def(g, target.name, block),
                _ => g,
            },
            instrs,
            i + 1,
            block,
        )
    }
}

/// The promotable variables of the blocks from `b` on: every variable that
/// some instruction stores into.
pub open spec fn collect_globals(g: GlobalsV, blocks: Seq<BlockV>, b: nat) -> GlobalsV
    decreases blocks.len() - b,
{
    if b >= blocks.len() {
        g
    } else {
        collect_globals(
            collect_stores(g, blocks[b as int].instructions, 0, blocks[b as int].id),
            blocks,
            b + 1,
        )
    }
}

/// The promotable variables of a list of blocks.
pub open spec fn globals_of(blocks: Seq<BlockV>) -> GlobalsV {
    collect_globals(GlobalsV { names: Seq::empty(), defs: Seq::empty() }, blocks, 0)
}

fn find_name(names: &Vec<String>, name: &String) -> (r: Option<usize>)
    ensures
        match r {
            Some(k) => name_index(texts(names@), name@, 0) == Some(k as nat) && k < names@.len()
                && names@[k as int]@ == name@,
            None => name_index(texts(names@), name@, 0) is None,
        },
{
    let mut i: usize = 0;
    while i < names.len()
        invariant
            i <= names.len(),
            name_index(texts(names@), name@, i as nat) == name_index(texts(names@), name@, 0),
        decreases names.len() - i,
    {
        if names[i] == *name {
            return Some(i);
        }
        i += 1;
    }
    None
}

/// Records a store, as [`add_def`] says.
fn record_def(names: &mut Vec<String>, defs: &mut Vec<Vec<BlockId>>, name: &String, block: BlockId)
    requires
        old(names)@.len() == old(defs)@.len(),
    ensures
        final(names)@.len() == final(defs)@.len(),
        (GlobalsV { names: texts(final(names)@), defs: final(defs).deep_view() }) == add_def(
            GlobalsV { names: texts(old(names)@), defs: old(defs).deep_view() },
            name@,
            block.deep_view(),
        ),
{
    match find_name(names, name) {
        Some(k) => {
            let ghost before = defs.deep_view();
            sorted_block_insert(&mut defs[k], block);
            assert(defs.deep_view() =~= before.update(
                k as int,
                insert_sorted(before[k as int], block.deep_view(), 0),
            ));
        },
        None => {
            let mut at: usize = 0;
            while at < names.len() && !text_less(name.as_str(), names[at].as_str())
                invariant
                    at <= names.len(),
                    insert_position(texts(names@), name@, at as nat) == insert_position(
                        texts(names@),
                        name@,
                        0,
                    ),
                decreases names.len() - at,
            {
                at += 1;
            }
            let ghost n0 = texts(names@);
            let ghost d0 = defs.deep_view();
            names.insert(at, name.clone());
            let mut one: Vec<BlockId> = Vec::new();
            one.push(block);
            assert(one.deep_view() =~= seq![block.deep_view()]);
            defs.insert(at, one);
            assert(texts(names@) =~= n0.insert(at as int, name@));
            assert(defs.deep_view() =~= d0.insert(at as int, seq![block.deep_view()]));
        },
    }
}

/// Puts a block into an ascending list, as [`insert_sorted`] says.
fn sorted_block_insert(list: &mut Vec<BlockId>, x: BlockId)
    ensures
        final(list).deep_view() == insert_sorted(old(list).deep_view(), x.deep_view(), 0),
{
    let ghost s = list.deep_view();
    let mut i: usize = 0;
    while i < list.len()
        invariant
            i <= list.len(),
            *list == *old(list),
            s == list.deep_view(),
            insert_sorted(s, x.deep_view(), i as nat) == insert_sorted(s, x.deep_view(), 0),
        decreases list.len() - i,
    {
        if list[i].0 == x.0 {
            return ;
        }
        if list[i].0 > x.0 {
            list.insert(i, x);
            assert(list.deep_view() =~= s.insert(i as int, x.deep_view()));
            return ;
        }
        i += 1;
    }
    list.push(x);
    assert(list.deep_view() =~= s.push(x.deep_view()));
}

/// The promotable variables, as [`globals_of`] says.
fn collect_promotable(blocks: &Vec<BasicBlock>) -> (r: (Vec<String>, Vec<Vec<BlockId>>))
    ensures
        r.0@.len() == r.1@.len(),
        (GlobalsV { names: texts(r.0@), defs: r.1.deep_view() }) == globals_of(blocks.deep_view()),
{
    let mut names: Vec<String> = Vec::new();
    let mut defs: Vec<Vec<BlockId>> = Vec::new();
    assert(texts(names@) =~= Seq::empty());
    assert(defs.deep_view() =~= Seq::empty());
    let ghost bs = blocks.deep_view();
    let mut b: usize = 0;
    while b < blocks.len()
        invariant
            b <= blocks.len(),
            bs == blocks.deep_view(),
            names@.len() == defs@.len(),
            collect_globals(
                GlobalsV { names: texts(names@), defs: defs.deep_view() },
                bs,
                b as nat,
            ) == globals_of(bs),
        decreases blocks.len() - b,
    {
        let block = &blocks[b];
        let ghost instrs = block.instructions.deep_view();
        let ghost start = GlobalsV { names: texts(names@), defs: defs.deep_view() };
        let mut i: usize = 0;
        while i < block.instructions.len()
            invariant
                i <= block.instructions.len(),
                instrs == block.instructions.deep_view(),
                names@.len() == defs@.len(),
                collect_stores(
                    GlobalsV { names: texts(names@), defs: defs.deep_view() },
                    instrs,
                    i as nat,
                    block.id.deep_view(),
                ) == collect_stores(start, instrs, 0, block.id.deep_view()),
            decreases block.instructions.len() - i,
        {
            match &block.instructions[i].value {
                InstructionValue::StoreLocal(target, _) => {
                    record_def(&mut names, &mut defs, &target.identifier.name, block.id);
                },
                _ => {},
            }
            i += 1;
        }
        b += 1;
    }
    (names, defs)
}

/// The state of Φ placement for one variable: the placements so far as
/// (block, variable) pairs, the blocks that have a Φ for the variable, and
/// the blocks still to look at.
pub ghost struct PlaceV {
    pub placed: Seq<(nat, usize)>,
    pub has_phi: Seq<bool>,
    pub worklist: Seq<nat>,
}

/// Every block from position `i` on of a frontier that has no Φ for
/// variable `v` gets one and joins the worklist.
pub open spec fn place_frontier(p: PlaceV, df: Seq<nat>, i: nat, v: usize) -> PlaceV
    decreases df.len() - i,
{
    if i >= df.len() {
        p
    } else {
        let d = df[i as int];
        place_frontier(
            if d < p.has_phi.len() && !p.has_phi[d as int] {
                PlaceV {
                    placed: p.placed.push((d, v)),
                    has_phi: p.has_phi.update(d as int, true),
                    worklist: p.worklist.push(d),
                }
            } else {
                p
            },
            df,
            i + 1,
            v,
        )
    }
}

/// What is left to do: the blocks without Φ and the blocks on the worklist.
pub open spec fn place_measure(p: PlaceV) -> nat {
    unvisited(p.has_phi) + p.worklist.len()
}

/// Placing over a frontier leaves the measure as it is.
pub proof fn lemma_place_frontier(p: PlaceV, df: Seq<nat>, i: nat, v: usize)
    ensures
        place_measure(place_frontier(p, df, i, v)) == place_measure(p),
        place_frontier(p, df, i, v).has_phi.len() == p.has_phi.len(),
    decreases df.len() - i,
{
    if i < df.len() {
        let d = df[i as int];
        if d < p.has_phi.len() && !p.has_phi[d as int] {
            lemma_unvisited_one(p.has_phi, d as int);
            let next = PlaceV {
                placed: p.placed.push((d, v)),
                has_phi: p.has_phi.update(d as int, true),
                worklist: p.worklist.push(d),
            };
            lemma_place_frontier(next, df, i + 1, v);
        } else {
            lemma_place_frontier(p, df, i + 1, v);
        }
    }
}

/// Marking one unmarked block leaves exactly one fewer.
pub proof fn lemma_unvisited_one(visited: Seq<bool>, b: int)
    requires
        0 <= b < visited.len(),
        !visited[b],
    ensures
        unvisited(visited.update(b, true)) + 1 == unvisited(visited),
    decreases visited.len(),
{
    let after = visited.update(b, true);
    if b == visited.len() - 1 {
        assert(after.drop_last() =~= visited.drop_last());
    } else {
        assert(after.drop_last() =~= visited.drop_last().update(b, true));
        lemma_unvisited_one(visited.drop_last(), b);
    }
}

/// The worklist is worked off from its end: the frontier of every block
/// taken from it is placed over.
pub open spec fn drain(p: PlaceV, frontiers: Seq<Seq<nat>>, v: usize) -> PlaceV
    decreases place_measure(p),
    via drain_decreases
{
    if p.worklist.len() == 0 {
        p
    } else {
        let b = p.worklist.last();
        let rest = PlaceV { worklist: p.worklist.drop_last(), ..p };
        drain(
            if b < frontiers.len() {
                place_frontier(rest, frontiers[b as int], 0, v)
            } else {
                rest
            },
            frontiers,
            v,
        )
    }
}

#[via_fn]
proof fn drain_decreases(p: PlaceV, frontiers: Seq<Seq<nat>>, v: usize) {
    if p.worklist.len() > 0 {
        let b = p.worklist.last();
        let rest = PlaceV { worklist: p.worklist.drop_last(), ..p };
        if b < frontiers.len() {
            lemma_place_frontier(rest, frontiers[b as int], 0, v);
        }
    }
}

/// The placements for the variables from `v` on, after `placed`: for each
/// variable the iterated dominance frontier of the blocks that store into
/// it.
pub open spec fn place_all(
    frontiers: Seq<Seq<nat>>,
    defs: Seq<Seq<nat>>,
    v: nat,
    n: nat,
    placed: Seq<(nat, usize)>,
) -> Seq<(nat, usize)>
    decreases defs.len() - v,
{
    if v >= defs.len() {
        placed
    } else {
        place_all(
            frontiers,
            defs,
            v + 1,
            n,
            drain(
                PlaceV { placed, has_phi: Seq::new(n, |i: int| false), worklist: defs[v as int] },
                frontiers,
                v as usize,
            ).placed,
        )
    }
}

/// Places the Φs, as [`place_all`] says.
fn place_phis(frontiers: &Vec<Vec<BlockId>>, defs: &Vec<Vec<BlockId>>, n: usize) -> (placed: Vec<
    (BlockId, usize),
>)
    ensures
        placed.deep_view() == place_all(
            frontiers.deep_view(),
            defs.deep_view(),
            0,
            n as nat,
            Seq::empty(),
        ),
        forall|k: int|
            0 <= k < placed@.len() ==> (#[trigger] placed@[k]).0.0 < n && placed@[k].1 < defs@.len(),
{
    let ghost fs = frontiers.deep_view();
    let ghost ds = defs.deep_view();
    let mut placed: Vec<(BlockId, usize)> = Vec::new();
    assert(placed.deep_view() =~= Seq::empty());
    let mut v: usize = 0;
    while v < defs.len()
        invariant
            v <= defs.len(),
            fs == frontiers.deep_view(),
            ds == defs.deep_view(),
            place_all(fs, ds, v as nat, n as nat, placed.deep_view()) == place_all(
                fs,
                ds,
                0,
                n as nat,
                Seq::empty(),
            ),
            forall|k: int|
                0 <= k < placed@.len() ==> (#[trigger] placed@[k]).0.0 < n && placed@[k].1
                    < defs@.len(),
        decreases defs.len() - v,
    {
        let mut has_phi: Vec<bool> = Vec::new();
        let mut i: usize = 0;
        while i < n
            invariant
                i <= n,
                has_phi@.len() == i,
                forall|k: int| 0 <= k < i ==> !has_phi@[k],
            decreases n - i,
        {
            has_phi.push(false);
            i += 1;
        }
        assert(has_phi@ =~= Seq::new(n as nat, |i: int| false));
        let mut worklist: Vec<BlockId> = Vec::new();
        let mut j: usize = 0;
        while j < defs[v].len()
            invariant
                j <= defs@[v as int]@.len(),
                v < defs@.len(),
                worklist@.len() == j,
                forall|k: int| 0 <= k < j ==> worklist@[k] == defs@[v as int]@[k],
            decreases defs@[v as int]@.len() - j,
        {
            worklist.push(defs[v][j]);
            j += 1;
        }
        assert(worklist.deep_view() =~= ds[v as int]);
        let ghost start = PlaceV {
            placed: placed.deep_view(),
            has_phi: has_phi@,
            worklist: worklist.deep_view(),
        };
        while worklist.len() > 0
            invariant
                v < defs@.len(),
                has_phi@.len() == n,
                fs == frontiers.deep_view(),
                drain(
                    PlaceV {
                        placed: placed.deep_view(),
                        has_phi: has_phi@,
                        worklist: worklist.deep_view(),
                    },
                    fs,
                    v,
                ) == drain(start, fs, v),
                forall|k: int|
                    0 <= k < placed@.len() ==> (#[trigger] placed@[k]).0.0 < n && placed@[k].1
                        < defs@.len(),
            decreases
                    place_measure(
                        PlaceV {
                            placed: placed.deep_view(),
                            has_phi: has_phi@,
                            worklist: worklist.deep_view(),
                        },
                    ),
        {
            let ghost before = worklist.deep_view();
            let ghost taken = PlaceV {
                placed: placed.deep_view(),
                has_phi: has_phi@,
                worklist: before,
            };
            let b: usize = worklist[worklist.len() - 1].0;
            worklist.pop();
            assert(worklist.deep_view() =~= before.drop_last());
            assert(before.last() == b as nat);
            let ghost rest = PlaceV { worklist: before.drop_last(), ..taken };
            if b < frontiers.len() {
                let df = &frontiers[b];
                let ghost dfv = df.deep_view();
                proof {
                    lemma_place_frontier(rest, dfv, 0, v);
                }
                let mut i: usize = 0;
                while i < df.len()
                    invariant
                        i <= df.len(),
                        v < defs@.len(),
                        has_phi@.len() == n,
                        dfv == df.deep_view(),
                        place_frontier(
                            PlaceV {
                                placed: placed.deep_view(),
                                has_phi: has_phi@,
                                worklist: worklist.deep_view(),
                            },
                            dfv,
                            i as nat,
                            v,
                        ) == place_frontier(rest, dfv, 0, v),
                        forall|k: int|
                            0 <= k < placed@.len() ==> (#[trigger] placed@[k]).0.0 < n
                                && placed@[k].1 < defs@.len(),
                    decreases df.len() - i,
                {
                    let d: usize = df[i].0;
                    if d < n && !has_phi[d] {
                        let ghost pb = placed.deep_view();
                        let ghost wb = worklist.deep_view();
                        placed.push((BlockId(d), v));
                        has_phi[d] = true;
                        worklist.push(BlockId(d));
                        assert(placed.deep_view() =~= pb.push((d as nat, v)));
                        assert(worklist.deep_view() =~= wb.push(d as nat));
                    }
                    i += 1;
                }
            }
        }
        v += 1;
    }
    placed
}

/// The greatest instruction id among `acc` and the instructions from `i` on.
pub open spec fn max_id_instrs(instrs: Seq<InstrV>, i: nat, acc: nat) -> nat
    decreases instrs.len() - i,
{
    if i >= instrs.len() {
        acc
    } else {
        max_id_instrs(
            instrs,
            i + 1,
            if instrs[i as int].id > acc {
                instrs[i as int].id
            } else {
                acc
            },
        )
    }
}

/// The greatest instruction id among `acc` and the blocks from `b` on.
pub open spec fn max_id_blocks(blocks: Seq<BlockV>, b: nat, acc: nat) -> nat
    decreases blocks.len() - b,
{
    if b >= blocks.len() {
        acc
    } else {
        max_id_blocks(blocks, b + 1, max_id_instrs(blocks[b as int].instructions, 0, acc))
    }
}

/// The greatest instruction id of a function, 0 where it has no instruction.
pub open spec fn max_id(blocks: Seq<BlockV>) -> nat {
    max_id_blocks(blocks, 0, 0)
}

fn max_instr_id(blocks: &Vec<BasicBlock>) -> (r: usize)
    ensures
        r == max_id(blocks.deep_view()),
{
    let ghost bs = blocks.deep_view();
    let mut acc: usize = 0;
    let mut b: usize = 0;
    while b < blocks.len()
        invariant
            b <= blocks.len(),
            bs == blocks.deep_view(),
            max_id_blocks(bs, b as nat, acc as nat) == max_id(bs),
        decreases blocks.len() - b,
    {
        let block = &blocks[b];
        let ghost instrs = block.instructions.deep_view();
        let ghost start = acc;
        let mut i: usize = 0;
        while i < block.instructions.len()
            invariant
                i <= block.instructions.len(),
                instrs == block.instructions.deep_view(),
                max_id_instrs(instrs, i as nat, acc as nat) == max_id_instrs(instrs, 0, start as nat),
            decreases block.instructions.len() - i,
        {
            if block.instructions[i].id.0 > acc {
                acc = block.instructions[i].id.0;
            }
            i += 1;
        }
        b += 1;
    }
    acc
}

/// A Φ for `name` without operands and without version.
pub open spec fn phi_instr(name: Seq<char>, id: nat) -> InstrV {
    InstrV {
        id,
        lvalue: IdentV { name, id: 0 },
        value: ValueV::Phi { operands: Seq::empty() },
        scope: None,
    }
}

/// The placements from `j` on put in front of their blocks, placement `j`
/// with instruction id `base + j`.
pub open spec fn insert_phis(
    blocks: Seq<BlockV>,
    names: Seq<Seq<char>>,
    placed: Seq<(nat, usize)>,
    base: nat,
    j: nat,
) -> Seq<BlockV>
    decreases placed.len() - j,
{
    if j >= placed.len() {
        blocks
    } else {
        let (d, v) = placed[j as int];
        insert_phis(
            if d < blocks.len() && v < names.len() {
                blocks.update(
                    d as int,
                    BlockV {
                        instructions: blocks[d as int].instructions.insert(
                            0,
                            phi_instr(names[v as int], base + j),
                        ),
                        ..blocks[d as int]
                    },
                )
            } else {
                blocks
            },
            names,
            placed,
            base,
            j + 1,
        )
    }
}

/// Puts the Φs in front of their blocks, as [`insert_phis`] says.
fn insert_phi_instructions(
    blocks: &mut Vec<BasicBlock>,
    names: &Vec<String>,
    placed: &Vec<(BlockId, usize)>,
    base: usize,
)
    requires
        base + placed@.len() <= usize::MAX,
    ensures
        final(blocks).deep_view() == insert_phis(
            old(blocks).deep_view(),
            texts(names@),
            placed.deep_view(),
            base as nat,
            0,
        ),
        final(blocks)@.len() == old(blocks)@.len(),
{
    let ghost ns = texts(names@);
    let ghost ps = placed.deep_view();
    let mut j: usize = 0;
    while j < placed.len()
        invariant
            j <= placed.len(),
            base + placed@.len() <= usize::MAX,
            blocks@.len() == old(blocks)@.len(),
            ns == texts(names@),
            ps == placed.deep_view(),
            insert_phis(blocks.deep_view(), ns, ps, base as nat, j as nat) == insert_phis(
                old(blocks).deep_view(),
                ns,
                ps,
                base as nat,
                0,
            ),
        decreases placed.len() - j,
    {
        let d: usize = placed[j].0.0;
        let v: usize = placed[j].1;
        assert(ps[j as int] == (d as nat, v));
        if d < blocks.len() && v < names.len() {
            let phi = Instruction {
                id: InstrId(base + j),
                lvalue: Place { identifier: Identifier { name: names[v].clone(), id: 0 } },
                value: InstructionValue::Phi { operands: Vec::new() },
                scope: None,
            };
            proof {
                assert(phi.value.deep_view() == ValueV::Phi { operands: Seq::<(nat, IdentV)>::empty() }) by {
                    assert(phi.value->operands.deep_view() =~= Seq::<(nat, IdentV)>::empty());
                }
                assert(phi.deep_view() == phi_instr(ns[v as int], (base + j) as nat));
            }
            let ghost before = blocks.deep_view();
            let ghost before_instrs = blocks@[d as int].instructions.deep_view();
            blocks[d].instructions.insert(0, phi);
            proof {
                assert(blocks@[d as int].instructions.deep_view() =~= before_instrs.insert(
                    0,
                    phi.deep_view(),
                ));
                assert(blocks.deep_view() =~= before.update(
                    d as int,
                    BlockV {
                        instructions: before[d as int].instructions.insert(0, phi.deep_view()),
                        ..before[d as int]
                    },
                )) by {
                    assert forall|k: int| 0 <= k < blocks@.len() && k != d implies blocks.deep_view()[k]
                        == before[k] by {}
                }
            }
        }
        j += 1;
    }
}

/// The instructions of the blocks whose mark is not set.
pub open spec fn remaining(lens: Seq<nat>, visited: Seq<bool>) -> nat
    decreases visited.len(),
{
    if visited.len() == 0 || lens.len() != visited.len() {
        0
    } else {
        remaining(lens.drop_last(), visited.drop_last()) + if visited.last() {
            0nat
        } else {
            lens.last()
        }
    }
}

/// Marking a block takes its instructions out of the remaining ones.
pub proof fn lemma_remaining_update(lens: Seq<nat>, visited: Seq<bool>, b: int)
    requires
        lens.len() == visited.len(),
        0 <= b < visited.len(),
        !visited[b],
    ensures
        remaining(lens, visited.update(b, true)) + lens[b] == remaining(lens, visited),
    decreases visited.len(),
{
    let after = visited.update(b, true);
    if b == visited.len() - 1 {
        assert(after.drop_last() =~= visited.drop_last());
    } else {
        assert(after.drop_last() =~= visited.drop_last().update(b, true));
        lemma_remaining_update(lens.drop_last(), visited.drop_last(), b);
    }
}

/// The number of instructions of every block.
pub open spec fn lengths(blocks: Seq<BlockV>) -> Seq<nat> {
    Seq::new(blocks.len(), |i: int| blocks[i].instructions.len())
}

/// The number of instructions of a function.
pub open spec fn instr_total(blocks: Seq<BlockV>) -> nat {
    remaining(lengths(blocks), Seq::new(blocks.len(), |i: int| false))
}

/// Counts the instructions, detecting overflow.
fn total_instructions(blocks: &Vec<BasicBlock>) -> (r: Option<usize>)
    ensures
        r == crate::hir::budget::fits(instr_total(blocks.deep_view())),
{
    let ghost lens = lengths(blocks.deep_view());
    let ghost marks = Seq::new(blocks@.len(), |i: int| false);
    let mut total: usize = 0;
    let mut b: usize = 0;
    while b < blocks.len()
        invariant
            b <= blocks.len(),
            lens == lengths(blocks.deep_view()),
            marks == Seq::new(blocks@.len(), |i: int| false),
            total == remaining(lens.subrange(0, b as int), marks.subrange(0, b as int)),
        decreases blocks.len() - b,
    {
        let k: usize = blocks[b].instructions.len();
        proof {
            let l1 = lens.subrange(0, b + 1);
            let m1 = marks.subrange(0, b + 1);
            assert(l1.drop_last() =~= lens.subrange(0, b as int));
            assert(m1.drop_last() =~= marks.subrange(0, b as int));
            assert(l1.last() == k);
        }
        if k > usize::MAX - total {
            proof {
                lemma_remaining_prefix(lens, marks, (b + 1) as int);
            }
            return None;
        }
        total = total + k;
        b += 1;
    }
    assert(lens.subrange(0, b as int) =~= lens);
    assert(marks.subrange(0, b as int) =~= marks);
    Some(total)
}

/// The remaining instructions of a prefix are no more than those of the whole.
pub proof fn lemma_remaining_prefix(lens: Seq<nat>, visited: Seq<bool>, k: int)
    requires
        lens.len() == visited.len(),
        0 <= k <= visited.len(),
    ensures
        remaining(lens.subrange(0, k), visited.subrange(0, k)) <= remaining(lens, visited),
    decreases visited.len() - k,
{
    if k < visited.len() {
        lemma_remaining_prefix(lens, visited, k + 1);
        let l1 = lens.subrange(0, k + 1);
        let m1 = visited.subrange(0, k + 1);
        assert(l1.drop_last() =~= lens.subrange(0, k));
        assert(m1.drop_last() =~= visited.subrange(0, k));
    } else {
        assert(lens.subrange(0, k) =~= lens);
        assert(visited.subrange(0, k) =~= visited);
    }
}

/// The state of renaming: the blocks, and for every promotable variable its
/// stack of visible versions and the next version to give out.
pub ghost struct RenameV {
    pub blocks: Seq<BlockV>,
    pub stacks: Seq<Seq<usize>>,
    pub counters: Seq<usize>,
}

/// The version of `name` visible now: the top of its stack, 0 for a
/// variable that is not promotable or has no version yet.
pub open spec fn current_version(names: Seq<Seq<char>>, stacks: Seq<Seq<usize>>, name: Seq<char>) -> nat {
    match name_index(names, name, 0) {
        Some(k) => if k < stacks.len() && stacks[k as int].len() > 0 {
            stacks[k as int].last() as nat
        } else {
            0
        },
        None => 0,
    }
}

/// The blocks with instruction `i` of block `b` replaced.
pub open spec fn with_instr(blocks: Seq<BlockV>, b: nat, i: nat, instr: InstrV) -> Seq<BlockV> {
    blocks.update(
        b as int,
        BlockV {
            instructions: blocks[b as int].instructions.update(i as int, instr),
            ..blocks[b as int]
        },
    )
}

/// Variable `k` takes its next version, which becomes the visible one.
pub open spec fn issue(st: RenameV, k: nat) -> RenameV {
    RenameV {
        counters: st.counters.update(k as int, (st.counters[k as int] + 1) as usize),
        stacks: st.stacks.update(k as int, st.stacks[k as int].push(st.counters[k as int])),
        ..st
    }
}

/// Renames instruction `i` of block `b`: a Φ of a promotable variable
/// defines a new version; a load reads the visible version; a store into a
/// promotable variable becomes the definition of a new version as a copy of
/// the stored value.  The result names the variable that got a version.
pub open spec fn rename_instr(names: Seq<Seq<char>>, st: RenameV, b: nat, i: nat) -> (
    RenameV,
    Option<nat>,
) {
    let instr = st.blocks[b as int].instructions[i as int];
    match instr.value {
        ValueV::Phi { .. } => match name_index(names, instr.lvalue.name, 0) {
            Some(k) => (
                RenameV {
                    blocks: with_instr(
                        st.blocks,
                        b,
                        i,
                        InstrV {
                            lvalue: IdentV {
                                name: instr.lvalue.name,
                                id: st.counters[k as int] as nat,
                            },
                            ..instr
                        },
                    ),
                    ..issue(st, k)
                },
                Some(k),
            ),
            None => (st, None),
        },
        ValueV::LoadLocal(p) => (
            RenameV {
                blocks: with_instr(
                    st.blocks,
                    b,
                    i,
                    InstrV {
                        value: ValueV::LoadLocal(
                            IdentV { name: p.name, id: current_version(names, st.stacks, p.name) },
                        ),
                        ..instr
                    },
                ),
                ..st
            },
            None,
        ),
        ValueV::StoreLocal(target, val) => match name_index(names, target.name, 0) {
            Some(k) => (
                RenameV {
                    blocks: with_instr(
                        st.blocks,
                        b,
                        i,
                        InstrV {
                            lvalue: IdentV { name: target.name, id: st.counters[k as int] as nat },
                            value: ValueV::LoadLocal(val),
                            ..instr
                        },
                    ),
                    ..issue(st, k)
                },
                Some(k),
            ),
            None => (st, None),
        },
        _ => (st, None),
    }
}

/// Renames the instructions from `i` on of block `b`, which has `len`
/// instructions, and lists after `pushed` the variables that got versions.
pub open spec fn rename_instrs(
    names: Seq<Seq<char>>,
    st: RenameV,
    b: nat,
    i: nat,
    len: nat,
    pushed: Seq<usize>,
) -> (RenameV, Seq<usize>)
    decreases len - i,
{
    if i >= len {
        (st, pushed)
    } else {
        let (s1, p) = rename_instr(names, st, b, i);
        rename_instrs(
            names,
            s1,
            b,
            i + 1,
            len,
            match p {
                Some(k) => pushed.push(k as usize),
                None => pushed,
            },
        )
    }
}

/// The leading Φs from `i` on of block `succ` that belong to promotable
/// variables get the operand for the edge from `from`: the visible version.
pub open spec fn add_operands_block(
    names: Seq<Seq<char>>,
    st: RenameV,
    from: nat,
    succ: nat,
    i: nat,
    len: nat,
) -> RenameV
    decreases len - i,
{
    if i >= len {
        st
    } else {
        let instr = st.blocks[succ as int].instructions[i as int];
        match instr.value {
            ValueV::Phi { operands } => add_operands_block(
                names,
                if name_index(names, instr.lvalue.name, 0) is Some {
                    RenameV {
                        blocks: with_instr(
                            st.blocks,
                            succ,
                            i,
                            InstrV {
                                value: ValueV::Phi {
                                    operands: operands.push(
                                        (
                                            from,
                                            IdentV {
                                                name: instr.lvalue.name,
                                                id: current_version(
                                                    names,
                                                    st.stacks,
                                                    instr.lvalue.name,
                                                ),
                                            },
                                        ),
                                    ),
                                },
                                ..instr
                            },
                        ),
                        ..st
                    }
                } else {
                    st
                },
                from,
                succ,
                i + 1,
                len,
            ),
            _ => st,
        }
    }
}

/// The Φs of the successors from `j` on get their operands for the edges
/// from `from`.
pub open spec fn add_operands(
    names: Seq<Seq<char>>,
    st: RenameV,
    from: nat,
    succs: Seq<nat>,
    j: nat,
) -> RenameV
    decreases succs.len() - j,
{
    if j >= succs.len() {
        st
    } else {
        let t = succs[j as int];
        add_operands(
            names,
            if t < st.blocks.len() {
                add_operands_block(
                    names,
                    st,
                    from,
                    t,
                    0,
                    st.blocks[t as int].instructions.len(),
                )
            } else {
                st
            },
            from,
            succs,
            j + 1,
        )
    }
}

/// The versions pushed for the variables from `j` on are taken off again.
pub open spec fn pop_all(st: RenameV, pushed: Seq<usize>, j: nat) -> RenameV
    decreases pushed.len() - j,
{
    if j >= pushed.len() {
        st
    } else {
        let k = pushed[j as int] as int;
        pop_all(
            if k < st.stacks.len() && st.stacks[k].len() > 0 {
                RenameV { stacks: st.stacks.update(k, st.stacks[k].drop_last()), ..st }
            } else {
                st
            },
            pushed,
            j + 1,
        )
    }
}

/// Renames the children from `c` on of block `b` in the dominator tree, in
/// ascending order.
pub open spec fn rename_children(
    names: Seq<Seq<char>>,
    idoms: Seq<Option<nat>>,
    st: RenameV,
    visited: Seq<bool>,
    b: nat,
    c: nat,
) -> (RenameV, Seq<bool>)
    decreases unvisited(visited), 1 + idoms.len() - c,
{
    if c >= idoms.len() {
        (st, visited)
    } else if idoms[c as int] == Some(b) && c != b {
        let (s1, v1) = rename(names, idoms, st, visited, c);
        if unvisited(v1) <= unvisited(visited) {
            rename_children(names, idoms, s1, v1, b, c + 1)
        } else {
            (s1, v1)
        }
    } else {
        rename_children(names, idoms, st, visited, b, c + 1)
    }
}

/// Renames block `b` and the blocks it dominates: its instructions, then
/// the Φ operands of its successors, then its children in the dominator
/// tree; the versions it pushed are taken off at the end.  A block is
/// renamed once.
pub open spec fn rename(
    names: Seq<Seq<char>>,
    idoms: Seq<Option<nat>>,
    st: RenameV,
    visited: Seq<bool>,
    b: nat,
) -> (RenameV, Seq<bool>)
    decreases unvisited(visited), 0nat,
    via rename_decreases
{
    if b >= st.blocks.len() || b >= visited.len() || visited[b as int] {
        (st, visited)
    } else {
        let (s1, pushed) = rename_instrs(
            names,
            st,
            b,
            0,
            st.blocks[b as int].instructions.len(),
            Seq::empty(),
        );
        let s2 = add_operands(
            names,
            s1,
            s1.blocks[b as int].id,
            term_successors(s1.blocks[b as int].terminal),
            0,
        );
        let (s3, v3) = rename_children(names, idoms, s2, visited.update(b as int, true), b, 0);
        (pop_all(s3, pushed, 0), v3)
    }
}

#[via_fn]
proof fn rename_decreases(
    names: Seq<Seq<char>>,
    idoms: Seq<Option<nat>>,
    st: RenameV,
    visited: Seq<bool>,
    b: nat,
) {
    if b < visited.len() && !visited[b as int] {
        lemma_unvisited_update(visited, b as int);
    }
}

/// The state before renaming: every promotable variable has version 0 on
/// its stack and gives out version 1 next.
pub open spec fn initial_rename(blocks: Seq<BlockV>, vars: nat) -> RenameV {
    RenameV {
        blocks,
        stacks: Seq::new(vars, |k: int| seq![0usize]),
        counters: Seq::new(vars, |k: int| 1usize),
    }
}

/// Every definition of a promotable variable has a version that was given
/// out already: it is below the variable's counter, and counters start at 1.
pub open spec fn versions_below(names: Seq<Seq<char>>, blocks: Seq<BlockV>, counters: Seq<usize>) -> bool {
    &&& counters.len() == names.len()
    &&& forall|k: int| 0 <= k < counters.len() ==> #[trigger] counters[k] >= 1
    &&& forall|b: int, i: int|
        #![trigger lvalue_at(blocks, b, i)]
        at(blocks, b, i) ==> (name_index(names, lvalue_at(blocks, b, i).name, 0) matches Some(k)
            ==> lvalue_at(blocks, b, i).id < counters[k as int])
}

/// The definitions are consistent with the counters.
pub open spec fn versions_ok(names: Seq<Seq<char>>, blocks: Seq<BlockV>, counters: Seq<usize>) -> bool {
    single_versions(blocks) && versions_below(names, blocks, counters)
}

/// What [`name_index`] finds is a position of the name.
pub proof fn lemma_name_index(names: Seq<Seq<char>>, name: Seq<char>, i: nat)
    ensures
        name_index(names, name, i) matches Some(k) ==> i <= k < names.len() && names[k as int]
            == name,
        (exists|j: int| i <= j < names.len() && names[j] == name) ==> name_index(names, name, i)
            is Some,
    decreases names.len() - i,
{
    if i < names.len() && names[i as int] != name {
        lemma_name_index(names, name, i + 1);
    }
}

/// Replacing an instruction by one with a freshly given version keeps the
/// definitions consistent.
pub proof fn lemma_define_version(
    names: Seq<Seq<char>>,
    blocks: Seq<BlockV>,
    counters: Seq<usize>,
    b: int,
    i: int,
    k: int,
    instr: InstrV,
)
    requires
        versions_ok(names, blocks, counters),
        at(blocks, b, i),
        name_index(names, instr.lvalue.name, 0) == Some(k as nat),
        0 <= k < counters.len(),
        counters[k] < usize::MAX,
        instr.lvalue.id == counters[k],
    ensures
        versions_ok(
            names,
            with_instr(blocks, b as nat, i as nat, instr),
            counters.update(k, (counters[k] + 1) as usize),
        ),
{
    let after = with_instr(blocks, b as nat, i as nat, instr);
    let next = counters.update(k, (counters[k] + 1) as usize);
    assert forall|b1: int, i1: int| at(after, b1, i1) implies at(blocks, b1, i1) && (b1 != b || i1
        != i ==> #[trigger] lvalue_at(after, b1, i1) == lvalue_at(blocks, b1, i1)) by {}
    assert(lvalue_at(after, b, i) == instr.lvalue);
    assert forall|b1: int, i1: int|
        #![trigger lvalue_at(after, b1, i1)]
        at(after, b1, i1) implies (name_index(names, lvalue_at(after, b1, i1).name, 0) matches Some(
        j,
    ) ==> lvalue_at(after, b1, i1).id < next[j as int]) by {
        lemma_name_index(names, lvalue_at(after, b1, i1).name, 0);
        if b1 == b && i1 == i {
        } else {
            assert(lvalue_at(after, b1, i1) == lvalue_at(blocks, b1, i1));
        }
    }
    assert forall|b1: int, i1: int, b2: int, i2: int|
        #![trigger lvalue_at(after, b1, i1), lvalue_at(after, b2, i2)]
        at(after, b1, i1) && at(after, b2, i2) && (b1 != b2 || i1 != i2) && lvalue_at(
            after,
            b1,
            i1,
        ).id >= 1 implies lvalue_at(after, b1, i1) != lvalue_at(after, b2, i2) by {
        if b1 == b && i1 == i {
            assert(lvalue_at(after, b2, i2) == lvalue_at(blocks, b2, i2));
            if lvalue_at(blocks, b2, i2) == instr.lvalue {
                assert(lvalue_at(blocks, b2, i2).id < counters[k]);
            }
        } else if b2 == b && i2 == i {
            assert(lvalue_at(after, b1, i1) == lvalue_at(blocks, b1, i1));
            if lvalue_at(blocks, b1, i1) == instr.lvalue {
                assert(lvalue_at(blocks, b1, i1).id < counters[k]);
            }
        } else {
            assert(lvalue_at(after, b1, i1) == lvalue_at(blocks, b1, i1));
            assert(lvalue_at(after, b2, i2) == lvalue_at(blocks, b2, i2));
        }
    }
}

/// Replacing an instruction by one that defines the same identifier keeps
/// the definitions consistent.
pub proof fn lemma_keep_lvalue(
    names: Seq<Seq<char>>,
    blocks: Seq<BlockV>,
    counters: Seq<usize>,
    b: int,
    i: int,
    instr: InstrV,
)
    requires
        versions_ok(names, blocks, counters),
        at(blocks, b, i),
        instr.lvalue == lvalue_at(blocks, b, i),
    ensures
        versions_ok(names, with_instr(blocks, b as nat, i as nat, instr), counters),
{
    let after = with_instr(blocks, b as nat, i as nat, instr);
    assert forall|b1: int, i1: int| at(after, b1, i1) implies at(blocks, b1, i1)
        && #[trigger] lvalue_at(after, b1, i1) == lvalue_at(blocks, b1, i1) by {}
    assert forall|b1: int, i1: int, b2: int, i2: int|
        #![trigger lvalue_at(after, b1, i1), lvalue_at(after, b2, i2)]
        at(after, b1, i1) && at(after, b2, i2) && (b1 != b2 || i1 != i2) && lvalue_at(
            after,
            b1,
            i1,
        ).id >= 1 implies lvalue_at(after, b1, i1) != lvalue_at(after, b2, i2) by {
        assert(lvalue_at(after, b1, i1) == lvalue_at(blocks, b1, i1));
        assert(lvalue_at(after, b2, i2) == lvalue_at(blocks, b2, i2));
    }
}

/// Renaming one instruction keeps the definitions consistent.
pub proof fn lemma_rename_instr(names: Seq<Seq<char>>, st: RenameV, b: nat, i: nat)
    requires
        versions_ok(names, st.blocks, st.counters),
        at(st.blocks, b as int, i as int),
        forall|k: int| 0 <= k < st.counters.len() ==> #[trigger] st.counters[k] < usize::MAX,
    ensures
        versions_ok(
            names,
            rename_instr(names, st, b, i).0.blocks,
            rename_instr(names, st, b, i).0.counters,
        ),
{
    let instr = st.blocks[b as int].instructions[i as int];
    assert(lvalue_at(st.blocks, b as int, i as int) == instr.lvalue);
    match instr.value {
        ValueV::Phi { .. } => {
            lemma_name_index(names, instr.lvalue.name, 0);
            match name_index(names, instr.lvalue.name, 0) {
                Some(k) => {
                    lemma_define_version(
                        names,
                        st.blocks,
                        st.counters,
                        b as int,
                        i as int,
                        k as int,
                        InstrV {
                            lvalue: IdentV {
                                name: instr.lvalue.name,
                                id: st.counters[k as int] as nat,
                            },
                            ..instr
                        },
                    );
                },
                None => {},
            }
        },
        ValueV::LoadLocal(p) => {
            lemma_keep_lvalue(
                names,
                st.blocks,
                st.counters,
                b as int,
                i as int,
                InstrV {
                    value: ValueV::LoadLocal(
                        IdentV { name: p.name, id: current_version(names, st.stacks, p.name) },
                    ),
                    ..instr
                },
            );
        },
        ValueV::StoreLocal(target, val) => {
            lemma_name_index(names, target.name, 0);
            match name_index(names, target.name, 0) {
                Some(k) => {
                    lemma_define_version(
                        names,
                        st.blocks,
                        st.counters,
                        b as int,
                        i as int,
                        k as int,
                        InstrV {
                            lvalue: IdentV { name: target.name, id: st.counters[k as int] as nat },
                            value: ValueV::LoadLocal(val),
                            ..instr
                        },
                    );
                },
                None => {},
            }
        },
        _ => {},
    }
}

/// Adding Φ operands keeps the definitions consistent and the blocks in
/// number and length.
pub proof fn lemma_add_operands_block(
    names: Seq<Seq<char>>,
    st: RenameV,
    from: nat,
    succ: nat,
    i: nat,
    len: nat,
)
    requires
        versions_ok(names, st.blocks, st.counters),
        succ < st.blocks.len(),
        len == st.blocks[succ as int].instructions.len(),
    ensures
        versions_ok(
            names,
            add_operands_block(names, st, from, succ, i, len).blocks,
            add_operands_block(names, st, from, succ, i, len).counters,
        ),
        add_operands_block(names, st, from, succ, i, len).counters == st.counters,
    decreases len - i,
{
    if i < len {
        let instr = st.blocks[succ as int].instructions[i as int];
        match instr.value {
            ValueV::Phi { operands } => {
                if name_index(names, instr.lvalue.name, 0) is Some {
                    let changed = InstrV {
                        value: ValueV::Phi {
                            operands: operands.push(
                                (
                                    from,
                                    IdentV {
                                        name: instr.lvalue.name,
                                        id: current_version(names, st.stacks, instr.lvalue.name),
                                    },
                                ),
                            ),
                        },
                        ..instr
                    };
                    lemma_keep_lvalue(names, st.blocks, st.counters, succ as int, i as int, changed);
                    let next = RenameV {
                        blocks: with_instr(st.blocks, succ, i, changed),
                        ..st
                    };
                    lemma_add_operands_block(names, next, from, succ, i + 1, len);
                } else {
                    lemma_add_operands_block(names, st, from, succ, i + 1, len);
                }
            },
            _ => {},
        }
    }
}

/// Adding the Φ operands of all successors keeps the definitions
/// consistent.
pub proof fn lemma_add_operands(names: Seq<Seq<char>>, st: RenameV, from: nat, succs: Seq<nat>, j: nat)
    requires
        versions_ok(names, st.blocks, st.counters),
    ensures
        versions_ok(
            names,
            add_operands(names, st, from, succs, j).blocks,
            add_operands(names, st, from, succs, j).counters,
        ),
        add_operands(names, st, from, succs, j).counters == st.counters,
    decreases succs.len() - j,
{
    if j < succs.len() {
        let t = succs[j as int];
        if t < st.blocks.len() {
            let len = st.blocks[t as int].instructions.len();
            lemma_add_operands_block(names, st, from, t, 0, len);
            lemma_add_operands(
                names,
                add_operands_block(names, st, from, t, 0, len),
                from,
                succs,
                j + 1,
            );
        } else {
            lemma_add_operands(names, st, from, succs, j + 1);
        }
    }
}

/// Taking versions off the stacks touches neither blocks nor counters.
pub proof fn lemma_pop_all(st: RenameV, pushed: Seq<usize>, j: nat)
    ensures
        pop_all(st, pushed, j).blocks == st.blocks,
        pop_all(st, pushed, j).counters == st.counters,
    decreases pushed.len() - j,
{
    if j < pushed.len() {
        let k = pushed[j as int] as int;
        let next = if k < st.stacks.len() && st.stacks[k].len() > 0 {
            RenameV { stacks: st.stacks.update(k, st.stacks[k].drop_last()), ..st }
        } else {
            st
        };
        lemma_pop_all(next, pushed, j + 1);
    }
}

/// Putting Φs without version in front of blocks keeps the definitions
/// consistent with counters that all stand at 1.
pub proof fn lemma_insert_phis(
    blocks: Seq<BlockV>,
    names: Seq<Seq<char>>,
    placed: Seq<(nat, usize)>,
    base: nat,
    j: nat,
    counters: Seq<usize>,
)
    requires
        versions_ok(names, blocks, counters),
    ensures
        versions_ok(names, insert_phis(blocks, names, placed, base, j), counters),
    decreases placed.len() - j,
{
    if j < placed.len() {
        let (d, v) = placed[j as int];
        if d < blocks.len() && v < names.len() {
            let phi = phi_instr(names[v as int], base + j);
            let after = blocks.update(
                d as int,
                BlockV {
                    instructions: blocks[d as int].instructions.insert(0, phi),
                    ..blocks[d as int]
                },
            );
            lemma_name_index(names, names[v as int], 0);
            assert forall|b1: int, i1: int| at(after, b1, i1) implies if b1 == d {
                if i1 == 0 {
                    #[trigger] lvalue_at(after, b1, i1) == phi.lvalue
                } else {
                    at(blocks, b1, i1 - 1) && lvalue_at(after, b1, i1) == lvalue_at(
                        blocks,
                        b1,
                        i1 - 1,
                    )
                }
            } else {
                at(blocks, b1, i1) && lvalue_at(after, b1, i1) == lvalue_at(blocks, b1, i1)
            } by {}
            assert forall|b1: int, i1: int|
                #![trigger lvalue_at(after, b1, i1)]
                at(after, b1, i1) implies (name_index(
                names,
                lvalue_at(after, b1, i1).name,
                0,
            ) matches Some(k) ==> lvalue_at(after, b1, i1).id < counters[k as int]) by {
                if b1 == d {
                    if i1 == 0 {
                        assert(lvalue_at(after, b1, i1) == phi.lvalue);
                    } else {
                        assert(lvalue_at(after, b1, i1) == lvalue_at(blocks, b1, i1 - 1));
                    }
                } else {
                    assert(lvalue_at(after, b1, i1) == lvalue_at(blocks, b1, i1));
                }
            }
            assert forall|b1: int, i1: int, b2: int, i2: int|
                #![trigger lvalue_at(after, b1, i1), lvalue_at(after, b2, i2)]
                at(after, b1, i1) && at(after, b2, i2) && (b1 != b2 || i1 != i2) && lvalue_at(
                    after,
                    b1,
                    i1,
                ).id >= 1 implies lvalue_at(after, b1, i1) != lvalue_at(after, b2, i2) by {
                let o1 = if b1 == d {
                    i1 - 1
                } else {
                    i1
                };
                let o2 = if b2 == d {
                    i2 - 1
                } else {
                    i2
                };
                if b1 == d && i1 == 0 {
                    assert(lvalue_at(after, b1, i1) == phi.lvalue);
                } else if b2 == d && i2 == 0 {
                    assert(lvalue_at(after, b2, i2) == phi.lvalue);
                    assert(lvalue_at(after, b1, i1) == lvalue_at(blocks, b1, o1));
                } else {
                    assert(lvalue_at(after, b1, i1) == lvalue_at(blocks, b1, o1));
                    assert(lvalue_at(after, b2, i2) == lvalue_at(blocks, b2, o2));
                }
            }
            lemma_insert_phis(after, names, placed, base, j + 1, counters);
        } else {
            lemma_insert_phis(blocks, names, placed, base, j + 1, counters);
        }
    }
}

/// Replacing one instruction of one block replaces it in the model.
pub proof fn lemma_with_instr(before: Vec<BasicBlock>, after: Vec<BasicBlock>, b: int, i: int)
    requires
        0 <= b < before@.len(),
        0 <= i < before@[b].instructions@.len(),
        after@.len() == before@.len(),
        forall|k: int| 0 <= k < before@.len() && k != b ==> after@[k] == before@[k],
        after@[b].id == before@[b].id,
        after@[b].terminal == before@[b].terminal,
        after@[b].preds == before@[b].preds,
        after@[b].instructions@.len() == before@[b].instructions@.len(),
        forall|j: int|
            0 <= j < before@[b].instructions@.len() && j != i ==> after@[b].instructions@[j]
                == before@[b].instructions@[j],
    ensures
        after.deep_view() == with_instr(
            before.deep_view(),
            b as nat,
            i as nat,
            after@[b].instructions@[i].deep_view(),
        ),
        lengths(after.deep_view()) == lengths(before.deep_view()),
{
    let instr = after@[b].instructions@[i].deep_view();
    assert(after@[b].instructions.deep_view() =~= before@[b].instructions.deep_view().update(
        i,
        instr,
    ));
    assert(after.deep_view() =~= with_instr(before.deep_view(), b as nat, i as nat, instr));
    assert(lengths(after.deep_view()) =~= lengths(before.deep_view()));
}

/// The version stacks and counters of renaming.
pub struct RenameContext {
    names: Vec<String>,
    stacks: Vec<Vec<usize>>,
    counters: Vec<usize>,
    visited: Vec<bool>,
    bound: Ghost<nat>,
}

impl RenameContext {
    /// The renaming state over the given blocks.
    pub closed spec fn state(&self, blocks: Seq<BlockV>) -> RenameV {
        RenameV { blocks, stacks: self.stacks.deep_view(), counters: self.counters@ }
    }

    /// The lists are parallel and no counter is above the bound.
    pub closed spec fn wf(&self) -> bool {
        &&& self.names@.len() == self.stacks@.len()
        &&& self.names@.len() == self.counters@.len()
        &&& forall|k: int| 0 <= k < self.counters@.len() ==> #[trigger] self.counters@[k] <= self.bound@
    }

    /// Gives out the next version of variable `k`, as [`issue`] says.
    fn new_version(&mut self, k: usize) -> (v: usize)
        requires
            old(self).wf(),
            k < old(self).counters@.len(),
            old(self).bound@ < usize::MAX,
        ensures
            final(self).wf(),
            final(self).names == old(self).names,
            final(self).visited == old(self).visited,
            final(self).bound@ == old(self).bound@ + 1,
            v == old(self).counters@[k as int],
            forall|bs: Seq<BlockV>| #[trigger] final(self).state(bs) == issue(old(self).state(bs), k as nat),
    {
        let v: usize = self.counters[k];
        self.counters[k] = v + 1;
        let ghost before = self.stacks.deep_view();
        let ghost prev = self.stacks;
        self.stacks[k].push(v);
        proof {
            self.bound@ = self.bound@ + 1;
            assert(self.stacks@[k as int].deep_view() =~= prev@[k as int].deep_view().push(v));
            assert forall|j: int| 0 <= j < prev@.len() && j != k implies self.stacks.deep_view()[j]
                == before[j] by {
                assert(self.stacks@[j] == prev@[j]);
            }
            assert(self.stacks.deep_view() =~= before.update(k as int, before[k as int].push(v)));
            assert forall|bs: Seq<BlockV>| #[trigger] self.state(bs) == issue(old(self).state(bs), k as nat) by {
                assert(self.state(bs).counters =~= issue(old(self).state(bs), k as nat).counters);
            }
        }
        v
    }

    /// The visible version of `name`, as [`current_version`] says.
    fn current_version(&self, name: &String) -> (v: usize)
        requires
            self.wf(),
        ensures
            v == current_version(texts(self.names@), self.stacks.deep_view(), name@),
    {
        match find_name(&self.names, name) {
            Some(k) => {
                let n: usize = self.stacks[k].len();
                if n > 0 {
                    assert(self.stacks.deep_view()[k as int].last() == self.stacks@[k as int]@[n - 1]);
                    self.stacks[k][n - 1]
                } else {
                    0
                }
            },
            None => 0,
        }
    }

    /// Takes the visible version of variable `k` off its stack.
    fn pop_version(&mut self, k: usize)
        requires
            old(self).wf(),
        ensures
            final(self).wf(),
            final(self).names == old(self).names,
            final(self).visited == old(self).visited,
            final(self).bound == old(self).bound,
            final(self).counters == old(self).counters,
            final(self).stacks.deep_view() == if k < old(self).stacks@.len() && old(
                self,
            ).stacks.deep_view()[k as int].len() > 0 {
                old(self).stacks.deep_view().update(
                    k as int,
                    old(self).stacks.deep_view()[k as int].drop_last(),
                )
            } else {
                old(self).stacks.deep_view()
            },
    {
        if k < self.stacks.len() {
            let ghost before = self.stacks.deep_view();
            let ghost prev = self.stacks;
            self.stacks[k].pop();
            proof {
                assert forall|j: int| 0 <= j < prev@.len() && j != k implies self.stacks.deep_view()[j]
                    == before[j] by {
                    assert(self.stacks@[j] == prev@[j]);
                }
                if before[k as int].len() > 0 {
                    assert(self.stacks@[k as int].deep_view() =~= prev@[k as int].deep_view().drop_last());
                } else {
                    assert(self.stacks@[k as int].deep_view() =~= prev@[k as int].deep_view());
                }
                if before[k as int].len() > 0 {
                    assert(self.stacks.deep_view() =~= before.update(
                        k as int,
                        before[k as int].drop_last(),
                    ));
                } else {
                    assert(self.stacks.deep_view() =~= before);
                }
            }
        }
    }
}

/// Renames one instruction, as [`rename_instr`] says.
fn rename_instruction(
    blocks: &mut Vec<BasicBlock>,
    ctx: &mut RenameContext,
    b: usize,
    i: usize,
    pushed: &mut Vec<usize>,
)
    requires
        old(ctx).wf(),
        b < old(blocks)@.len(),
        i < old(blocks)@[b as int].instructions@.len(),
        old(ctx).bound@ < usize::MAX,
    ensures
        final(ctx).wf(),
        final(ctx).names == old(ctx).names,
        final(ctx).visited == old(ctx).visited,
        final(ctx).bound@ <= old(ctx).bound@ + 1,
        final(blocks)@.len() == old(blocks)@.len(),
        lengths(final(blocks).deep_view()) == lengths(old(blocks).deep_view()),
        final(blocks)@[b as int].instructions@.len() == old(blocks)@[b as int].instructions@.len(),
        ({
            let (s1, p) = rename_instr(
                texts(old(ctx).names@),
                old(ctx).state(old(blocks).deep_view()),
                b as nat,
                i as nat,
            );
            &&& final(ctx).state(final(blocks).deep_view()) == s1
            &&& final(pushed)@ == match p {
                Some(k) => old(pushed)@.push(k as usize),
                None => old(pushed)@,
            }
        }),
        versions_ok(texts(old(ctx).names@), old(blocks).deep_view(), old(ctx).counters@)
            ==> versions_ok(
            texts(old(ctx).names@),
            final(blocks).deep_view(),
            final(ctx).counters@,
        ),
{
    let ghost names = texts(ctx.names@);
    let ghost st = ctx.state(blocks.deep_view());
    let ghost prev = *blocks;
    proof {
        if versions_ok(names, st.blocks, st.counters) {
            lemma_rename_instr(names, st, b as nat, i as nat);
        }
    }
    let ghost instr = blocks@[b as int].instructions@[i as int];
    assert(st.blocks[b as int].instructions[i as int] == instr.deep_view());
    let kind: u8 = match &blocks[b].instructions[i].value {
        InstructionValue::Phi { .. } => 1,
        InstructionValue::LoadLocal(_) => 2,
        InstructionValue::StoreLocal(_, _) => 3,
        _ => 0,
    };
    if kind == 1 {
        match find_name(&ctx.names, &blocks[b].instructions[i].lvalue.identifier.name) {
            Some(k) => {
                let v = ctx.new_version(k);
                blocks[b].instructions[i].lvalue.identifier.id = v;
                pushed.push(k);
                proof {
                    lemma_with_instr(prev, *blocks, b as int, i as int);
                    assert(blocks@[b as int].instructions@[i as int].value == instr.value);
                }
            },
            None => {},
        }
    } else if kind == 2 {
        let place = match &blocks[b].instructions[i].value {
            InstructionValue::LoadLocal(p) => {
                let v = ctx.current_version(&p.identifier.name);
                Place { identifier: Identifier { name: p.identifier.name.clone(), id: v } }
            },
            _ => Place { identifier: Identifier { name: String::new(), id: 0 } },
        };
        blocks[b].instructions[i].value = InstructionValue::LoadLocal(place);
        proof {
            lemma_with_instr(prev, *blocks, b as int, i as int);
        }
    } else if kind == 3 {
        let found = match &blocks[b].instructions[i].value {
            InstructionValue::StoreLocal(target, val) => {
                match find_name(&ctx.names, &target.identifier.name) {
                    Some(k) => Some((k, target.identifier.name.clone(), val.clone())),
                    None => None,
                }
            },
            _ => None,
        };
        match found {
            Some((k, name, val)) => {
                let v = ctx.new_version(k);
                blocks[b].instructions[i].lvalue = Place { identifier: Identifier { name, id: v } };
                blocks[b].instructions[i].value = InstructionValue::LoadLocal(val);
                pushed.push(k);
                proof {
                    lemma_with_instr(prev, *blocks, b as int, i as int);
                }
            },
            None => {},
        }
    }
}

/// Renames the instructions of a block, as [`rename_instrs`] says.
fn rename_instructions(blocks: &mut Vec<BasicBlock>, ctx: &mut RenameContext, b: usize) -> (pushed: Vec<
    usize,
>)
    requires
        old(ctx).wf(),
        b < old(blocks)@.len(),
        old(ctx).bound@ + old(blocks)@[b as int].instructions@.len() <= usize::MAX,
    ensures
        final(ctx).wf(),
        final(ctx).names == old(ctx).names,
        final(ctx).visited == old(ctx).visited,
        final(ctx).bound@ <= old(ctx).bound@ + old(blocks)@[b as int].instructions@.len(),
        final(blocks)@.len() == old(blocks)@.len(),
        lengths(final(blocks).deep_view()) == lengths(old(blocks).deep_view()),
        (final(ctx).state(final(blocks).deep_view()), pushed@) == rename_instrs(
            texts(old(ctx).names@),
            old(ctx).state(old(blocks).deep_view()),
            b as nat,
            0,
            old(blocks)@[b as int].instructions@.len() as nat,
            Seq::empty(),
        ),
        versions_ok(texts(old(ctx).names@), old(blocks).deep_view(), old(ctx).counters@)
            ==> versions_ok(
            texts(old(ctx).names@),
            final(blocks).deep_view(),
            final(ctx).counters@,
        ),
{
    let ghost names = texts(ctx.names@);
    let len: usize = blocks[b].instructions.len();
    let mut pushed: Vec<usize> = Vec::new();
    let mut i: usize = 0;
    while i < len
        invariant
            i <= len,
            ctx.wf(),
            ctx.names == old(ctx).names,
            ctx.visited == old(ctx).visited,
            names == texts(ctx.names@),
            b < blocks@.len(),
            blocks@.len() == old(blocks)@.len(),
            len == blocks@[b as int].instructions@.len(),
            len == old(blocks)@[b as int].instructions@.len(),
            ctx.bound@ <= old(ctx).bound@ + i,
            old(ctx).bound@ + len <= usize::MAX,
            lengths(blocks.deep_view()) == lengths(old(blocks).deep_view()),
            versions_ok(names, old(blocks).deep_view(), old(ctx).counters@) ==> versions_ok(
                names,
                blocks.deep_view(),
                ctx.counters@,
            ),
            rename_instrs(
                names,
                ctx.state(blocks.deep_view()),
                b as nat,
                i as nat,
                len as nat,
                pushed@,
            ) == rename_instrs(
                names,
                old(ctx).state(old(blocks).deep_view()),
                b as nat,
                0,
                len as nat,
                Seq::empty(),
            ),
        decreases len - i,
    {
        rename_instruction(blocks, ctx, b, i, &mut pushed);
        i += 1;
    }
    pushed
}

/// Adds the operands for the edge from `from` to the leading Φs of block
/// `t`, as [`add_operands_block`] says.
fn add_block_operands(blocks: &mut Vec<BasicBlock>, ctx: &RenameContext, from: BlockId, t: usize)
    requires
        ctx.wf(),
        t < old(blocks)@.len(),
    ensures
        final(blocks)@.len() == old(blocks)@.len(),
        lengths(final(blocks).deep_view()) == lengths(old(blocks).deep_view()),
        forall|k: int|
            0 <= k < old(blocks)@.len() ==> (#[trigger] final(blocks)@[k]).id == old(blocks)@[k].id
                && final(blocks)@[k].terminal == old(blocks)@[k].terminal,
        ctx.state(final(blocks).deep_view()) == add_operands_block(
            texts(ctx.names@),
            ctx.state(old(blocks).deep_view()),
            from.deep_view(),
            t as nat,
            0,
            old(blocks)@[t as int].instructions@.len() as nat,
        ),
        versions_ok(texts(ctx.names@), old(blocks).deep_view(), ctx.counters@) ==> versions_ok(
            texts(ctx.names@),
            final(blocks).deep_view(),
            ctx.counters@,
        ),
{
    let ghost names = texts(ctx.names@);
    let len: usize = blocks[t].instructions.len();
    let ghost target = add_operands_block(
        names,
        ctx.state(blocks.deep_view()),
        from.deep_view(),
        t as nat,
        0,
        len as nat,
    );
    proof {
        let st = ctx.state(blocks.deep_view());
        if versions_ok(names, st.blocks, st.counters) {
            lemma_add_operands_block(names, st, from.deep_view(), t as nat, 0, len as nat);
        }
    }
    let mut i: usize = 0;
    while i < len
        invariant
            i <= len,
            ctx.wf(),
            names == texts(ctx.names@),
            versions_ok(names, old(blocks).deep_view(), ctx.counters@) ==> versions_ok(
                names,
                target.blocks,
                ctx.counters@,
            ),
            target == add_operands_block(
                names,
                ctx.state(old(blocks).deep_view()),
                from.deep_view(),
                t as nat,
                0,
                len as nat,
            ),
            t < blocks@.len(),
            blocks@.len() == old(blocks)@.len(),
            len == blocks@[t as int].instructions@.len(),
            len == old(blocks)@[t as int].instructions@.len(),
            lengths(blocks.deep_view()) == lengths(old(blocks).deep_view()),
            forall|k: int|
                0 <= k < old(blocks)@.len() ==> (#[trigger] blocks@[k]).id == old(blocks)@[k].id
                    && blocks@[k].terminal == old(blocks)@[k].terminal,
            add_operands_block(
                names,
                ctx.state(blocks.deep_view()),
                from.deep_view(),
                t as nat,
                i as nat,
                len as nat,
            ) == add_operands_block(
                names,
                ctx.state(old(blocks).deep_view()),
                from.deep_view(),
                t as nat,
                0,
                len as nat,
            ),
        decreases len - i,
    {
        let ghost prev = *blocks;
        let ghost instr = blocks@[t as int].instructions@[i as int];
        assert(ctx.state(blocks.deep_view()).blocks[t as int].instructions[i as int]
            == instr.deep_view());
        let is_phi: bool = match &blocks[t].instructions[i].value {
            InstructionValue::Phi { .. } => true,
            _ => false,
        };
        if !is_phi {
            return ;
        }
        match find_name(&ctx.names, &blocks[t].instructions[i].lvalue.identifier.name) {
            Some(_) => {
                let name = blocks[t].instructions[i].lvalue.identifier.name.clone();
                let v = ctx.current_version(&name);
                let place = Place { identifier: Identifier { name, id: v } };
                let ghost entry = (from, place);
                match &mut blocks[t].instructions[i].value {
                    InstructionValue::Phi { operands } => {
                        operands.push((from, place));
                    },
                    _ => {},
                }
                proof {
                    lemma_with_instr(prev, *blocks, t as int, i as int);
                    let after = blocks@[t as int].instructions@[i as int];
                    assert(after.value->operands.deep_view() =~= instr.value->operands.deep_view().push(
                        entry.deep_view(),
                    ));
                }
            },
            None => {},
        }
        i += 1;
    }
}

/// Adds the Φ operands of all successors of block `b`, as [`add_operands`]
/// says.
fn add_phi_operands(blocks: &mut Vec<BasicBlock>, ctx: &RenameContext, b: usize)
    requires
        ctx.wf(),
        b < old(blocks)@.len(),
    ensures
        final(blocks)@.len() == old(blocks)@.len(),
        lengths(final(blocks).deep_view()) == lengths(old(blocks).deep_view()),
        ctx.state(final(blocks).deep_view()) == add_operands(
            texts(ctx.names@),
            ctx.state(old(blocks).deep_view()),
            old(blocks).deep_view()[b as int].id,
            term_successors(old(blocks).deep_view()[b as int].terminal),
            0,
        ),
        versions_ok(texts(ctx.names@), old(blocks).deep_view(), ctx.counters@) ==> versions_ok(
            texts(ctx.names@),
            final(blocks).deep_view(),
            ctx.counters@,
        ),
{
    let ghost names = texts(ctx.names@);
    let from = blocks[b].id;
    let succs = blocks[b].successors();
    proof {
        let st = ctx.state(blocks.deep_view());
        if versions_ok(names, st.blocks, st.counters) {
            lemma_add_operands(names, st, from.deep_view(), succs.deep_view(), 0);
        }
    }
    let ghost ss = succs.deep_view();
    let mut j: usize = 0;
    while j < succs.len()
        invariant
            j <= succs.len(),
            ctx.wf(),
            names == texts(ctx.names@),
            ss == succs.deep_view(),
            blocks@.len() == old(blocks)@.len(),
            lengths(blocks.deep_view()) == lengths(old(blocks).deep_view()),
            add_operands(names, ctx.state(blocks.deep_view()), from.deep_view(), ss, j as nat)
                == add_operands(
                names,
                ctx.state(old(blocks).deep_view()),
                from.deep_view(),
                ss,
                0,
            ),
        decreases succs.len() - j,
    {
        let t: usize = succs[j].0;
        if t < blocks.len() {
            add_block_operands(blocks, ctx, from, t);
        }
        j += 1;
    }
}

/// Takes the pushed versions off again, as [`pop_all`] says.
fn pop_versions(ctx: &mut RenameContext, pushed: &Vec<usize>, Ghost(bs): Ghost<Seq<BlockV>>)
    requires
        old(ctx).wf(),
    ensures
        final(ctx).wf(),
        final(ctx).names == old(ctx).names,
        final(ctx).visited == old(ctx).visited,
        final(ctx).bound == old(ctx).bound,
        final(ctx).counters == old(ctx).counters,
        final(ctx).state(bs) == pop_all(old(ctx).state(bs), pushed@, 0),
{
    let mut j: usize = 0;
    while j < pushed.len()
        invariant
            j <= pushed.len(),
            ctx.wf(),
            ctx.names == old(ctx).names,
            ctx.visited == old(ctx).visited,
            ctx.bound == old(ctx).bound,
            ctx.counters == old(ctx).counters,
            pop_all(ctx.state(bs), pushed@, j as nat) == pop_all(old(ctx).state(bs), pushed@, 0),
        decreases pushed.len() - j,
    {
        ctx.pop_version(pushed[j]);
        j += 1;
    }
}

/// Renames a block and what it dominates, as [`rename`] says.
fn rename_block(
    blocks: &mut Vec<BasicBlock>,
    ctx: &mut RenameContext,
    idoms: &Vec<Option<BlockId>>,
    b: usize,
    Ghost(lens): Ghost<Seq<nat>>,
)
    requires
        old(ctx).wf(),
        old(ctx).visited@.len() == old(blocks)@.len(),
        lengths(old(blocks).deep_view()) == lens,
        old(ctx).bound@ + remaining(lens, old(ctx).visited@) <= usize::MAX,
    ensures
        final(ctx).wf(),
        final(ctx).names == old(ctx).names,
        final(ctx).visited@.len() == old(ctx).visited@.len(),
        final(blocks)@.len() == old(blocks)@.len(),
        lengths(final(blocks).deep_view()) == lens,
        final(ctx).bound@ + remaining(lens, final(ctx).visited@) <= usize::MAX,
        unvisited(final(ctx).visited@) <= unvisited(old(ctx).visited@),
        (final(ctx).state(final(blocks).deep_view()), final(ctx).visited@) == rename(
            texts(old(ctx).names@),
            idoms.deep_view(),
            old(ctx).state(old(blocks).deep_view()),
            old(ctx).visited@,
            b as nat,
        ),
        versions_ok(texts(old(ctx).names@), old(blocks).deep_view(), old(ctx).counters@)
            ==> versions_ok(
            texts(old(ctx).names@),
            final(blocks).deep_view(),
            final(ctx).counters@,
        ),
    decreases unvisited(old(ctx).visited@), 0nat,
{
    if b >= blocks.len() || ctx.visited[b] {
        return ;
    }
    let ghost names = texts(ctx.names@);
    let ghost ids = idoms.deep_view();
    proof {
        lemma_unvisited_update(ctx.visited@, b as int);
        lemma_remaining_update(lens, ctx.visited@, b as int);
        assert(lens[b as int] == blocks@[b as int].instructions@.len());
    }
    ctx.visited[b] = true;
    let ghost inner = ctx.visited@;
    let pushed = rename_instructions(blocks, ctx, b);
    add_phi_operands(blocks, ctx, b);
    let ghost s2 = ctx.state(blocks.deep_view());
    let mut c: usize = 0;
    while c < idoms.len()
        invariant
            c <= idoms.len(),
            ctx.wf(),
            ctx.names == old(ctx).names,
            names == texts(ctx.names@),
            ids == idoms.deep_view(),
            ctx.visited@.len() == old(ctx).visited@.len(),
            ctx.visited@.len() == blocks@.len(),
            blocks@.len() == old(blocks)@.len(),
            lengths(blocks.deep_view()) == lens,
            ctx.bound@ + remaining(lens, ctx.visited@) <= usize::MAX,
            unvisited(ctx.visited@) <= unvisited(inner),
            unvisited(inner) < unvisited(old(ctx).visited@),
            versions_ok(names, old(blocks).deep_view(), old(ctx).counters@) ==> versions_ok(
                names,
                blocks.deep_view(),
                ctx.counters@,
            ),
            rename_children(
                names,
                ids,
                ctx.state(blocks.deep_view()),
                ctx.visited@,
                b as nat,
                c as nat,
            ) == rename_children(names, ids, s2, inner, b as nat, 0),
        decreases idoms.len() - c,
    {
        let is_child: bool = match idoms[c] {
            Some(p) => p.0 == b && c != b,
            None => false,
        };
        if is_child {
            rename_block(blocks, ctx, idoms, c, Ghost(lens));
        }
        c += 1;
    }
    pop_versions(ctx, &pushed, Ghost(blocks.deep_view()));
}

/// The function in SSA form.
pub open spec fn ssa_of(f: FuncV) -> FuncV {
    let b1 = with_preds(f.blocks);
    let f1 = FuncV { blocks: b1, ..f };
    let g = globals_of(b1);
    let placed = place_all(frontiers_of(f1), g.defs, 0, b1.len(), Seq::empty());
    let b2 = insert_phis(b1, g.names, placed, max_id(b1) + 1, 0);
    let st = rename(
        g.names,
        idoms_of(f1),
        initial_rename(b2, g.names.len()),
        Seq::new(b2.len(), |i: int| false),
        f.entry,
    ).0;
    FuncV { blocks: st.blocks, ..f }
}

/// Whether the instruction ids of the Φs and the versions fit the machine's
/// integers: the Φs take the ids after the greatest id, and no variable
/// gets more versions than there are instructions.
pub open spec fn ssa_fits(f: FuncV) -> bool {
    let b1 = with_preds(f.blocks);
    let f1 = FuncV { blocks: b1, ..f };
    let g = globals_of(b1);
    let placed = place_all(frontiers_of(f1), g.defs, 0, b1.len(), Seq::empty());
    let b2 = insert_phis(b1, g.names, placed, max_id(b1) + 1, 0);
    max_id(b1) + 1 + placed.len() <= usize::MAX && instr_total(b2) + 1 <= usize::MAX
}

/// The position at which a name is inserted lies within the list.
pub proof fn lemma_insert_position(names: Seq<Seq<char>>, name: Seq<char>, i: nat)
    requires
        i <= names.len(),
    ensures
        i <= insert_position(names, name, i) <= names.len(),
    decreases names.len() - i,
{
    if i < names.len() && !text_lt(name, names[i as int], 0) {
        lemma_insert_position(names, name, i + 1);
    }
}

/// After a store is recorded, the promotable names are those from before
/// and the name stored into.
pub proof fn lemma_add_def(g: GlobalsV, name: Seq<char>, block: nat, y: Seq<char>)
    ensures
        add_def(g, name, block).names.contains(y) <==> g.names.contains(y) || y == name,
{
    lemma_name_index(g.names, name, 0);
    match name_index(g.names, name, 0) {
        Some(k) => {
            assert(g.names[k as int] == name);
        },
        None => {
            lemma_insert_position(g.names, name, 0);
            let at = insert_position(g.names, name, 0) as int;
            let r = g.names.insert(at, name);
            assert(r[at] == name);
            if r.contains(y) {
                let j = choose|j: int| 0 <= j < r.len() && r[j] == y;
                if j < at {
                    assert(g.names[j] == y);
                } else if j > at {
                    assert(g.names[j - 1] == y);
                }
            }
            if g.names.contains(y) {
                let j = choose|j: int| 0 <= j < g.names.len() && g.names[j] == y;
                if j < at {
                    assert(r[j] == y);
                } else {
                    assert(r[j + 1] == y);
                }
            }
        },
    }
}

/// A promotable name collected from instructions was promotable before or
/// is stored into by one of them.
pub proof fn lemma_collect_stores(g: GlobalsV, instrs: Seq<InstrV>, i: nat, block: nat, y: Seq<char>)
    requires
        collect_stores(g, instrs, i, block).names.contains(y),
    ensures
        g.names.contains(y) || exists|j: int|
            i <= j < instrs.len() && (#[trigger] instrs[j].value matches ValueV::StoreLocal(t, _)
                && t.name == y),
    decreases instrs.len() - i,
{
    if i < instrs.len() {
        let next = match instrs[i as int].value {
            ValueV::StoreLocal(target, _) => add_def(g, target.name, block),
            _ => g,
        };
        lemma_collect_stores(next, instrs, i + 1, block, y);
        if next.names.contains(y) {
            match instrs[i as int].value {
                ValueV::StoreLocal(target, _) => {
                    lemma_add_def(g, target.name, block, y);
                },
                _ => {},
            }
        }
    }
}

/// A promotable name collected from blocks was promotable before or is
/// stored into in one of them.
pub proof fn lemma_collect_globals(g: GlobalsV, blocks: Seq<BlockV>, b: nat, y: Seq<char>)
    requires
        collect_globals(g, blocks, b).names.contains(y),
    ensures
        g.names.contains(y) || exists|sb: int, si: int|
            at(blocks, sb, si) && (#[trigger] store_target_at(blocks, sb, si) matches Some(t)
                && t.name == y),
    decreases blocks.len() - b,
{
    if b < blocks.len() {
        let instrs = blocks[b as int].instructions;
        let next = collect_stores(g, instrs, 0, blocks[b as int].id);
        lemma_collect_globals(next, blocks, b + 1, y);
        if next.names.contains(y) && !g.names.contains(y) {
            lemma_collect_stores(g, instrs, 0, blocks[b as int].id, y);
            let j = choose|j: int|
                0 <= j < instrs.len() && (#[trigger] instrs[j].value matches ValueV::StoreLocal(
                    t,
                    _,
                ) && t.name == y);
            assert(at(blocks, b as int, j));
            assert(store_target_at(blocks, b as int, j) matches Some(t) && t.name == y);
        }
    }
}

/// A promotable variable is stored into by some instruction.
pub proof fn lemma_promotable_is_stored(blocks: Seq<BlockV>, y: Seq<char>)
    requires
        name_index(globals_of(blocks).names, y, 0) is Some,
    ensures
        exists|sb: int, si: int|
            at(blocks, sb, si) && (#[trigger] store_target_at(blocks, sb, si) matches Some(t)
                && t.name == y),
{
    let names = globals_of(blocks).names;
    lemma_name_index(names, y, 0);
    let k = name_index(names, y, 0)->0 as int;
    assert(names[k] == y);
    assert(names.contains(y));
    lemma_collect_globals(GlobalsV { names: Seq::empty(), defs: Seq::empty() }, blocks, 0, y);
    assert(!Seq::<Seq<char>>::empty().contains(y));
}

/// No version has been given out yet: no identifier with a version of at
/// least 1 is defined twice, and every definition of a promotable variable
/// has version 0.
pub open spec fn versions_unassigned(f: FuncV) -> bool {
    let names = globals_of(with_preds(f.blocks)).names;
    versions_ok(names, f.blocks, Seq::new(names.len(), |k: int| 1usize))
}

/// Rebuilding the predecessors keeps the definitions as they are.
pub proof fn lemma_with_preds(names: Seq<Seq<char>>, blocks: Seq<BlockV>, counters: Seq<usize>)
    requires
        versions_ok(names, blocks, counters),
    ensures
        versions_ok(names, with_preds(blocks), counters),
{
    let after = with_preds(blocks);
    assert forall|b1: int, i1: int| at(after, b1, i1) implies at(blocks, b1, i1)
        && #[trigger] lvalue_at(after, b1, i1) == lvalue_at(blocks, b1, i1) by {}
    assert forall|b1: int, i1: int, b2: int, i2: int|
        #![trigger lvalue_at(after, b1, i1), lvalue_at(after, b2, i2)]
        at(after, b1, i1) && at(after, b2, i2) && (b1 != b2 || i1 != i2) && lvalue_at(
            after,
            b1,
            i1,
        ).id >= 1 implies lvalue_at(after, b1, i1) != lvalue_at(after, b2, i2) by {
        assert(lvalue_at(after, b1, i1) == lvalue_at(blocks, b1, i1));
        assert(lvalue_at(after, b2, i2) == lvalue_at(blocks, b2, i2));
    }
}

/// Brings a function into SSA form, as [`ssa_of`] says.  The result is
/// `None` exactly when the ids and versions do not fit.  Where no version
/// was given out in the input, every identifier with a version of at least
/// 1 has at most one defining instruction in the result.  The blocks keep
/// their terminals, and their predecessor lists mirror the terminals.
pub fn enter_ssa(func: HIRFunction) -> (r: Option<HIRFunction>)
    ensures
        r is Some <==> ssa_fits(func.deep_view()),
        r matches Some(h) ==> h.deep_view() == ssa_of(func.deep_view()),
        r matches Some(h) ==> (versions_unassigned(func.deep_view()) ==> single_versions(
            h.deep_view().blocks,
        )),
{
    let ghost f = func.deep_view();
    let mut func = func;
    rebuild_predecessors(&mut func.blocks);
    let ghost b1 = func.blocks.deep_view();
    assert(func.deep_view() == (FuncV { blocks: b1, ..f }));
    let dom_tree = DominatorTree::compute(&func);
    let (names, defs) = collect_promotable(&func.blocks);
    let n: usize = func.blocks.len();
    let placed = place_phis(&dom_tree.dominance_frontiers, &defs, n);
    let max: usize = max_instr_id(&func.blocks);
    if max == usize::MAX || placed.len() > usize::MAX - (max + 1) {
        return None;
    }
    let ghost ns = texts(names@);
    let ghost ones = Seq::new(ns.len(), |k: int| 1usize);
    proof {
        if versions_unassigned(f) {
            lemma_with_preds(ns, f.blocks, ones);
            lemma_insert_phis(b1, ns, placed.deep_view(), (max + 1) as nat, 0, ones);
        }
    }
    insert_phi_instructions(&mut func.blocks, &names, &placed, max + 1);
    let total = total_instructions(&func.blocks);
    let fits: bool = match total {
        Some(t) => t < usize::MAX,
        None => false,
    };
    if !fits {
        return None;
    }
    let mut stacks: Vec<Vec<usize>> = Vec::new();
    let mut counters: Vec<usize> = Vec::new();
    let mut k: usize = 0;
    while k < names.len()
        invariant
            k <= names.len(),
            stacks@.len() == k,
            counters@.len() == k,
            forall|j: int| 0 <= j < k ==> #[trigger] counters@[j] == 1,
            forall|j: int| 0 <= j < k ==> (#[trigger] stacks@[j])@ == seq![0usize],
        decreases names.len() - k,
    {
        let mut one: Vec<usize> = Vec::new();
        one.push(0);
        assert(one@ =~= seq![0usize]);
        stacks.push(one);
        counters.push(1);
        k += 1;
    }
    let mut visited: Vec<bool> = Vec::new();
    let mut i: usize = 0;
    while i < func.blocks.len()
        invariant
            i <= func.blocks.len(),
            visited@.len() == i,
            forall|j: int| 0 <= j < i ==> !visited@[j],
        decreases func.blocks.len() - i,
    {
        visited.push(false);
        i += 1;
    }
    let mut ctx = RenameContext { names, stacks, counters, visited, bound: Ghost(1) };
    proof {
        let b2 = func.blocks.deep_view();
        assert(ctx.visited@ =~= Seq::new(b2.len(), |i: int| false));
        assert(ctx.counters@ =~= Seq::new(ctx.names@.len(), |k: int| 1usize));
        assert(ctx.stacks.deep_view() =~= Seq::new(ctx.names@.len(), |k: int| seq![0usize])) by {
            assert forall|j: int| 0 <= j < ctx.names@.len() implies ctx.stacks.deep_view()[j]
                == seq![0usize] by {
                assert(ctx.stacks@[j]@ == seq![0usize]);
                assert(ctx.stacks.deep_view()[j] =~= seq![0usize]);
            }
        }
        assert(texts(ctx.names@).len() == ctx.names@.len());
    }
    let ghost lens = lengths(func.blocks.deep_view());
    rename_block(&mut func.blocks, &mut ctx, &dom_tree.idoms, func.entry_block.0, Ghost(lens));
    Some(func)
}

} // verus!
