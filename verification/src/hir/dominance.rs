//! What the dominator tree of a function guarantees: every block that can
//! be reached from the entry has an immediate dominator, and that
//! dominator lies on every path from the entry to the block.

use crate::hir::dominators::{
    candidate, climb, dominators_of, frontier_blocks, frontier_preds, frontiers_of, idoms_of,
    improves, initial, insert_sorted, iterate, known_node, lemma_dominators_rooted,
    lemma_idoms_from, lemma_iteration_is_fixed, lemma_pass_settles, lemma_slack_update, meet,
    pass_from, positions, positions_from, seed, slack, step, DomV,
};
use crate::hir::schedule::{
    all_marked, dfs, dfs_succs, lemma_dfs, lemma_dfs_succs, lemma_rpo, no_repeats, post_order_of,
    rpo_of,
};
use crate::hir::reactive_function::{lemma_unvisited_update, unvisited};
use crate::hir::ssa::{lemma_pred_iff_succ, with_preds};
use crate::hir::{term_successors, BlockV, FuncV};
use vstd::prelude::*;

verus! {

/// Whether the terminal of block `u` names block `v`.
pub open spec fn edge(blocks: Seq<BlockV>, u: nat, v: nat) -> bool {
    u < blocks.len() && term_successors(blocks[u as int].terminal).contains(v)
}

/// Whether a block named after position `i` of the list has an edge to
/// the block at position `i`.
pub open spec fn has_parent(blocks: Seq<BlockV>, s: Seq<nat>, i: int) -> bool {
    exists|j: int| i < j < s.len() && #[trigger] edge(blocks, s[j], s[i])
}

/// A walk from a block adds, before the block itself, only blocks that
/// a block added later has an edge to.
pub proof fn lemma_dfs_parent(blocks: Seq<BlockV>, b: nat, visited: Seq<bool>, po: Seq<nat>)
    requires
        no_repeats(po),
        all_marked(po, visited),
    ensures
        forall|i: int|
            po.len() <= i < dfs(blocks, b, visited, po).1.len() - 1 ==> #[trigger] has_parent(
                blocks,
                dfs(blocks, b, visited, po).1,
                i,
            ),
    decreases unvisited(visited), 0nat,
{
    let r = dfs(blocks, b, visited, po).1;
    if b >= blocks.len() || b >= visited.len() || visited[b as int] {
        assert(r == po);
    } else {
        let inner = visited.update(b as int, true);
        lemma_unvisited_update(visited, b as int);
        let succs = term_successors(blocks[b as int].terminal);
        assert(all_marked(po, inner));
        lemma_dfs_succs_parent(blocks, succs, 0, inner, po);
        let p = dfs_succs(blocks, succs, 0, inner, po).1;
        assert(r == p.push(b));
        assert forall|i: int| po.len() <= i < r.len() - 1 implies #[trigger] has_parent(
            blocks,
            r,
            i,
        ) by {
            assert(r[i] == p[i]);
            if succs.contains(p[i]) {
                assert(r[p.len() as int] == b);
                assert(edge(blocks, r[p.len() as int], r[i]));
            } else {
                assert(has_parent(blocks, p, i));
                let j = choose|j: int| i < j < p.len() && #[trigger] edge(blocks, p[j], p[i]);
                assert(r[j] == p[j]);
                assert(edge(blocks, r[j], r[i]));
            }
        }
    }
}

/// A walk through successors adds only successors and blocks that a block
/// added later has an edge to.
pub proof fn lemma_dfs_succs_parent(
    blocks: Seq<BlockV>,
    succs: Seq<nat>,
    i0: nat,
    visited: Seq<bool>,
    po: Seq<nat>,
)
    requires
        no_repeats(po),
        all_marked(po, visited),
    ensures
        forall|i: int|
            po.len() <= i < dfs_succs(blocks, succs, i0, visited, po).1.len() ==> succs.contains(
                dfs_succs(blocks, succs, i0, visited, po).1[i],
            ) || #[trigger] has_parent(blocks, dfs_succs(blocks, succs, i0, visited, po).1, i),
    decreases unvisited(visited), 1 + succs.len() - i0,
{
    let r = dfs_succs(blocks, succs, i0, visited, po).1;
    if i0 >= succs.len() {
        assert(r == po);
    } else {
        let s = succs[i0 as int];
        lemma_dfs(blocks, s, visited, po);
        lemma_dfs_parent(blocks, s, visited, po);
        let (v, p) = dfs(blocks, s, visited, po);
        assert(po.is_prefix_of(p));
        if unvisited(v) <= unvisited(visited) {
            lemma_dfs_succs(blocks, succs, i0 + 1, v, p);
            lemma_dfs_succs_parent(blocks, succs, i0 + 1, v, p);
            assert(r == dfs_succs(blocks, succs, i0 + 1, v, p).1);
        } else {
            assert(r == p);
            assert(p.subrange(0, p.len() as int) =~= p);
        }
        assert(p.is_prefix_of(r));
        assert forall|i: int| po.len() <= i < r.len() implies succs.contains(r[i])
            || #[trigger] has_parent(blocks, r, i) by {
            if i < p.len() {
                assert(r[i] == p[i]);
                if i == p.len() - 1 {
                    // the walk from `s` added something, so it ends with `s`
                    if s >= blocks.len() || s >= visited.len() || visited[s as int] {
                        assert(p == po);
                    }
                    assert(p[i] == s);
                    assert(succs.contains(s));
                } else {
                    assert(has_parent(blocks, p, i));
                    let j = choose|j: int| i < j < p.len() && #[trigger] edge(blocks, p[j], p[i]);
                    assert(r[j] == p[j]);
                    assert(edge(blocks, r[j], r[i]));
                }
            }
        }
    }
}

/// Every block of the reverse post-order but the first is a successor of
/// a block that comes before it.
pub proof fn lemma_rpo_parent(f: FuncV, k: int)
    requires
        0 < k < rpo_of(f).len(),
    ensures
        exists|j: int| 0 <= j < k && #[trigger] edge(f.blocks, rpo_of(f)[j], rpo_of(f)[k]),
{
    let marks = Seq::new(f.blocks.len(), |i: int| false);
    lemma_dfs_parent(f.blocks, f.entry, marks, Seq::empty());
    let po = post_order_of(f);
    let rpo = rpo_of(f);
    let i = po.len() - 1 - k;
    assert(rpo[k] == po[i]);
    assert(has_parent(f.blocks, po, i));
    let j = choose|j: int| i < j < po.len() && #[trigger] edge(f.blocks, po[j], po[i]);
    assert(rpo[po.len() - 1 - j] == po[j]);
    assert(edge(f.blocks, rpo[po.len() - 1 - j], rpo[k]));
}

/// What a walk leaves behind: a block that it marked is in the post-order,
/// and every block that an added block has an edge to is marked.
pub open spec fn closed_walk(
    blocks: Seq<BlockV>,
    visited: Seq<bool>,
    po: Seq<nat>,
    after: (Seq<bool>, Seq<nat>),
) -> bool {
    &&& forall|x: int|
        0 <= x < after.0.len() && #[trigger] after.0[x] ==> (x < visited.len() && visited[x])
            || after.1.contains(x as nat)
    &&& forall|i: int, w: nat|
        po.len() <= i < after.1.len() && #[trigger] edge(blocks, after.1[i], w) && w < blocks.len()
            && w < after.0.len() ==> after.0[w as int]
}

/// A walk from a block is closed.
pub proof fn lemma_dfs_closed(blocks: Seq<BlockV>, b: nat, visited: Seq<bool>, po: Seq<nat>)
    requires
        no_repeats(po),
        all_marked(po, visited),
    ensures
        closed_walk(blocks, visited, po, dfs(blocks, b, visited, po)),
    decreases unvisited(visited), 0nat,
{
    let (v, r) = dfs(blocks, b, visited, po);
    if b >= blocks.len() || b >= visited.len() || visited[b as int] {
        assert(v == visited && r == po);
    } else {
        let inner = visited.update(b as int, true);
        lemma_unvisited_update(visited, b as int);
        let succs = term_successors(blocks[b as int].terminal);
        assert(all_marked(po, inner));
        lemma_dfs_succs(blocks, succs, 0, inner, po);
        lemma_dfs_succs_closed(blocks, succs, 0, inner, po);
        let (v1, p) = dfs_succs(blocks, succs, 0, inner, po);
        assert(v == v1 && r == p.push(b));
        assert(r[p.len() as int] == b);
        assert forall|x: int| 0 <= x < v.len() && #[trigger] v[x] implies (x < visited.len()
            && visited[x]) || r.contains(x as nat) by {
            if x == b {
                assert(r.contains(b));
            } else if x < inner.len() && inner[x] {
                assert(visited[x]);
            } else {
                assert(p.contains(x as nat));
                let k = choose|k: int| 0 <= k < p.len() && p[k] == x as nat;
                assert(r[k] == x as nat);
            }
        }
        assert forall|i: int, w: nat|
            po.len() <= i < r.len() && #[trigger] edge(blocks, r[i], w) && w < blocks.len() && w
                < v.len() implies v[w as int] by {
            if i < p.len() {
                assert(r[i] == p[i]);
                assert(edge(blocks, p[i], w));
            } else {
                let t = choose|t: int| 0 <= t < succs.len() && succs[t] == w;
                assert(succs[t] == w);
            }
        }
    }
}

/// A walk through successors is closed, and marks every successor from
/// `i0` on that is a block.
pub proof fn lemma_dfs_succs_closed(
    blocks: Seq<BlockV>,
    succs: Seq<nat>,
    i0: nat,
    visited: Seq<bool>,
    po: Seq<nat>,
)
    requires
        no_repeats(po),
        all_marked(po, visited),
    ensures
        closed_walk(blocks, visited, po, dfs_succs(blocks, succs, i0, visited, po)),
        forall|t: int|
            i0 <= t < succs.len() && (#[trigger] succs[t]) < blocks.len() && succs[t]
                < visited.len() ==> dfs_succs(blocks, succs, i0, visited, po).0[succs[t] as int],
    decreases unvisited(visited), 1 + succs.len() - i0,
{
    let (v2, r) = dfs_succs(blocks, succs, i0, visited, po);
    if i0 >= succs.len() {
        assert(v2 == visited && r == po);
    } else {
        let s = succs[i0 as int];
        lemma_dfs(blocks, s, visited, po);
        lemma_dfs_closed(blocks, s, visited, po);
        let (v, p) = dfs(blocks, s, visited, po);
        assert(unvisited(v) <= unvisited(visited));
        lemma_dfs_succs(blocks, succs, i0 + 1, v, p);
        lemma_dfs_succs_closed(blocks, succs, i0 + 1, v, p);
        assert((v2, r) == dfs_succs(blocks, succs, i0 + 1, v, p));
        assert(p.is_prefix_of(r));
        assert forall|x: int| 0 <= x < v2.len() && #[trigger] v2[x] implies (x < visited.len()
            && visited[x]) || r.contains(x as nat) by {
            if !r.contains(x as nat) {
                assert(v[x]);
                if !(x < visited.len() && visited[x]) {
                    assert(p.contains(x as nat));
                    let k = choose|k: int| 0 <= k < p.len() && p[k] == x as nat;
                    assert(r[k] == x as nat);
                }
            }
        }
        assert forall|i: int, w: nat|
            po.len() <= i < r.len() && #[trigger] edge(blocks, r[i], w) && w < blocks.len() && w
                < v2.len() implies v2[w as int] by {
            if i < p.len() {
                assert(r[i] == p[i]);
                assert(edge(blocks, p[i], w));
                assert(v[w as int]);
            }
        }
        assert forall|t: int|
            i0 <= t < succs.len() && (#[trigger] succs[t]) < blocks.len() && succs[t]
                < visited.len() implies v2[succs[t] as int] by {
            if t == i0 {
                assert(v[s as int]);
            }
        }
    }
}

/// A block that a reachable block has an edge to is reachable.
pub proof fn lemma_reachable_closed(f: FuncV, u: nat, w: nat)
    requires
        rpo_of(f).contains(u),
        edge(f.blocks, u, w),
        w < f.blocks.len(),
    ensures
        rpo_of(f).contains(w),
{
    let marks = Seq::new(f.blocks.len(), |i: int| false);
    lemma_dfs(f.blocks, f.entry, marks, Seq::empty());
    lemma_dfs_closed(f.blocks, f.entry, marks, Seq::empty());
    let (v, po) = dfs(f.blocks, f.entry, marks, Seq::empty());
    let rpo = rpo_of(f);
    let k = choose|k: int| 0 <= k < rpo.len() && rpo[k] == u;
    assert(po[po.len() - 1 - k] == u);
    assert(edge(f.blocks, po[po.len() - 1 - k], w));
    assert(v[w as int]);
    assert(po.contains(w));
    let i = choose|i: int| 0 <= i < po.len() && po[i] == w;
    assert(rpo[po.len() - 1 - i] == w);
}

/// Every edge is listed among the predecessors of its target.
pub open spec fn preds_listed(f: FuncV) -> bool {
    forall|u: nat, v: nat|
        #[trigger] edge(f.blocks, u, v) && v < f.blocks.len() ==> f.blocks[v as int].preds.contains(u)
}

/// Predecessor lists that were rebuilt from the terminals hold every edge.
pub proof fn lemma_rebuilt_preds_listed(f: FuncV)
    ensures
        preds_listed(FuncV { blocks: with_preds(f.blocks), ..f }),
{
    let g = FuncV { blocks: with_preds(f.blocks), ..f };
    assert forall|u: nat, v: nat| #[trigger] edge(g.blocks, u, v) && v < g.blocks.len() implies g.blocks[v as int].preds.contains(
        u,
    ) by {
        lemma_pred_iff_succ(f.blocks, u, v);
    }
}

/// A block that the order does not name from `k` on keeps its position.
pub proof fn lemma_positions_kept(order: Seq<nat>, k: nat, pos: Seq<Option<usize>>, b: nat)
    requires
        k <= order.len(),
        b < pos.len(),
        forall|j: int| k <= j < order.len() ==> order[j] != b,
    ensures
        positions_from(order, k, pos).len() == pos.len(),
        positions_from(order, k, pos)[b as int] == pos[b as int],
    decreases order.len() - k,
{
    if k < order.len() {
        let next = if order[k as int] < pos.len() {
            pos.update(order[k as int] as int, Some(k as usize))
        } else {
            pos
        };
        assert(order[k as int] != b);
        lemma_positions_kept(order, k + 1, next, b);
    }
}

/// The position recorded for a block that the order names is the place at
/// which the order names it.
pub proof fn lemma_positions_from(order: Seq<nat>, k: nat, pos: Seq<Option<usize>>, j: int)
    requires
        no_repeats(order),
        k <= j < order.len(),
        order[j] < pos.len(),
    ensures
        positions_from(order, k, pos).len() == pos.len(),
        positions_from(order, k, pos)[order[j] as int] == Some(j as usize),
    decreases order.len() - k,
{
    let next = if order[k as int] < pos.len() {
        pos.update(order[k as int] as int, Some(k as usize))
    } else {
        pos
    };
    if k == j {
        assert forall|i: int| k + 1 <= i < order.len() implies order[i] != order[j] by {
            assert(order[j] != order[i]);
        }
        lemma_positions_kept(order, k + 1, next, order[j]);
    } else {
        lemma_positions_from(order, k + 1, next, j);
    }
}

/// The common ancestor of two nodes is not further from the entry than
/// either.
pub proof fn lemma_meet_le(d: Seq<usize>, a: nat, b: nat)
    ensures
        meet(d, a, b) <= a,
        meet(d, a, b) <= b,
    decreases a + b,
{
    if a > b {
        if a < d.len() && d[a as int] < a {
            lemma_meet_le(d, d[a as int] as nat, b);
        }
    } else if a < b {
        if b < d.len() && d[b as int] < b {
            lemma_meet_le(d, a, d[b as int] as nat);
        }
    }
}

/// A candidate that is there stays there and moves towards the entry only.
pub proof fn lemma_candidate_kept(
    s: DomV,
    pos: Seq<Option<usize>>,
    preds: Seq<nat>,
    i: nat,
    c: nat,
)
    ensures
        candidate(s, pos, preds, i, Some(c)) is Some,
        candidate(s, pos, preds, i, Some(c))->0 <= c,
    decreases preds.len() - i,
{
    if i < preds.len() {
        let p = preds[i as int];
        if p < pos.len() && pos[p as int] is Some && pos[p as int]->0 < s.known.len()
            && s.known[pos[p as int]->0 as int] {
            let q = pos[p as int]->0 as nat;
            lemma_meet_le(s.d, c, q);
            lemma_candidate_kept(s, pos, preds, i + 1, meet(s.d, c, q));
        } else {
            lemma_candidate_kept(s, pos, preds, i + 1, c);
        }
    }
}

/// Where a predecessor from `i` on is a node whose dominator is known,
/// there is a candidate, and it is not further from the entry than that
/// node.
pub proof fn lemma_candidate_found(
    s: DomV,
    pos: Seq<Option<usize>>,
    preds: Seq<nat>,
    i: nat,
    acc: Option<nat>,
    t: int,
)
    requires
        i <= t < preds.len(),
        preds[t] < pos.len(),
        pos[preds[t] as int] is Some,
        pos[preds[t] as int]->0 < s.known.len(),
        s.known[pos[preds[t] as int]->0 as int],
    ensures
        candidate(s, pos, preds, i, acc) is Some,
        candidate(s, pos, preds, i, acc)->0 <= pos[preds[t] as int]->0,
    decreases preds.len() - i,
{
    let p = preds[i as int];
    let next = if p < pos.len() && pos[p as int] is Some && pos[p as int]->0 < s.known.len()
        && s.known[pos[p as int]->0 as int] {
        match acc {
            Some(c) => Some(meet(s.d, c, pos[p as int]->0 as nat)),
            None => Some(pos[p as int]->0 as nat),
        }
    } else {
        acc
    };
    if i == t {
        let q = pos[p as int]->0 as nat;
        if acc is Some {
            lemma_meet_le(s.d, acc->0, q);
        }
        lemma_candidate_kept(s, pos, preds, i + 1, next->0);
    } else {
        lemma_candidate_found(s, pos, preds, i + 1, next, t);
    }
}

/// The dominator of every node before `k` is known.
pub open spec fn known_below(s: DomV, k: nat) -> bool {
    forall|j: int| 0 <= j < k && j < s.known.len() ==> #[trigger] s.known[j]
}

/// A pass over the reverse post-order of a function that lists its edges
/// leaves no node without a dominator.
pub proof fn lemma_pass_known(f: FuncV, s: DomV, k: nat)
    requires
        preds_listed(f),
        rpo_of(f).len() <= usize::MAX,
        s.d.len() == rpo_of(f).len(),
        s.known.len() == rpo_of(f).len(),
        rpo_of(f).len() > 0 ==> s.known[0],
        known_below(s, k),
    ensures
        known_below(
            pass_from(s, f.blocks, rpo_of(f), positions(rpo_of(f), f.blocks.len()), f.entry, k),
            rpo_of(f).len(),
        ),
    decreases rpo_of(f).len() - k,
{
    let order = rpo_of(f);
    let pos = positions(order, f.blocks.len());
    if k < order.len() {
        lemma_rpo(f);
        let next = step(s, f.blocks, order, pos, f.entry, k);
        let b = order[k as int];
        assert(next.known[k as int]) by {
            if k > 0 {
                assert(f.entry < f.blocks.len()) by {
                    if f.entry >= f.blocks.len() {
                        assert(post_order_of(f).len() == 0);
                    }
                }
                assert(order[0] != order[k as int]);
                lemma_rpo_parent(f, k as int);
                let j = choose|j: int| 0 <= j < k && #[trigger] edge(f.blocks, order[j], order[k as int]);
                let preds = f.blocks[b as int].preds;
                assert(preds.contains(order[j]));
                let t = choose|t: int| 0 <= t < preds.len() && preds[t] == order[j];
                lemma_positions_from(order, 0, Seq::new(f.blocks.len(), |i: int| None), j);
                assert(pos[order[j] as int] == Some(j as usize));
                assert(s.known[j]);
                lemma_candidate_found(s, pos, preds, 0, None, t);
            }
        }
        assert(known_below(next, k + 1)) by {
            assert forall|j: int| 0 <= j < k + 1 && j < next.known.len() implies #[trigger] next.known[j] by {
                if j < k {
                    assert(s.known[j]);
                }
            }
        }
        lemma_pass_known(f, next, k + 1);
    }
}

/// A pass makes no dominator unknown and keeps the number of nodes.
pub proof fn lemma_pass_keeps_entry(
    s: DomV,
    blocks: Seq<BlockV>,
    order: Seq<nat>,
    pos: Seq<Option<usize>>,
    entry: nat,
    k: nat,
)
    requires
        s.d.len() == order.len(),
        s.known.len() == order.len(),
        order.len() > 0 ==> s.known[0],
    ensures
        pass_from(s, blocks, order, pos, entry, k).d.len() == order.len(),
        pass_from(s, blocks, order, pos, entry, k).known.len() == order.len(),
        order.len() > 0 ==> pass_from(s, blocks, order, pos, entry, k).known[0],
    decreases order.len() - k,
{
    if k < order.len() {
        lemma_pass_keeps_entry(step(s, blocks, order, pos, entry, k), blocks, order, pos, entry, k + 1);
    }
}

/// The iteration leaves no node without a dominator.
pub proof fn lemma_iterate_known(f: FuncV, s: DomV)
    requires
        preds_listed(f),
        rpo_of(f).len() <= usize::MAX,
        s.d.len() == rpo_of(f).len(),
        s.known.len() == rpo_of(f).len(),
        rpo_of(f).len() > 0 ==> s.known[0],
    ensures
        known_below(
            iterate(s, f.blocks, rpo_of(f), positions(rpo_of(f), f.blocks.len()), f.entry),
            rpo_of(f).len(),
        ),
    decreases slack(s, 0),
{
    let order = rpo_of(f);
    let pos = positions(order, f.blocks.len());
    let next = pass_from(s, f.blocks, order, pos, f.entry, 0);
    lemma_pass_known(f, s, 0);
    lemma_pass_keeps_entry(s, f.blocks, order, pos, f.entry, 0);
    if slack(next, 0) < slack(s, 0) {
        lemma_iterate_known(f, next);
    }
}

/// Every block that can be reached from the entry has an immediate
/// dominator, and that is a block that can be reached from the entry: in a
/// function whose predecessor lists hold every edge, the tree leaves out
/// no block of the reverse post-order.
pub proof fn lemma_reachable_has_dominator(f: FuncV, b: nat)
    requires
        preds_listed(f),
        rpo_of(f).len() <= usize::MAX,
        rpo_of(f).contains(b),
    ensures
        b < idoms_of(f).len(),
        idoms_of(f)[b as int] is Some,
        rpo_of(f).contains(idoms_of(f)[b as int]->0),
{
    let order = rpo_of(f);
    let j = choose|j: int| 0 <= j < order.len() && order[j] == b;
    lemma_rpo(f);
    lemma_dominators_rooted(f);
    let start = initial(order.len());
    lemma_iterate_known(f, start);
    let s = dominators_of(f);
    assert(s.known[j]);
    assert(s.d[j] < order.len()) by {
        if j > 0 {
            assert(s.d[j] < j);
        }
    }
    lemma_idoms_from(s, order, 0, Seq::new(f.blocks.len(), |i: int| None), j);
}

/// Whether node `a` is node `x` or an ancestor of it in the tree.
pub open spec fn on_chain(d: Seq<usize>, x: nat, a: nat) -> bool
    decreases x,
{
    x == a || (0 < x < d.len() && d[x as int] < x && on_chain(d, d[x as int] as nat, a))
}

/// An ancestor of an ancestor is an ancestor.
pub proof fn lemma_chain_trans(d: Seq<usize>, x: nat, y: nat, a: nat)
    requires
        on_chain(d, x, y),
        on_chain(d, y, a),
    ensures
        on_chain(d, x, a),
    decreases x,
{
    if x != y {
        lemma_chain_trans(d, d[x as int] as nat, y, a);
    }
}

/// A path: a list of blocks, each with an edge to the next.
pub open spec fn is_path(blocks: Seq<BlockV>, path: Seq<nat>) -> bool {
    &&& path.len() > 0
    &&& forall|t: int| 0 <= t < path.len() ==> (#[trigger] path[t]) < blocks.len()
    &&& forall|t: int| 0 <= t < path.len() - 1 ==> #[trigger] edge(blocks, path[t], path[t + 1])
}

/// The place of a block in an order that names it.
pub open spec fn place(order: Seq<nat>, b: nat) -> int {
    choose|j: int| 0 <= j < order.len() && order[j] == b
}

/// A tree is settled where the immediate dominator of every block but the
/// entry is, in the tree, an ancestor of each predecessor of the block, or
/// that predecessor itself.
pub open spec fn settled(f: FuncV) -> bool {
    forall|i: int, j: int|
        0 <= i < rpo_of(f).len() && 0 < j < rpo_of(f).len() && #[trigger] edge(
            f.blocks,
            rpo_of(f)[i],
            rpo_of(f)[j],
        ) ==> on_chain(dominators_of(f).d, i as nat, dominators_of(f).d[j] as nat)
}

/// Every node but the entry links to a node closer to the entry.
pub open spec fn climbs(d: Seq<usize>) -> bool {
    forall|k: int| 0 < k < d.len() ==> #[trigger] d[k] < k
}

/// The common ancestor of two nodes is an ancestor of both, or one of
/// them.
pub proof fn lemma_meet_chain(d: Seq<usize>, a: nat, b: nat)
    requires
        climbs(d),
        a < d.len(),
        b < d.len(),
    ensures
        on_chain(d, a, meet(d, a, b)),
        on_chain(d, b, meet(d, a, b)),
    decreases a + b,
{
    if a > b {
        assert(d[a as int] < a);
        lemma_meet_chain(d, d[a as int] as nat, b);
    } else if a < b {
        assert(d[b as int] < b);
        lemma_meet_chain(d, a, d[b as int] as nat);
    }
}

/// The candidate is an ancestor of what the fold started from, or that
/// node itself.
pub proof fn lemma_candidate_above_start(
    s: DomV,
    pos: Seq<Option<usize>>,
    preds: Seq<nat>,
    i: nat,
    c: nat,
)
    requires
        climbs(s.d),
        s.d.len() == s.known.len(),
        c < s.d.len(),
    ensures
        on_chain(s.d, c, candidate(s, pos, preds, i, Some(c))->0),
    decreases preds.len() - i,
{
    if i < preds.len() {
        let p = preds[i as int];
        if p < pos.len() && pos[p as int] is Some && pos[p as int]->0 < s.known.len()
            && s.known[pos[p as int]->0 as int] {
            let q = pos[p as int]->0 as nat;
            let next = meet(s.d, c, q);
            lemma_meet_chain(s.d, c, q);
            lemma_meet_le(s.d, c, q);
            lemma_candidate_above_start(s, pos, preds, i + 1, next);
            lemma_chain_trans(s.d, c, next, candidate(s, pos, preds, i + 1, Some(next))->0);
        } else {
            lemma_candidate_above_start(s, pos, preds, i + 1, c);
        }
    }
}

/// The candidate is an ancestor of every predecessor from `i` on whose
/// dominator is known, or that predecessor itself.
pub proof fn lemma_candidate_above_pred(
    s: DomV,
    pos: Seq<Option<usize>>,
    preds: Seq<nat>,
    i: nat,
    acc: Option<nat>,
    t: int,
)
    requires
        climbs(s.d),
        s.d.len() == s.known.len(),
        acc matches Some(c) ==> c < s.d.len(),
        i <= t < preds.len(),
        preds[t] < pos.len(),
        pos[preds[t] as int] is Some,
        pos[preds[t] as int]->0 < s.known.len(),
        s.known[pos[preds[t] as int]->0 as int],
    ensures
        on_chain(s.d, pos[preds[t] as int]->0 as nat, candidate(s, pos, preds, i, acc)->0),
    decreases preds.len() - i,
{
    let p = preds[i as int];
    let here = p < pos.len() && pos[p as int] is Some && pos[p as int]->0 < s.known.len()
        && s.known[pos[p as int]->0 as int];
    let next = if here {
        match acc {
            Some(c) => Some(meet(s.d, c, pos[p as int]->0 as nat)),
            None => Some(pos[p as int]->0 as nat),
        }
    } else {
        acc
    };
    if here {
        let q = pos[p as int]->0 as nat;
        if acc is Some {
            lemma_meet_chain(s.d, acc->0, q);
            lemma_meet_le(s.d, acc->0, q);
        }
    }
    if i == t {
        let q = pos[p as int]->0 as nat;
        lemma_candidate_above_start(s, pos, preds, i + 1, next->0);
        lemma_chain_trans(s.d, q, next->0, candidate(s, pos, preds, i + 1, next)->0);
    } else {
        lemma_candidate_above_pred(s, pos, preds, i + 1, next, t);
    }
}

/// In a state that a pass from node `k` on leaves as it is, no step from
/// `k` on changes anything.
pub proof fn lemma_fixed_steps(
    s: DomV,
    blocks: Seq<BlockV>,
    order: Seq<nat>,
    pos: Seq<Option<usize>>,
    entry: nat,
    k: nat,
    j: nat,
)
    requires
        s.d.len() == order.len(),
        s.known.len() == order.len(),
        pass_from(s, blocks, order, pos, entry, k) == s,
        k <= j < order.len(),
    ensures
        step(s, blocks, order, pos, entry, j) == s,
    decreases order.len() - k,
{
    let next = step(s, blocks, order, pos, entry, k);
    if next != s {
        let b = order[k as int];
        let c = candidate(s, pos, blocks[b as int].preds, 0, seed(s, k))->0;
        lemma_slack_update(s, k, c, 0);
        lemma_pass_settles(next, blocks, order, pos, entry, k + 1);
    }
    if k < j {
        lemma_fixed_steps(s, blocks, order, pos, entry, k + 1, j);
    }
}

/// The dominator tree of a function whose predecessor lists hold every
/// edge is settled.
pub proof fn lemma_dominators_settled(f: FuncV)
    requires
        preds_listed(f),
        rpo_of(f).len() <= usize::MAX,
    ensures
        settled(f),
{
    let order = rpo_of(f);
    let pos = positions(order, f.blocks.len());
    let s = dominators_of(f);
    lemma_rpo(f);
    lemma_dominators_rooted(f);
    lemma_iterate_known(f, initial(order.len()));
    lemma_iteration_is_fixed(initial(order.len()), f.blocks, order, pos, f.entry);
    assert(climbs(s.d)) by {
        assert forall|k: int| 0 < k < s.d.len() implies #[trigger] s.d[k] < k by {
            assert(s.known[k]);
        }
    }
    assert forall|i: int, j: int|
        0 <= i < order.len() && 0 < j < order.len() && #[trigger] edge(
            f.blocks,
            order[i],
            order[j],
        ) implies on_chain(s.d, i as nat, s.d[j] as nat) by {
        let b = order[j];
        let preds = f.blocks[b as int].preds;
        assert(f.entry < f.blocks.len()) by {
            if f.entry >= f.blocks.len() {
                assert(post_order_of(f).len() == 0);
            }
        }
        assert(order[0] != order[j]);
        lemma_fixed_steps(s, f.blocks, order, pos, f.entry, 0, j as nat);
        assert(s.known[j]);
        assert(s.d[j] < j);
        let c = candidate(s, pos, preds, 0, Some(s.d[j] as nat));
        lemma_candidate_kept(s, pos, preds, 0, s.d[j] as nat);
        assert(c == Some(s.d[j] as nat)) by {
            if improves(s, j as nat, c->0) {
                let next = step(s, f.blocks, order, pos, f.entry, j as nat);
                assert(next.d[j] == c->0);
            }
        }
        assert(preds.contains(order[i]));
        let t = choose|t: int| 0 <= t < preds.len() && preds[t] == order[i];
        lemma_positions_from(order, 0, Seq::new(f.blocks.len(), |x: int| None), i);
        assert(pos[order[i] as int] == Some(i as usize));
        assert(s.known[i]);
        lemma_candidate_above_pred(s, pos, preds, 0, Some(s.d[j] as nat), t);
    }
}

/// Every block on a path from the entry is reachable.
pub proof fn lemma_path_reachable(f: FuncV, path: Seq<nat>, t: int)
    requires
        is_path(f.blocks, path),
        path[0] == f.entry,
        0 <= t < path.len(),
    ensures
        rpo_of(f).contains(path[t]),
    decreases t,
{
    lemma_rpo(f);
    if t == 0 {
        assert(rpo_of(f)[0] == f.entry);
    } else {
        lemma_path_reachable(f, path, t - 1);
        assert(edge(f.blocks, path[t - 1], path[t - 1 + 1]));
        lemma_reachable_closed(f, path[t - 1], path[t]);
    }
}

/// The place of a block that the order names is where the order names it.
pub proof fn lemma_place(order: Seq<nat>, j: int)
    requires
        no_repeats(order),
        0 <= j < order.len(),
    ensures
        place(order, order[j]) == j,
{
    let k = place(order, order[j]);
    if k < j {
        assert(order[k] != order[j]);
    } else if j < k {
        assert(order[j] != order[k]);
    }
}

/// On a path from the entry that does not pass through node `a`, no block
/// has `a` as an ancestor in a settled tree.
pub proof fn lemma_off_chain(f: FuncV, path: Seq<nat>, a: nat, t: int)
    requires
        settled(f),
        is_path(f.blocks, path),
        path[0] == f.entry,
        forall|u: int| 0 <= u < path.len() ==> place(rpo_of(f), #[trigger] path[u]) != a,
        0 <= t < path.len(),
    ensures
        !on_chain(dominators_of(f).d, place(rpo_of(f), path[t]) as nat, a),
    decreases t,
{
    let order = rpo_of(f);
    let d = dominators_of(f).d;
    lemma_rpo(f);
    lemma_path_reachable(f, path, t);
    let q = place(order, path[t]);
    assert(q != a);
    if q != 0 {
        assert(t > 0) by {
            if t == 0 {
                lemma_place(order, 0);
            }
        }
        lemma_off_chain(f, path, a, t - 1);
        lemma_path_reachable(f, path, t - 1);
        let q0 = place(order, path[t - 1]);
        assert(edge(f.blocks, path[t - 1], path[t - 1 + 1]));
        assert(edge(f.blocks, order[q0], order[q]));
        assert(on_chain(d, q0 as nat, d[q] as nat));
        if on_chain(d, q as nat, a) {
            lemma_chain_trans(d, q0 as nat, d[q] as nat, a);
        }
    }
}

/// Every ancestor of a block in the dominator tree lies on every path
/// from the entry to the block, in a function whose predecessor lists hold
/// every edge.  Ancestors are given by their place in the reverse
/// post-order.
pub proof fn lemma_ancestor_on_path(f: FuncV, path: Seq<nat>, a: nat)
    requires
        preds_listed(f),
        rpo_of(f).len() <= usize::MAX,
        is_path(f.blocks, path),
        path[0] == f.entry,
        on_chain(dominators_of(f).d, place(rpo_of(f), path.last()) as nat, a),
    ensures
        a < rpo_of(f).len(),
        path.contains(rpo_of(f)[a as int]),
{
    let order = rpo_of(f);
    let s = dominators_of(f);
    lemma_rpo(f);
    lemma_dominators_rooted(f);
    lemma_dominators_settled(f);
    lemma_path_reachable(f, path, path.len() - 1);
    let jb = place(order, path.last());
    if forall|u: int| 0 <= u < path.len() ==> place(order, #[trigger] path[u]) != a {
        lemma_off_chain(f, path, a, path.len() - 1);
    }
    let u = choose|u: int| 0 <= u < path.len() && place(order, #[trigger] path[u]) == a;
    lemma_path_reachable(f, path, u);
    assert(path[u] == order[a as int]);
}

/// The immediate dominator of a block lies on every path from the entry
/// to the block, in a function whose predecessor lists hold every edge.
pub proof fn lemma_dominator_on_path(f: FuncV, path: Seq<nat>)
    requires
        preds_listed(f),
        rpo_of(f).len() <= usize::MAX,
        is_path(f.blocks, path),
        path[0] == f.entry,
    ensures
        idoms_of(f)[path.last() as int] is Some,
        path.contains(idoms_of(f)[path.last() as int]->0),
{
    let order = rpo_of(f);
    let s = dominators_of(f);
    let b = path.last();
    lemma_rpo(f);
    lemma_dominators_rooted(f);
    lemma_path_reachable(f, path, path.len() - 1);
    lemma_iterate_known(f, initial(order.len()));
    let jb = place(order, b);
    assert(s.known[jb]);
    assert(s.d[jb] < order.len()) by {
        if jb > 0 {
            assert(s.d[jb] < jb);
        }
    }
    lemma_idoms_from(s, order, 0, Seq::new(f.blocks.len(), |i: int| None), jb);
    let a = s.d[jb] as nat;
    assert(on_chain(s.d, a, a));
    assert(on_chain(s.d, jb as nat, a));
    lemma_ancestor_on_path(f, path, a);
}

/// The entry lies on every path from the entry, and it is an ancestor of
/// every reachable block in the dominator tree.
pub proof fn lemma_entry_is_root(f: FuncV, k: nat)
    requires
        preds_listed(f),
        rpo_of(f).len() <= usize::MAX,
        k < rpo_of(f).len(),
    ensures
        on_chain(dominators_of(f).d, k, 0),
    decreases k,
{
    let s = dominators_of(f);
    lemma_dominators_rooted(f);
    lemma_iterate_known(f, initial(rpo_of(f).len()));
    if k > 0 {
        assert(s.known[k as int]);
        lemma_entry_is_root(f, s.d[k as int] as nat);
    }
}

/// Whether the runner that climbs the tree from node `r` until it meets
/// block `stop` passes block `a`.
pub open spec fn visits(s: DomV, order: Seq<nat>, r: nat, stop: nat, a: nat) -> bool
    decreases r,
{
    r < order.len() && order[r as int] != stop && (order[r as int] == a || (r < s.d.len() && r
        < s.known.len() && s.known[r as int] && s.d[r as int] < r && visits(
        s,
        order,
        s.d[r as int] as nat,
        stop,
        a,
    )))
}

/// Whether the runner from predecessor `p` of block `b`, which climbs
/// until it meets the immediate dominator of `b`, passes block `a`.
pub open spec fn runs_through(
    s: DomV,
    order: Seq<nat>,
    pos: Seq<Option<usize>>,
    p: nat,
    b: nat,
    a: nat,
) -> bool {
    match (known_node(s, pos, p), known_node(s, pos, b)) {
        (Some(r), Some(kb)) => s.d[kb as int] < order.len() && visits(
            s,
            order,
            r,
            order[s.d[kb as int] as int],
            a,
        ),
        _ => false,
    }
}

/// Whether a runner from one of the predecessors from `i` on passes `a`.
pub open spec fn some_runner(
    s: DomV,
    order: Seq<nat>,
    pos: Seq<Option<usize>>,
    preds: Seq<nat>,
    i: nat,
    b: nat,
    a: nat,
) -> bool {
    exists|t: int| i <= t < preds.len() && #[trigger] runs_through(s, order, pos, preds[t], b, a)
}

/// Whether block `b` is in the dominance frontier of block `a` as the tree
/// says: `b` has at least two predecessors, and `a` lies on the way from
/// one of them up the tree to the immediate dominator of `b`, which is not
/// part of the way.
pub open spec fn in_frontier(f: FuncV, a: nat, b: nat) -> bool {
    &&& b < f.blocks.len()
    &&& f.blocks[b as int].preds.len() >= 2
    &&& some_runner(
        dominators_of(f),
        rpo_of(f),
        positions(rpo_of(f), f.blocks.len()),
        f.blocks[b as int].preds,
        0,
        b,
        a,
    )
}

/// Putting a block into an ascending list adds that block and nothing
/// else.
pub proof fn lemma_insert_sorted(s: Seq<nat>, x: nat, i: nat, y: nat)
    requires
        i <= s.len(),
    ensures
        insert_sorted(s, x, i).contains(y) <==> s.contains(y) || y == x,
    decreases s.len() - i,
{
    let r = insert_sorted(s, x, i);
    if i >= s.len() {
        assert(r == s.push(x));
        assert(r[s.len() as int] == x);
        if s.contains(y) {
            let k = choose|k: int| 0 <= k < s.len() && s[k] == y;
            assert(r[k] == y);
        }
        if r.contains(y) {
            let k = choose|k: int| 0 <= k < r.len() && r[k] == y;
            if k < s.len() {
                assert(s[k] == y);
            }
        }
    } else if s[i as int] == x {
        assert(s.contains(x));
    } else if s[i as int] > x {
        assert(r == s.insert(i as int, x));
        assert(r[i as int] == x);
        if s.contains(y) {
            let k = choose|k: int| 0 <= k < s.len() && s[k] == y;
            if k < i {
                assert(r[k] == y);
            } else {
                assert(r[k + 1] == y);
            }
        }
        if r.contains(y) {
            let k = choose|k: int| 0 <= k < r.len() && r[k] == y;
            if k < i {
                assert(s[k] == y);
            } else if k > i {
                assert(s[k - 1] == y);
            }
        }
    } else {
        lemma_insert_sorted(s, x, i + 1, y);
    }
}

/// A runner adds block `b` to the frontiers of the blocks that it passes,
/// and nothing else.
pub proof fn lemma_climb(
    s: DomV,
    order: Seq<nat>,
    r: nat,
    stop: nat,
    b: nat,
    df: Seq<Seq<nat>>,
    a: nat,
    y: nat,
)
    requires
        forall|k: int| 0 <= k < order.len() ==> (#[trigger] order[k]) < df.len(),
        a < df.len(),
    ensures
        climb(s, order, r, stop, b, df).len() == df.len(),
        climb(s, order, r, stop, b, df)[a as int].contains(y) <==> df[a as int].contains(y) || (y == b
            && visits(s, order, r, stop, a)),
    decreases r,
{
    if !(r >= order.len() || order[r as int] == stop || order[r as int] >= df.len()) {
        let runner = order[r as int] as int;
        let added = df.update(runner, insert_sorted(df[runner], b, 0));
        lemma_insert_sorted(df[runner], b, 0, y);
        if r < s.d.len() && r < s.known.len() && s.known[r as int] && s.d[r as int] < r {
            lemma_climb(s, order, s.d[r as int] as nat, stop, b, added, a, y);
        }
    }
}

/// The runners of a block add it to the frontiers of the blocks that they
/// pass, and nothing else.
pub proof fn lemma_frontier_preds(
    s: DomV,
    order: Seq<nat>,
    pos: Seq<Option<usize>>,
    preds: Seq<nat>,
    i: nat,
    b: nat,
    df: Seq<Seq<nat>>,
    a: nat,
    y: nat,
)
    requires
        forall|k: int| 0 <= k < order.len() ==> (#[trigger] order[k]) < df.len(),
        a < df.len(),
    ensures
        frontier_preds(s, order, pos, preds, i, b, df).len() == df.len(),
        frontier_preds(s, order, pos, preds, i, b, df)[a as int].contains(y) <==> df[a as int].contains(
            y,
        ) || (y == b && some_runner(s, order, pos, preds, i, b, a)),
    decreases preds.len() - i,
{
    if i < preds.len() {
        let next = match (known_node(s, pos, preds[i as int]), known_node(s, pos, b)) {
            (Some(r), Some(kb)) => if s.d[kb as int] < order.len() {
                climb(s, order, r, order[s.d[kb as int] as int], b, df)
            } else {
                df
            },
            _ => df,
        };
        match (known_node(s, pos, preds[i as int]), known_node(s, pos, b)) {
            (Some(r), Some(kb)) => {
                if s.d[kb as int] < order.len() {
                    lemma_climb(s, order, r, order[s.d[kb as int] as int], b, df, a, y);
                }
            },
            _ => {},
        }
        lemma_frontier_preds(s, order, pos, preds, i + 1, b, next, a, y);
        let here = runs_through(s, order, pos, preds[i as int], b, a);
        assert(next[a as int].contains(y) <==> df[a as int].contains(y) || (y == b && here));
        assert(some_runner(s, order, pos, preds, i, b, a) <==> here || some_runner(
            s,
            order,
            pos,
            preds,
            i + 1,
            b,
            a,
        )) by {
            if some_runner(s, order, pos, preds, i, b, a) {
                let t = choose|t: int|
                    i <= t < preds.len() && #[trigger] runs_through(s, order, pos, preds[t], b, a);
                if t != i {
                    assert(i + 1 <= t);
                }
            }
            if some_runner(s, order, pos, preds, i + 1, b, a) {
                let t = choose|t: int|
                    i + 1 <= t < preds.len() && #[trigger] runs_through(s, order, pos, preds[t], b, a);
                assert(i <= t);
            }
            if here {
                assert(runs_through(s, order, pos, preds[i as int], b, a));
            }
        }
    }
}

/// Whether the runners of block `b`, where it has at least two
/// predecessors, pass block `a`.
pub open spec fn joins(
    s: DomV,
    blocks: Seq<BlockV>,
    order: Seq<nat>,
    pos: Seq<Option<usize>>,
    a: nat,
    b: nat,
) -> bool {
    b < blocks.len() && blocks[b as int].preds.len() >= 2 && some_runner(
        s,
        order,
        pos,
        blocks[b as int].preds,
        0,
        b,
        a,
    )
}

/// The runners of the blocks from `b0` on add their blocks to the
/// frontiers of the blocks that they pass, and nothing else.
pub proof fn lemma_frontier_blocks(
    s: DomV,
    blocks: Seq<BlockV>,
    order: Seq<nat>,
    pos: Seq<Option<usize>>,
    b0: nat,
    df: Seq<Seq<nat>>,
    a: nat,
    y: nat,
)
    requires
        forall|k: int| 0 <= k < order.len() ==> (#[trigger] order[k]) < df.len(),
        a < df.len(),
    ensures
        frontier_blocks(s, blocks, order, pos, b0, df).len() == df.len(),
        frontier_blocks(s, blocks, order, pos, b0, df)[a as int].contains(y) <==> df[a as int].contains(
            y,
        ) || (b0 <= y && joins(s, blocks, order, pos, a, y)),
    decreases blocks.len() - b0,
{
    if b0 < blocks.len() {
        let next = if blocks[b0 as int].preds.len() >= 2 {
            frontier_preds(s, order, pos, blocks[b0 as int].preds, 0, b0, df)
        } else {
            df
        };
        if blocks[b0 as int].preds.len() >= 2 {
            lemma_frontier_preds(s, order, pos, blocks[b0 as int].preds, 0, b0, df, a, y);
        }
        lemma_frontier_blocks(s, blocks, order, pos, b0 + 1, next, a, y);
    }
}

/// The dominance frontier of a block holds exactly the blocks that the
/// tree puts there: block `b` is in the frontier of block `a` where `b`
/// has at least two predecessors and `a` lies on the way from one of them
/// up the tree to the immediate dominator of `b`.
pub proof fn lemma_frontier(f: FuncV, a: nat, b: nat)
    requires
        a < f.blocks.len(),
    ensures
        frontiers_of(f).len() == f.blocks.len(),
        frontiers_of(f)[a as int].contains(b) <==> in_frontier(f, a, b),
{
    lemma_rpo(f);
    let order = rpo_of(f);
    let empty = Seq::new(f.blocks.len(), |i: int| Seq::<nat>::empty());
    lemma_frontier_blocks(
        dominators_of(f),
        f.blocks,
        order,
        positions(order, f.blocks.len()),
        0,
        empty,
        a,
        b,
    );
    assert(!empty[a as int].contains(b));
}

} // verus!
