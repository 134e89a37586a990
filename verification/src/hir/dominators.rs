//! Immediate dominators and dominance frontiers.
//!
//! The iteration works on positions in the reverse post-order: node `k` is
//! the `k`-th block of that order, and the entry is node 0.  The dominator
//! of a node is replaced by the common ancestor of itself and the node's
//! predecessors, so it only ever moves towards the entry, which is why the
//! iteration ends, and in the end it is an ancestor of every predecessor.

use crate::hir::schedule::{lemma_rpo, no_repeats, reverse_post_order, rpo_of};
use crate::hir::{BasicBlock, BlockId, BlockV, FuncV, HIRFunction};
use vstd::prelude::*;

verus! {

broadcast use vstd::std_specs::vec::group_vec_axioms;

/// The position of every block in the order; `None` for a block that is not
/// in it.  Recorded from position `k` on.
pub open spec fn positions_from(order: Seq<nat>, k: nat, pos: Seq<Option<usize>>) -> Seq<
    Option<usize>,
>
    decreases order.len() - k,
{
    if k >= order.len() {
        pos
    } else {
        positions_from(
            order,
            k + 1,
            if order[k as int] < pos.len() {
                pos.update(order[k as int] as int, Some(k as usize))
            } else {
                pos
            },
        )
    }
}

/// The position of every block of `n` blocks in the order.
pub open spec fn positions(order: Seq<nat>, n: nat) -> Seq<Option<usize>> {
    positions_from(order, 0, Seq::new(n, |i: int| None))
}

/// The nearest common ancestor of nodes `a` and `b`: the one further from
/// the entry climbs until both meet.
pub open spec fn meet(d: Seq<usize>, a: nat, b: nat) -> nat
    decreases a + b,
{
    if a == b {
        a
    } else if a > b {
        if a < d.len() && d[a as int] < a {
            meet(d, d[a as int] as nat, b)
        } else {
            b
        }
    } else {
        if b < d.len() && d[b as int] < b {
            meet(d, a, d[b as int] as nat)
        } else {
            a
        }
    }
}

/// The state of the iteration: the immediate dominator of every node and
/// whether it is known yet.
pub ghost struct DomV {
    pub d: Seq<usize>,
    pub known: Seq<bool>,
}

/// The common ancestor of the predecessors from `i` on whose dominator is
/// known, folded into `acc`.
pub open spec fn candidate(
    s: DomV,
    pos: Seq<Option<usize>>,
    preds: Seq<nat>,
    i: nat,
    acc: Option<nat>,
) -> Option<nat>
    decreases preds.len() - i,
{
    if i >= preds.len() {
        acc
    } else {
        let p = preds[i as int];
        candidate(
            s,
            pos,
            preds,
            i + 1,
            if p < pos.len() && pos[p as int] is Some && pos[p as int]->0 < s.known.len()
                && s.known[pos[p as int]->0 as int] {
                match acc {
                    Some(c) => Some(meet(s.d, c, pos[p as int]->0 as nat)),
                    None => Some(pos[p as int]->0 as nat),
                }
            } else {
                acc
            },
        )
    }
}

/// Whether `c` improves on what is known of node `k`: it is closer to the
/// entry than `k` and than the dominator known so far.
pub open spec fn improves(s: DomV, k: nat, c: nat) -> bool {
    c < k && (!s.known[k as int] || c < s.d[k as int])
}

/// What the common ancestor of the predecessors of node `k` starts from:
/// the dominator of `k`, where it is known.
pub open spec fn seed(s: DomV, k: nat) -> Option<nat> {
    if s.known[k as int] {
        Some(s.d[k as int] as nat)
    } else {
        None
    }
}

/// One step of a pass: node `k`, unless it is the entry, takes the common
/// ancestor of its dominator, where it has one, and of its predecessors,
/// where that improves on what is known.
pub open spec fn step(s: DomV, blocks: Seq<BlockV>, order: Seq<nat>, pos: Seq<Option<usize>>, entry: nat, k: nat) -> DomV {
    let b = order[k as int];
    if b == entry || b >= blocks.len() {
        s
    } else {
        match candidate(s, pos, blocks[b as int].preds, 0, seed(s, k)) {
            Some(c) => if improves(s, k, c) {
                DomV { d: s.d.update(k as int, c as usize), known: s.known.update(k as int, true) }
            } else {
                s
            },
            None => s,
        }
    }
}

/// The steps of one pass from node `k` on.
pub open spec fn pass_from(
    s: DomV,
    blocks: Seq<BlockV>,
    order: Seq<nat>,
    pos: Seq<Option<usize>>,
    entry: nat,
    k: nat,
) -> DomV
    decreases order.len() - k,
{
    if k >= order.len() {
        s
    } else {
        pass_from(step(s, blocks, order, pos, entry, k), blocks, order, pos, entry, k + 1)
    }
}

/// The distance of a state from the end of the iteration: the sum, over the
/// nodes from `k` on, of the known dominator or, where none is known, the
/// number of nodes.
pub open spec fn slack(s: DomV, k: nat) -> nat
    decreases s.d.len() - k,
{
    if k >= s.d.len() {
        0
    } else {
        (if s.known[k as int] {
            s.d[k as int] as nat
        } else {
            s.d.len()
        }) + slack(s, k + 1)
    }
}

/// Passes are repeated until one changes nothing.
pub open spec fn iterate(
    s: DomV,
    blocks: Seq<BlockV>,
    order: Seq<nat>,
    pos: Seq<Option<usize>>,
    entry: nat,
) -> DomV
    decreases slack(s, 0),
{
    let next = pass_from(s, blocks, order, pos, entry, 0);
    if slack(next, 0) < slack(s, 0) {
        iterate(next, blocks, order, pos, entry)
    } else {
        next
    }
}

/// The state before the first pass: the entry dominates itself, nothing
/// else is known.
pub open spec fn initial(m: nat) -> DomV {
    DomV { d: Seq::new(m, |k: int| 0usize), known: Seq::new(m, |k: int| k == 0) }
}

/// The final state of the iteration for a function.
pub open spec fn dominators_of(f: FuncV) -> DomV {
    let order = rpo_of(f);
    iterate(initial(order.len()), f.blocks, order, positions(order, f.blocks.len()), f.entry)
}

/// The immediate dominator of every block, by block id, recorded from node
/// `k` on; `None` for unreachable blocks.
pub open spec fn idoms_from(s: DomV, order: Seq<nat>, k: nat, acc: Seq<Option<nat>>) -> Seq<
    Option<nat>,
>
    decreases order.len() - k,
{
    if k >= order.len() {
        acc
    } else {
        idoms_from(
            s,
            order,
            k + 1,
            if s.known[k as int] && order[k as int] < acc.len() && s.d[k as int] < order.len() {
                acc.update(order[k as int] as int, Some(order[s.d[k as int] as int]))
            } else {
                acc
            },
        )
    }
}

/// The immediate dominators of a function, indexed by block id.
pub open spec fn idoms_of(f: FuncV) -> Seq<Option<nat>> {
    idoms_from(dominators_of(f), rpo_of(f), 0, Seq::new(f.blocks.len(), |i: int| None))
}

/// `x` put into the ascending list `s`, unless it is there, looking from
/// position `i` on.
pub open spec fn insert_sorted(s: Seq<nat>, x: nat, i: nat) -> Seq<nat>
    decreases s.len() - i,
{
    if i >= s.len() {
        s.push(x)
    } else if s[i as int] == x {
        s
    } else if s[i as int] > x {
        s.insert(i as int, x)
    } else {
        insert_sorted(s, x, i + 1)
    }
}

/// The runner: from node `r` up to, and not including, the block `stop`,
/// block `b` joins the frontier of every node passed.
pub open spec fn climb(
    s: DomV,
    order: Seq<nat>,
    r: nat,
    stop: nat,
    b: nat,
    df: Seq<Seq<nat>>,
) -> Seq<Seq<nat>>
    decreases r,
{
    if r >= order.len() || order[r as int] == stop || order[r as int] >= df.len() {
        df
    } else {
        let runner = order[r as int] as int;
        let added = df.update(runner, insert_sorted(df[runner], b, 0));
        if r < s.d.len() && r < s.known.len() && s.known[r as int] && s.d[r as int] < r {
            climb(s, order, s.d[r as int] as nat, stop, b, added)
        } else {
            added
        }
    }
}

/// The node of a block whose dominator is known.
pub open spec fn known_node(s: DomV, pos: Seq<Option<usize>>, b: nat) -> Option<nat> {
    if b < pos.len() && pos[b as int] is Some && pos[b as int]->0 < s.known.len()
        && pos[b as int]->0 < s.d.len() && s.known[pos[b as int]->0 as int] {
        Some(pos[b as int]->0 as nat)
    } else {
        None
    }
}

/// The runners for the predecessors from `i` on of join block `b`.
pub open spec fn frontier_preds(
    s: DomV,
    order: Seq<nat>,
    pos: Seq<Option<usize>>,
    preds: Seq<nat>,
    i: nat,
    b: nat,
    df: Seq<Seq<nat>>,
) -> Seq<Seq<nat>>
    decreases preds.len() - i,
{
    if i >= preds.len() {
        df
    } else {
        frontier_preds(
            s,
            order,
            pos,
            preds,
            i + 1,
            b,
            match (known_node(s, pos, preds[i as int]), known_node(s, pos, b)) {
                (Some(r), Some(kb)) => if s.d[kb as int] < order.len() {
                    climb(s, order, r, order[s.d[kb as int] as int], b, df)
                } else {
                    df
                },
                _ => df,
            },
        )
    }
}

/// The frontiers after the blocks from `b` on: every block with at least
/// two predecessors sends a runner up from each of them.
pub open spec fn frontier_blocks(
    s: DomV,
    blocks: Seq<BlockV>,
    order: Seq<nat>,
    pos: Seq<Option<usize>>,
    b: nat,
    df: Seq<Seq<nat>>,
) -> Seq<Seq<nat>>
    decreases blocks.len() - b,
{
    if b >= blocks.len() {
        df
    } else {
        frontier_blocks(
            s,
            blocks,
            order,
            pos,
            b + 1,
            if blocks[b as int].preds.len() >= 2 {
                frontier_preds(s, order, pos, blocks[b as int].preds, 0, b, df)
            } else {
                df
            },
        )
    }
}

/// The dominance frontiers of a function, indexed by block id, each in
/// ascending order.
pub open spec fn frontiers_of(f: FuncV) -> Seq<Seq<nat>> {
    let order = rpo_of(f);
    frontier_blocks(
        dominators_of(f),
        f.blocks,
        order,
        positions(order, f.blocks.len()),
        0,
        Seq::new(f.blocks.len(), |i: int| Seq::empty()),
    )
}

/// The dominator tree of a function: for every block its immediate
/// dominator (`None` where the block is unreachable) and its dominance
/// frontier in ascending order.
#[derive(Debug)]
pub struct DominatorTree {
    pub idoms: Vec<Option<BlockId>>,
    pub dominance_frontiers: Vec<Vec<BlockId>>,
}

/// A machine integer, if any, as a natural number.
pub open spec fn as_nat(o: Option<usize>) -> Option<nat> {
    match o {
        Some(c) => Some(c as nat),
        None => None,
    }
}

/// Replacing a dominator by a closer one, or learning the first, lowers
/// the slack.
pub proof fn lemma_slack_update(s: DomV, k: nat, c: nat, j: nat)
    requires
        s.d.len() == s.known.len(),
        k < s.d.len(),
        improves(s, k, c),
        j <= s.d.len(),
    ensures
        j <= k ==> slack(
            DomV { d: s.d.update(k as int, c as usize), known: s.known.update(k as int, true) },
            j,
        ) < slack(s, j),
        j > k ==> slack(
            DomV { d: s.d.update(k as int, c as usize), known: s.known.update(k as int, true) },
            j,
        ) == slack(s, j),
    decreases s.d.len() - j,
{
    if j < s.d.len() {
        lemma_slack_update(s, k, c, j + 1);
    }
}

/// The position of every block, as [`positions`] says.
fn build_positions(rpo: &Vec<BlockId>, n: usize) -> (pos: Vec<Option<usize>>)
    ensures
        pos@ == positions(rpo.deep_view(), n as nat),
        pos@.len() == n,
        forall|b: int|
            0 <= b < n ==> ((#[trigger] pos@[b]) matches Some(k) ==> k < rpo@.len() && rpo@[k as int].0
                == b),
{
    let mut pos: Vec<Option<usize>> = Vec::new();
    let mut i: usize = 0;
    while i < n
        invariant
            i <= n,
            pos@.len() == i,
            forall|k: int| 0 <= k < i ==> pos@[k] is None,
        decreases n - i,
    {
        pos.push(None);
        i += 1;
    }
    assert(pos@ =~= Seq::new(n as nat, |i: int| None));
    let ghost start = pos@;
    let ghost order = rpo.deep_view();
    let mut k: usize = 0;
    while k < rpo.len()
        invariant
            k <= rpo.len(),
            pos@.len() == n,
            order == rpo.deep_view(),
            positions_from(order, k as nat, pos@) == positions_from(order, 0, start),
            forall|b: int|
                0 <= b < n ==> ((#[trigger] pos@[b]) matches Some(j) ==> j < rpo@.len() && rpo@[j as int].0
                    == b),
        decreases rpo.len() - k,
    {
        let b: usize = rpo[k].0;
        if b < n {
            pos[b] = Some(k);
        }
        k += 1;
    }
    pos
}

/// The nearest common ancestor of two nodes, as [`meet`] says.
pub fn intersect(d: &Vec<usize>, a: usize, b: usize) -> (r: usize)
    ensures
        r == meet(d@, a as nat, b as nat),
        a < d@.len() && b < d@.len() ==> r < d@.len(),
{
    let mut x: usize = a;
    let mut y: usize = b;
    while x != y
        invariant
            a < d@.len() && b < d@.len() ==> x < d@.len() && y < d@.len(),
            meet(d@, x as nat, y as nat) == meet(d@, a as nat, b as nat),
        decreases x + y,
    {
        if x > y {
            if x < d.len() && d[x] < x {
                x = d[x];
            } else {
                return y;
            }
        } else {
            if y < d.len() && d[y] < y {
                y = d[y];
            } else {
                return x;
            }
        }
    }
    x
}

/// The common ancestor of `start`, where there is one, and of the known
/// predecessors, as [`candidate`] says.
fn candidate_of(
    d: &Vec<usize>,
    known: &Vec<bool>,
    pos: &Vec<Option<usize>>,
    preds: &Vec<BlockId>,
    start: Option<usize>,
) -> (r: Option<usize>)
    requires
        d@.len() == known@.len(),
        start matches Some(c) ==> c < d@.len(),
    ensures
        as_nat(r) == candidate(
            DomV { d: d@, known: known@ },
            pos@,
            preds.deep_view(),
            0,
            as_nat(start),
        ),
        r matches Some(c) ==> c < d@.len(),
{
    let ghost s = DomV { d: d@, known: known@ };
    let ghost ps = preds.deep_view();
    let mut acc: Option<usize> = start;
    let mut i: usize = 0;
    while i < preds.len()
        invariant
            i <= preds.len(),
            d@.len() == known@.len(),
            s == (DomV { d: d@, known: known@ }),
            ps == preds.deep_view(),
            acc matches Some(c) ==> c < d@.len(),
            candidate(s, pos@, ps, i as nat, as_nat(acc)) == candidate(s, pos@, ps, 0, as_nat(start)),
        decreases preds.len() - i,
    {
        let p: usize = preds[i].0;
        if p < pos.len() {
            match pos[p] {
                Some(j) => {
                    if j < known.len() && known[j] {
                        acc = match acc {
                            Some(c) => Some(intersect(d, c, j)),
                            None => Some(j),
                        };
                    }
                },
                None => {},
            }
        }
        i += 1;
    }
    acc
}

/// Runs the passes until one changes nothing, as [`iterate`] says.
fn iterate_dominators(
    blocks: &Vec<BasicBlock>,
    rpo: &Vec<BlockId>,
    pos: &Vec<Option<usize>>,
    entry: BlockId,
) -> (r: (Vec<usize>, Vec<bool>))
    ensures
        (DomV { d: r.0@, known: r.1@ }) == iterate(
            initial(rpo@.len() as nat),
            blocks.deep_view(),
            rpo.deep_view(),
            pos@,
            entry.deep_view(),
        ),
        r.0@.len() == rpo@.len(),
        r.1@.len() == rpo@.len(),
{
    let m: usize = rpo.len();
    let mut d: Vec<usize> = Vec::new();
    let mut known: Vec<bool> = Vec::new();
    let mut i: usize = 0;
    while i < m
        invariant
            i <= m,
            d@.len() == i,
            known@.len() == i,
            forall|k: int| 0 <= k < i ==> d@[k] == 0 && known@[k] == (k == 0),
        decreases m - i,
    {
        d.push(0);
        known.push(i == 0);
        i += 1;
    }
    let ghost bs = blocks.deep_view();
    let ghost order = rpo.deep_view();
    let ghost e = entry.deep_view();
    let ghost target = iterate(initial(m as nat), bs, order, pos@, e);
    proof {
        assert(d@ =~= initial(m as nat).d);
        assert(known@ =~= initial(m as nat).known);
    }
    let mut changed: bool = true;
    while changed
        invariant
            d@.len() == m,
            known@.len() == m,
            forall|j: int| 0 <= j < m ==> d@[j] < m,
            m == rpo@.len(),
            bs == blocks.deep_view(),
            order == rpo.deep_view(),
            e == entry.deep_view(),
            changed ==> iterate(DomV { d: d@, known: known@ }, bs, order, pos@, e) == target,
            !changed ==> (DomV { d: d@, known: known@ }) == target,
        decreases
                slack(DomV { d: d@, known: known@ }, 0) + if changed {
                    1nat
                } else {
                    0nat
                },
    {
        changed = false;
        let ghost start = DomV { d: d@, known: known@ };
        let mut k: usize = 0;
        while k < m
            invariant
                k <= m,
                d@.len() == m,
                known@.len() == m,
                forall|j: int| 0 <= j < m ==> d@[j] < m,
                start.d.len() == m,
                m == rpo@.len(),
                bs == blocks.deep_view(),
                order == rpo.deep_view(),
                e == entry.deep_view(),
                pass_from(DomV { d: d@, known: known@ }, bs, order, pos@, e, k as nat) == pass_from(
                    start,
                    bs,
                    order,
                    pos@,
                    e,
                    0,
                ),
                changed ==> slack(DomV { d: d@, known: known@ }, 0) < slack(start, 0),
                !changed ==> (DomV { d: d@, known: known@ }) == start,
            decreases m - k,
        {
            let b: usize = rpo[k].0;
            if b != entry.0 && b < blocks.len() {
                let current = if known[k] {
                    Some(d[k])
                } else {
                    None
                };
                match candidate_of(&d, &known, pos, &blocks[b].preds, current) {
                    Some(c) => {
                        if c < k && (!known[k] || c < d[k]) {
                            proof {
                                lemma_slack_update(
                                    DomV { d: d@, known: known@ },
                                    k as nat,
                                    c as nat,
                                    0,
                                );
                            }
                            d[k] = c;
                            known[k] = true;
                            changed = true;
                        }
                    },
                    None => {},
                }
            }
            k += 1;
        }
    }
    (d, known)
}

/// The immediate dominators by block id, as [`idoms_from`] says.
fn build_idoms(d: &Vec<usize>, known: &Vec<bool>, rpo: &Vec<BlockId>, n: usize) -> (idoms: Vec<
    Option<BlockId>,
>)
    requires
        d@.len() == rpo@.len(),
        known@.len() == rpo@.len(),
    ensures
        idoms.deep_view() == idoms_from(
            DomV { d: d@, known: known@ },
            rpo.deep_view(),
            0,
            Seq::new(n as nat, |i: int| None),
        ),
        idoms@.len() == n,
{
    let mut idoms: Vec<Option<BlockId>> = Vec::new();
    let mut i: usize = 0;
    while i < n
        invariant
            i <= n,
            idoms@.len() == i,
            forall|k: int| 0 <= k < i ==> idoms@[k] is None,
        decreases n - i,
    {
        idoms.push(None);
        i += 1;
    }
    assert(idoms.deep_view() =~= Seq::new(n as nat, |i: int| None::<nat>));
    let ghost s = DomV { d: d@, known: known@ };
    let ghost order = rpo.deep_view();
    let ghost start = idoms.deep_view();
    let mut k: usize = 0;
    while k < rpo.len()
        invariant
            k <= rpo.len(),
            idoms@.len() == n,
            d@.len() == rpo@.len(),
            known@.len() == rpo@.len(),
            s == (DomV { d: d@, known: known@ }),
            order == rpo.deep_view(),
            idoms_from(s, order, k as nat, idoms.deep_view()) == idoms_from(s, order, 0, start),
        decreases rpo.len() - k,
    {
        let b: usize = rpo[k].0;
        if known[k] && b < n && d[k] < rpo.len() {
            let ghost before = idoms.deep_view();
            idoms[b] = Some(rpo[d[k]]);
            assert(idoms.deep_view() =~= before.update(
                b as int,
                Some(order[d@[k as int] as int]),
            ));
        }
        k += 1;
    }
    idoms
}

/// Puts `x` into the ascending list, as [`insert_sorted`] says.
fn sorted_insert(list: &mut Vec<BlockId>, x: BlockId)
    ensures
        final(list).deep_view() == insert_sorted(old(list).deep_view(), x.deep_view(), 0),
{
    let ghost s = list.deep_view();
    let mut i: usize = 0;
    while i < list.len()
        invariant
            i <= list.len(),
            *list == *old(list),
            s == list.deep_view(),
            insert_sorted(s, x.deep_view(), i as nat) == insert_sorted(s, x.deep_view(), 0),
        decreases list.len() - i,
    {
        if list[i].0 == x.0 {
            return ;
        }
        if list[i].0 > x.0 {
            list.insert(i, x);
            assert(list.deep_view() =~= s.insert(i as int, x.deep_view()));
            return ;
        }
        i += 1;
    }
    list.push(x);
    assert(list.deep_view() =~= s.push(x.deep_view()));
}

/// Sends the runner up from node `r`, as [`climb`] says.
fn run_up(
    d: &Vec<usize>,
    known: &Vec<bool>,
    rpo: &Vec<BlockId>,
    from: usize,
    stop: BlockId,
    b: BlockId,
    df: &mut Vec<Vec<BlockId>>,
)
    ensures
        final(df).deep_view() == climb(
            DomV { d: d@, known: known@ },
            rpo.deep_view(),
            from as nat,
            stop.deep_view(),
            b.deep_view(),
            old(df).deep_view(),
        ),
        final(df)@.len() == old(df)@.len(),
{
    let ghost s = DomV { d: d@, known: known@ };
    let ghost order = rpo.deep_view();
    let mut r: usize = from;
    loop
        invariant
            s == (DomV { d: d@, known: known@ }),
            order == rpo.deep_view(),
            df@.len() == old(df)@.len(),
            climb(s, order, r as nat, stop.deep_view(), b.deep_view(), df.deep_view()) == climb(
                s,
                order,
                from as nat,
                stop.deep_view(),
                b.deep_view(),
                old(df).deep_view(),
            ),
        decreases r,
    {
        if r >= rpo.len() {
            return ;
        }
        let runner: usize = rpo[r].0;
        if runner == stop.0 || runner >= df.len() {
            return ;
        }
        let ghost before = df.deep_view();
        sorted_insert(&mut df[runner], b);
        assert(df.deep_view() =~= before.update(
            runner as int,
            insert_sorted(before[runner as int], b.deep_view(), 0),
        ));
        if r < d.len() && r < known.len() && known[r] && d[r] < r {
            r = d[r];
        } else {
            return ;
        }
    }
}

/// The node of a block whose dominator is known, as [`known_node`] says.
fn node_of(d: &Vec<usize>, known: &Vec<bool>, pos: &Vec<Option<usize>>, b: usize) -> (r: Option<
    usize,
>)
    ensures
        as_nat(r) == known_node(DomV { d: d@, known: known@ }, pos@, b as nat),
        r matches Some(k) ==> k < d@.len() && k < known@.len(),
{
    if b < pos.len() {
        match pos[b] {
            Some(k) => {
                if k < known.len() && k < d.len() && known[k] {
                    return Some(k);
                }
            },
            None => {},
        }
    }
    None
}

/// The frontiers, as [`frontier_blocks`] says.
fn build_frontiers(
    d: &Vec<usize>,
    known: &Vec<bool>,
    blocks: &Vec<BasicBlock>,
    rpo: &Vec<BlockId>,
    pos: &Vec<Option<usize>>,
) -> (df: Vec<Vec<BlockId>>)
    ensures
        df.deep_view() == frontier_blocks(
            DomV { d: d@, known: known@ },
            blocks.deep_view(),
            rpo.deep_view(),
            pos@,
            0,
            Seq::new(blocks@.len(), |i: int| Seq::empty()),
        ),
        df@.len() == blocks@.len(),
{
    let n: usize = blocks.len();
    let mut df: Vec<Vec<BlockId>> = Vec::new();
    let mut i: usize = 0;
    while i < n
        invariant
            i <= n,
            df@.len() == i,
            forall|k: int| 0 <= k < i ==> (#[trigger] df@[k])@.len() == 0,
        decreases n - i,
    {
        df.push(Vec::new());
        i += 1;
    }
    assert(df.deep_view() =~= Seq::new(blocks@.len(), |i: int| Seq::<nat>::empty())) by {
        assert forall|k: int| 0 <= k < n implies df.deep_view()[k] == Seq::<nat>::empty() by {
            assert(df@[k]@.len() == 0);
            assert(df.deep_view()[k] =~= Seq::<nat>::empty());
        }
    }
    let ghost s = DomV { d: d@, known: known@ };
    let ghost bs = blocks.deep_view();
    let ghost order = rpo.deep_view();
    let ghost start = df.deep_view();
    let mut b: usize = 0;
    while b < n
        invariant
            b <= n,
            n == blocks@.len(),
            df@.len() == n,
            s == (DomV { d: d@, known: known@ }),
            bs == blocks.deep_view(),
            order == rpo.deep_view(),
            frontier_blocks(s, bs, order, pos@, b as nat, df.deep_view()) == frontier_blocks(
                s,
                bs,
                order,
                pos@,
                0,
                start,
            ),
        decreases n - b,
    {
        let preds = &blocks[b].preds;
        if preds.len() >= 2 {
            let ghost ps = preds.deep_view();
            let ghost before = df.deep_view();
            let mut i: usize = 0;
            while i < preds.len()
                invariant
                    i <= preds.len(),
                    b < n,
                    df@.len() == n,
                    s == (DomV { d: d@, known: known@ }),
                    order == rpo.deep_view(),
                    ps == preds.deep_view(),
                    frontier_preds(s, order, pos@, ps, i as nat, b as nat, df.deep_view())
                        == frontier_preds(s, order, pos@, ps, 0, b as nat, before),
                decreases preds.len() - i,
            {
                match (node_of(d, known, pos, preds[i].0), node_of(d, known, pos, b)) {
                    (Some(r), Some(kb)) => {
                        if d[kb] < rpo.len() {
                            run_up(d, known, rpo, r, rpo[d[kb]], BlockId(b), &mut df);
                        }
                    },
                    _ => {},
                }
                i += 1;
            }
        }
        b += 1;
    }
    df
}

impl DominatorTree {
    /// Computes the dominator tree, as [`idoms_of`] and [`frontiers_of`] say.
    pub fn compute(func: &HIRFunction) -> (tree: Self)
        ensures
            tree.idoms.deep_view() == idoms_of(func.deep_view()),
            tree.dominance_frontiers.deep_view() == frontiers_of(func.deep_view()),
            tree.idoms@.len() == func.blocks@.len(),
            tree.dominance_frontiers@.len() == func.blocks@.len(),
    {
        let rpo = reverse_post_order(func);
        let pos = build_positions(&rpo, func.blocks.len());
        let (d, known) = iterate_dominators(&func.blocks, &rpo, &pos, func.entry_block);
        let idoms = build_idoms(&d, &known, &rpo, func.blocks.len());
        let dominance_frontiers = build_frontiers(&d, &known, &func.blocks, &rpo, &pos);
        DominatorTree { idoms, dominance_frontiers }
    }
}

/// A pass from node `k` on either changes nothing or lowers the slack.
pub proof fn lemma_pass_settles(
    s: DomV,
    blocks: Seq<BlockV>,
    order: Seq<nat>,
    pos: Seq<Option<usize>>,
    entry: nat,
    k: nat,
)
    requires
        s.d.len() == order.len(),
        s.known.len() == order.len(),
    ensures
        pass_from(s, blocks, order, pos, entry, k).d.len() == order.len(),
        pass_from(s, blocks, order, pos, entry, k).known.len() == order.len(),
        pass_from(s, blocks, order, pos, entry, k) == s || slack(
            pass_from(s, blocks, order, pos, entry, k),
            0,
        ) < slack(s, 0),
    decreases order.len() - k,
{
    if k < order.len() {
        let next = step(s, blocks, order, pos, entry, k);
        if next != s {
            let b = order[k as int];
            let c = candidate(s, pos, blocks[b as int].preds, 0, seed(s, k))->0;
            lemma_slack_update(s, k, c, 0);
        }
        lemma_pass_settles(next, blocks, order, pos, entry, k + 1);
    }
}

/// The result of the iteration is a fixed point: one more pass over it
/// changes no immediate dominator.
pub proof fn lemma_iteration_is_fixed(
    s: DomV,
    blocks: Seq<BlockV>,
    order: Seq<nat>,
    pos: Seq<Option<usize>>,
    entry: nat,
)
    requires
        s.d.len() == order.len(),
        s.known.len() == order.len(),
    ensures
        pass_from(iterate(s, blocks, order, pos, entry), blocks, order, pos, entry, 0) == iterate(
            s,
            blocks,
            order,
            pos,
            entry,
        ),
    decreases slack(s, 0),
{
    let next = pass_from(s, blocks, order, pos, entry, 0);
    lemma_pass_settles(s, blocks, order, pos, entry, 0);
    if slack(next, 0) < slack(s, 0) {
        lemma_iteration_is_fixed(next, blocks, order, pos, entry);
    }
}

/// Applying the dominator iteration a second time to the dominators of a
/// function yields the same dominators.
pub proof fn lemma_dominators_idempotent(f: FuncV)
    ensures
        iterate(
            dominators_of(f),
            f.blocks,
            rpo_of(f),
            positions(rpo_of(f), f.blocks.len()),
            f.entry,
        ) == dominators_of(f),
{
    let order = rpo_of(f);
    let pos = positions(order, f.blocks.len());
    lemma_iteration_is_fixed(initial(order.len()), f.blocks, order, pos, f.entry);
}

/// The shape of a dominator tree over the order: the entry is its own
/// dominator, and the dominator of any other node, where known, comes
/// earlier in the order.
pub open spec fn rooted(s: DomV) -> bool {
    &&& s.d.len() == s.known.len()
    &&& s.d.len() > 0 ==> s.known[0] && s.d[0] == 0
    &&& forall|k: int| 0 < k < s.d.len() && #[trigger] s.known[k] ==> s.d[k] < k
}

/// A pass keeps the shape of the tree.
pub proof fn lemma_pass_rooted(
    s: DomV,
    blocks: Seq<BlockV>,
    order: Seq<nat>,
    pos: Seq<Option<usize>>,
    entry: nat,
    k: nat,
)
    requires
        rooted(s),
        s.d.len() == order.len(),
    ensures
        rooted(pass_from(s, blocks, order, pos, entry, k)),
        pass_from(s, blocks, order, pos, entry, k).d.len() == order.len(),
    decreases order.len() - k,
{
    if k < order.len() {
        let next = step(s, blocks, order, pos, entry, k);
        assert(rooted(next)) by {
            assert forall|j: int| 0 < j < next.d.len() && #[trigger] next.known[j] implies next.d[j]
                < j by {
                if j != k {
                    assert(s.known[j] == next.known[j]);
                }
            }
        }
        lemma_pass_rooted(next, blocks, order, pos, entry, k + 1);
    }
}

/// The iteration keeps the shape of the tree.
pub proof fn lemma_iterate_rooted(
    s: DomV,
    blocks: Seq<BlockV>,
    order: Seq<nat>,
    pos: Seq<Option<usize>>,
    entry: nat,
)
    requires
        rooted(s),
        s.d.len() == order.len(),
    ensures
        rooted(iterate(s, blocks, order, pos, entry)),
        iterate(s, blocks, order, pos, entry).d.len() == order.len(),
    decreases slack(s, 0),
{
    let next = pass_from(s, blocks, order, pos, entry, 0);
    lemma_pass_rooted(s, blocks, order, pos, entry, 0);
    if slack(next, 0) < slack(s, 0) {
        lemma_iterate_rooted(next, blocks, order, pos, entry);
    }
}

/// The dominators of a function have the shape of a tree.
pub proof fn lemma_dominators_rooted(f: FuncV)
    ensures
        rooted(dominators_of(f)),
        dominators_of(f).d.len() == rpo_of(f).len(),
{
    let order = rpo_of(f);
    let start = initial(order.len());
    assert(rooted(start));
    lemma_iterate_rooted(start, f.blocks, order, positions(order, f.blocks.len()), f.entry);
}

/// What is recorded for a block that the order names from `k` on.
pub proof fn lemma_idoms_from(s: DomV, order: Seq<nat>, k: nat, acc: Seq<Option<nat>>, j: int)
    requires
        no_repeats(order),
        s.d.len() == order.len(),
        s.known.len() == order.len(),
        k <= j < order.len(),
        order[j] < acc.len(),
        s.known[j],
        s.d[j] < order.len(),
    ensures
        idoms_from(s, order, k, acc).len() == acc.len(),
        idoms_from(s, order, k, acc)[order[j] as int] == Some(order[s.d[j] as int]),
    decreases order.len() - k,
{
    let next = if s.known[k as int] && order[k as int] < acc.len() && s.d[k as int] < order.len() {
        acc.update(order[k as int] as int, Some(order[s.d[k as int] as int]))
    } else {
        acc
    };
    if k == j {
        lemma_idoms_kept(s, order, k + 1, next, order[j]);
    } else {
        lemma_idoms_from(s, order, k + 1, next, j);
    }
}

/// What is recorded for a block that the order does not name from `k` on
/// is what was recorded before.
pub proof fn lemma_idoms_kept(s: DomV, order: Seq<nat>, k: nat, acc: Seq<Option<nat>>, b: nat)
    requires
        no_repeats(order),
        s.d.len() == order.len(),
        s.known.len() == order.len(),
        k <= order.len(),
        b < acc.len(),
        forall|j: int| k <= j < order.len() ==> order[j] != b,
    ensures
        idoms_from(s, order, k, acc).len() == acc.len(),
        idoms_from(s, order, k, acc)[b as int] == acc[b as int],
    decreases order.len() - k,
{
    if k < order.len() {
        let next = if s.known[k as int] && order[k as int] < acc.len() && s.d[k as int]
            < order.len() {
            acc.update(order[k as int] as int, Some(order[s.d[k as int] as int]))
        } else {
            acc
        };
        assert(order[k as int] != b);
        lemma_idoms_kept(s, order, k + 1, next, b);
    }
}

/// The entry is its own immediate dominator.
pub proof fn lemma_entry_dominates_itself(f: FuncV)
    requires
        f.entry < f.blocks.len(),
    ensures
        idoms_of(f).len() == f.blocks.len(),
        idoms_of(f)[f.entry as int] == Some(f.entry),
{
    lemma_rpo(f);
    lemma_dominators_rooted(f);
    let order = rpo_of(f);
    let s = dominators_of(f);
    lemma_idoms_from(s, order, 0, Seq::new(f.blocks.len(), |i: int| None), 0);
}

/// The immediate dominator of a reachable block other than the entry
/// comes before the block in the reverse post-order.
pub proof fn lemma_dominator_comes_first(f: FuncV, j: int)
    requires
        0 < j < rpo_of(f).len(),
        dominators_of(f).known[j],
    ensures
        dominators_of(f).d[j] < j,
        idoms_of(f)[rpo_of(f)[j] as int] == Some(rpo_of(f)[dominators_of(f).d[j] as int]),
{
    lemma_rpo(f);
    lemma_dominators_rooted(f);
    let order = rpo_of(f);
    let s = dominators_of(f);
    lemma_idoms_from(s, order, 0, Seq::new(f.blocks.len(), |i: int| None), j);
}

/// Only blocks reachable from the entry have an immediate dominator.
pub proof fn lemma_unreachable_has_no_dominator(f: FuncV, b: nat)
    requires
        b < f.blocks.len(),
        !rpo_of(f).contains(b),
    ensures
        idoms_of(f)[b as int] is None,
{
    lemma_rpo(f);
    lemma_dominators_rooted(f);
    let order = rpo_of(f);
    assert forall|j: int| 0 <= j < order.len() implies order[j] != b by {
        if order[j] == b {
            assert(order.contains(b));
        }
    }
    lemma_idoms_kept(dominators_of(f), order, 0, Seq::new(f.blocks.len(), |i: int| None), b);
}

} // verus!
