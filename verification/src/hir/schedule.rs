//! The linear schedule: the reachable blocks in reverse post-order and their
//! instructions laid end to end.

use crate::hir::reactive_function::{lemma_unvisited_update, unvisited};
use crate::hir::{
    at, lvalue_at, single_versions, term_successors, BasicBlock, BlockId, BlockV, FuncV,
    HIRFunction, IdentV, InstrV, Instruction,
};
use vstd::prelude::*;

verus! {

broadcast use vstd::std_specs::vec::group_vec_axioms;

/// The depth-first walk from block `b`: every block reached for the first
/// time is marked on entry and appended to the post-order when its
/// successors are done.  Blocks outside the list are skipped.
pub open spec fn dfs(blocks: Seq<BlockV>, b: nat, visited: Seq<bool>, po: Seq<nat>) -> (
    Seq<bool>,
    Seq<nat>,
)
    decreases unvisited(visited), 0nat,
    via dfs_decreases
{
    if b >= blocks.len() || b >= visited.len() || visited[b as int] {
        (visited, po)
    } else {
        let (v, p) = dfs_succs(
            blocks,
            term_successors(blocks[b as int].terminal),
            0,
            visited.update(b as int, true),
            po,
        );
        (v, p.push(b))
    }
}

/// The walk through the successors from position `i` on.
pub open spec fn dfs_succs(
    blocks: Seq<BlockV>,
    succs: Seq<nat>,
    i: nat,
    visited: Seq<bool>,
    po: Seq<nat>,
) -> (Seq<bool>, Seq<nat>)
    decreases unvisited(visited), 1 + succs.len() - i,
{
    if i >= succs.len() {
        (visited, po)
    } else {
        let (v, p) = dfs(blocks, succs[i as int], visited, po);
        if unvisited(v) <= unvisited(visited) {
            dfs_succs(blocks, succs, i + 1, v, p)
        } else {
            (v, p)
        }
    }
}

#[via_fn]
proof fn dfs_decreases(blocks: Seq<BlockV>, b: nat, visited: Seq<bool>, po: Seq<nat>) {
    if b < visited.len() && !visited[b as int] {
        lemma_unvisited_update(visited, b as int);
    }
}

/// The post-order of the blocks reachable from the entry.
pub open spec fn post_order_of(f: FuncV) -> Seq<nat> {
    dfs(f.blocks, f.entry, Seq::new(f.blocks.len(), |i: int| false), Seq::empty()).1
}

/// The reverse post-order of the blocks reachable from the entry.
pub open spec fn rpo_of(f: FuncV) -> Seq<nat> {
    post_order_of(f).reverse()
}

/// The instructions of the blocks `order[i..]`, appended to `acc`.
pub open spec fn flatten(blocks: Seq<BlockV>, order: Seq<nat>, i: nat, acc: Seq<InstrV>) -> Seq<
    InstrV,
>
    decreases order.len() - i,
{
    if i >= order.len() {
        acc
    } else {
        flatten(
            blocks,
            order,
            i + 1,
            if order[i as int] < blocks.len() {
                acc + blocks[order[i as int] as int].instructions
            } else {
                acc
            },
        )
    }
}

/// The linear schedule of a function: position `i` holds the `i`-th
/// instruction met when the reachable blocks are walked in reverse
/// post-order.
pub open spec fn schedule_of(f: FuncV) -> Seq<InstrV> {
    flatten(f.blocks, rpo_of(f), 0, Seq::empty())
}

/// No block occurs twice.
pub open spec fn no_repeats(s: Seq<nat>) -> bool {
    forall|i: int, j: int| #![trigger s[i], s[j]] 0 <= i < j < s.len() ==> s[i] != s[j]
}

/// Every block of the list is marked.
pub open spec fn all_marked(s: Seq<nat>, visited: Seq<bool>) -> bool {
    forall|i: int| 0 <= i < s.len() ==> (#[trigger] s[i]) < visited.len() && visited[s[i] as int]
}

/// What a walk does to the marks and the post-order.
pub open spec fn walked(visited: Seq<bool>, po: Seq<nat>, after: (Seq<bool>, Seq<nat>)) -> bool {
    &&& after.0.len() == visited.len()
    &&& forall|x: int| 0 <= x < visited.len() && visited[x] ==> #[trigger] after.0[x]
    &&& unvisited(after.0) <= unvisited(visited)
    &&& po.is_prefix_of(after.1)
    &&& no_repeats(after.1)
    &&& all_marked(after.1, after.0)
}

/// A walk marks each block that it adds to the post-order, adds no block
/// twice, and ends with the block it started from where that was unmarked.
pub proof fn lemma_dfs(blocks: Seq<BlockV>, b: nat, visited: Seq<bool>, po: Seq<nat>)
    requires
        no_repeats(po),
        all_marked(po, visited),
    ensures
        walked(visited, po, dfs(blocks, b, visited, po)),
        b < blocks.len() && b < visited.len() ==> dfs(blocks, b, visited, po).0[b as int],
        b < blocks.len() && b < visited.len() && !visited[b as int] ==> dfs(
            blocks,
            b,
            visited,
            po,
        ).1.len() > 0 && dfs(blocks, b, visited, po).1.last() == b,
    decreases unvisited(visited), 0nat,
{
    if b >= blocks.len() || b >= visited.len() || visited[b as int] {
        assert(po.subrange(0, po.len() as int) =~= po);
    } else {
        let inner = visited.update(b as int, true);
        lemma_unvisited_update(visited, b as int);
        let succs = term_successors(blocks[b as int].terminal);
        assert(all_marked(po, inner));
        lemma_dfs_succs(blocks, succs, 0, inner, po);
        let (v, p) = dfs_succs(blocks, succs, 0, inner, po);
        let r = p.push(b);
        assert(v[b as int]);
        assert(!po.contains(b)) by {
            if po.contains(b) {
                let k = choose|k: int| 0 <= k < po.len() && po[k] == b;
                assert(visited[po[k] as int]);
            }
        }
        lemma_not_added(blocks, succs, 0, inner, po, b);
        assert(no_repeats(r)) by {
            assert forall|i: int, j: int| #![trigger r[i], r[j]] 0 <= i < j < r.len() implies r[i]
                != r[j] by {
                if j == p.len() {
                    assert(r[i] == p[i]);
                    if p[i] == b {
                        assert(p.contains(b));
                    }
                } else {
                    assert(r[i] == p[i]);
                    assert(r[j] == p[j]);
                }
            }
        }
        assert(all_marked(r, v)) by {
            assert forall|i: int| 0 <= i < r.len() implies (#[trigger] r[i]) < v.len()
                && v[r[i] as int] by {
                if i < p.len() {
                    assert(r[i] == p[i]);
                }
            }
        }
        assert(po.is_prefix_of(r)) by {
            assert(r.subrange(0, po.len() as int) =~= p.subrange(0, po.len() as int));
        }
        assert forall|x: int| 0 <= x < visited.len() && visited[x] implies #[trigger] v[x] by {
            assert(inner[x]);
        }
    }
}

/// A walk through successors, like a walk from a block.
pub proof fn lemma_dfs_succs(
    blocks: Seq<BlockV>,
    succs: Seq<nat>,
    i: nat,
    visited: Seq<bool>,
    po: Seq<nat>,
)
    requires
        no_repeats(po),
        all_marked(po, visited),
    ensures
        walked(visited, po, dfs_succs(blocks, succs, i, visited, po)),
    decreases unvisited(visited), 1 + succs.len() - i,
{
    if i >= succs.len() {
        assert(po.subrange(0, po.len() as int) =~= po);
    } else {
        lemma_dfs(blocks, succs[i as int], visited, po);
        let (v, p) = dfs(blocks, succs[i as int], visited, po);
        lemma_dfs_succs(blocks, succs, i + 1, v, p);
        let (v2, p2) = dfs_succs(blocks, succs, i + 1, v, p);
        assert(po.is_prefix_of(p2)) by {
            assert(p2.subrange(0, po.len() as int) =~= p.subrange(0, po.len() as int));
        }
        assert forall|x: int| 0 <= x < visited.len() && visited[x] implies #[trigger] v2[x] by {
            assert(v[x]);
        }
    }
}

/// A block that is marked and not in the post-order before a walk through
/// successors is not in it afterwards.
pub proof fn lemma_not_added(
    blocks: Seq<BlockV>,
    succs: Seq<nat>,
    i: nat,
    visited: Seq<bool>,
    po: Seq<nat>,
    b: nat,
)
    requires
        no_repeats(po),
        all_marked(po, visited),
        b < visited.len(),
        visited[b as int],
        !po.contains(b),
    ensures
        !dfs_succs(blocks, succs, i, visited, po).1.contains(b),
    decreases unvisited(visited), 1 + succs.len() - i,
{
    if i < succs.len() {
        lemma_not_added_one(blocks, succs[i as int], visited, po, b);
        lemma_dfs(blocks, succs[i as int], visited, po);
        let (v, p) = dfs(blocks, succs[i as int], visited, po);
        lemma_not_added(blocks, succs, i + 1, v, p, b);
    }
}

/// A block that is marked and not in the post-order before a walk is not
/// in it afterwards.
pub proof fn lemma_not_added_one(
    blocks: Seq<BlockV>,
    from: nat,
    visited: Seq<bool>,
    po: Seq<nat>,
    b: nat,
)
    requires
        no_repeats(po),
        all_marked(po, visited),
        b < visited.len(),
        visited[b as int],
        !po.contains(b),
    ensures
        !dfs(blocks, from, visited, po).1.contains(b),
    decreases unvisited(visited), 0nat,
{
    if !(from >= blocks.len() || from >= visited.len() || visited[from as int]) {
        let inner = visited.update(from as int, true);
        lemma_unvisited_update(visited, from as int);
        let succs = term_successors(blocks[from as int].terminal);
        assert(all_marked(po, inner));
        lemma_not_added(blocks, succs, 0, inner, po, b);
        let p = dfs_succs(blocks, succs, 0, inner, po).1;
        let r = p.push(from);
        if r.contains(b) {
            let k = choose|k: int| 0 <= k < r.len() && r[k] == b;
            if k < p.len() {
                assert(p[k] == b);
                assert(p.contains(b));
            }
        }
    }
}

/// The reverse post-order names no block twice, names blocks of the
/// function only, and starts with the entry.
pub proof fn lemma_rpo(f: FuncV)
    ensures
        no_repeats(rpo_of(f)),
        forall|k: int| 0 <= k < rpo_of(f).len() ==> (#[trigger] rpo_of(f)[k]) < f.blocks.len(),
        f.entry < f.blocks.len() ==> rpo_of(f).len() > 0 && rpo_of(f)[0] == f.entry,
{
    let marks = Seq::new(f.blocks.len(), |i: int| false);
    lemma_dfs(f.blocks, f.entry, marks, Seq::empty());
    let po = post_order_of(f);
    let rpo = rpo_of(f);
    assert forall|i: int, j: int| #![trigger rpo[i], rpo[j]] 0 <= i < j < rpo.len() implies rpo[i]
        != rpo[j] by {
        assert(rpo[i] == po[po.len() - 1 - i]);
        assert(rpo[j] == po[po.len() - 1 - j]);
    }
    assert forall|k: int| 0 <= k < rpo.len() implies (#[trigger] rpo[k]) < f.blocks.len() by {
        assert(rpo[k] == po[po.len() - 1 - k]);
    }
    if f.entry < f.blocks.len() {
        assert(rpo[0] == po[po.len() - 1]);
    }
}

/// The reverse post-order names no more blocks than the function has.
pub proof fn lemma_rpo_short(f: FuncV)
    ensures
        rpo_of(f).len() <= f.blocks.len(),
{
    lemma_rpo(f);
    let order = rpo_of(f);
    let ints = Seq::new(order.len(), |i: int| order[i] as int);
    assert(ints.no_duplicates()) by {
        assert forall|i: int, j: int| 0 <= i < ints.len() && 0 <= j < ints.len() && i != j implies ints[i]
            != ints[j] by {
            if i < j {
                assert(order[i] != order[j]);
            } else {
                assert(order[j] != order[i]);
            }
        }
    }
    ints.unique_seq_to_set();
    let range = vstd::set_lib::set_int_range(0, f.blocks.len() as int);
    vstd::set_lib::lemma_int_range(0, f.blocks.len() as int);
    assert(ints.to_set().subset_of(range)) by {
        assert forall|x: int| ints.to_set().contains(x) implies range.contains(x) by {
            let i = choose|i: int| 0 <= i < ints.len() && ints[i] == x;
            assert(order[i] < f.blocks.len());
        }
    }
    vstd::set_lib::lemma_len_subset(ints.to_set(), range);
}

/// The identifier has at most one defining position in the schedule.
pub open spec fn defined_once(sched: Seq<InstrV>, d: IdentV) -> bool {
    forall|i: int, j: int|
        #![trigger sched[i], sched[j]]
        0 <= i < j < sched.len() ==> !(sched[i].lvalue == d && sched[j].lvalue == d)
}

/// Every identifier with a version of at least 1 has at most one defining
/// position in the schedule.
pub open spec fn versions_defined_once(sched: Seq<InstrV>) -> bool {
    forall|d: IdentV| d.id >= 1 ==> #[trigger] defined_once(sched, d)
}

/// Where position `k` of a layout comes from: the place in the order of
/// its block, and its place among the instructions of the block.  The
/// layout is that of the blocks `order[i..]` after `base` instructions.
pub open spec fn origin(blocks: Seq<BlockV>, order: Seq<nat>, i: nat, base: nat, k: nat) -> (nat, nat)
    decreases order.len() - i,
{
    if i >= order.len() {
        (i, 0)
    } else if order[i as int] < blocks.len() {
        let n = blocks[order[i as int] as int].instructions.len();
        if k < base + n {
            (i, (k - base) as nat)
        } else {
            origin(blocks, order, i + 1, base + n, k)
        }
    } else {
        origin(blocks, order, i + 1, base, k)
    }
}

/// A layout keeps what was laid out before, and a position after that
/// holds the instruction at its origin.
pub proof fn lemma_origin(blocks: Seq<BlockV>, order: Seq<nat>, i: nat, acc: Seq<InstrV>, k: int)
    requires
        0 <= k < flatten(blocks, order, i, acc).len(),
    ensures
        acc.len() <= flatten(blocks, order, i, acc).len(),
        k < acc.len() ==> flatten(blocks, order, i, acc)[k] == acc[k],
        k >= acc.len() ==> ({
            let (t, j) = origin(blocks, order, i, acc.len(), k as nat);
            &&& i <= t < order.len()
            &&& order[t as int] < blocks.len()
            &&& j < blocks[order[t as int] as int].instructions.len()
            &&& flatten(blocks, order, i, acc)[k] == blocks[order[t as int] as int].instructions[j as int]
        }),
    decreases order.len() - i,
{
    if i < order.len() {
        let next = if order[i as int] < blocks.len() {
            acc + blocks[order[i as int] as int].instructions
        } else {
            acc
        };
        lemma_origin(blocks, order, i + 1, next, k);
        lemma_layout_grows(blocks, order, i + 1, next);
        if k < acc.len() {
            assert(next[k] == acc[k]);
        } else if k < next.len() {
            assert(next[k] == blocks[order[i as int] as int].instructions[k - acc.len()]);
        }
    }
}

/// A layout is no shorter than what was laid out before.
pub proof fn lemma_layout_grows(blocks: Seq<BlockV>, order: Seq<nat>, i: nat, acc: Seq<InstrV>)
    ensures
        acc.len() <= flatten(blocks, order, i, acc).len(),
    decreases order.len() - i,
{
    if i < order.len() {
        let next = if order[i as int] < blocks.len() {
            acc + blocks[order[i as int] as int].instructions
        } else {
            acc
        };
        lemma_layout_grows(blocks, order, i + 1, next);
    }
}

/// A later position of a layout has a later origin.
pub proof fn lemma_origin_apart(
    blocks: Seq<BlockV>,
    order: Seq<nat>,
    i: nat,
    acc: Seq<InstrV>,
    k1: int,
    k2: int,
)
    requires
        acc.len() <= k1 < k2 < flatten(blocks, order, i, acc).len(),
    ensures
        ({
            let a = origin(blocks, order, i, acc.len(), k1 as nat);
            let b = origin(blocks, order, i, acc.len(), k2 as nat);
            a.0 < b.0 || (a.0 == b.0 && a.1 < b.1)
        }),
    decreases order.len() - i,
{
    if i < order.len() {
        let next = if order[i as int] < blocks.len() {
            acc + blocks[order[i as int] as int].instructions
        } else {
            acc
        };
        if k1 >= next.len() {
            lemma_origin_apart(blocks, order, i + 1, next, k1, k2);
        } else if k2 >= next.len() {
            lemma_origin(blocks, order, i + 1, next, k2);
        }
    }
}

/// Where every identifier with a version of at least 1 is defined by at
/// most one instruction of the blocks, it is defined at most once in the
/// schedule.
pub proof fn lemma_schedule_versions(f: FuncV)
    requires
        single_versions(f.blocks),
    ensures
        versions_defined_once(schedule_of(f)),
{
    let order = rpo_of(f);
    let sched = schedule_of(f);
    lemma_rpo(f);
    assert forall|d: IdentV| d.id >= 1 implies #[trigger] defined_once(sched, d) by {
        assert forall|i: int, j: int|
            #![trigger sched[i], sched[j]]
            0 <= i < j < sched.len() implies !(sched[i].lvalue == d && sched[j].lvalue == d) by {
            lemma_origin(f.blocks, order, 0, Seq::empty(), i);
            lemma_origin(f.blocks, order, 0, Seq::empty(), j);
            lemma_origin_apart(f.blocks, order, 0, Seq::empty(), i, j);
            let a = origin(f.blocks, order, 0, 0, i as nat);
            let b = origin(f.blocks, order, 0, 0, j as nat);
            let b1 = order[a.0 as int] as int;
            let b2 = order[b.0 as int] as int;
            if a.0 != b.0 {
                assert(order[a.0 as int] != order[b.0 as int]);
            }
            assert(at(f.blocks, b1, a.1 as int) && at(f.blocks, b2, b.1 as int));
            assert(sched[i].lvalue == lvalue_at(f.blocks, b1, a.1 as int));
            assert(sched[j].lvalue == lvalue_at(f.blocks, b2, b.1 as int));
        }
    }
}

/// Walks depth-first from `current`, as [`dfs`] says.
pub fn post_order(current: BlockId, blocks: &Vec<BasicBlock>, visited: &mut Vec<bool>, po: &mut Vec<
    BlockId,
>)
    ensures
        (final(visited)@, final(po).deep_view()) == dfs(
            blocks.deep_view(),
            current.deep_view(),
            old(visited)@,
            old(po).deep_view(),
        ),
        final(visited)@.len() == old(visited)@.len(),
        unvisited(final(visited)@) <= unvisited(old(visited)@),
        forall|k: int|
            old(po)@.len() <= k < final(po)@.len() ==> (#[trigger] final(po)@[k]).0 < blocks@.len(),
        final(po)@.len() >= old(po)@.len(),
        forall|k: int| 0 <= k < old(po)@.len() ==> final(po)@[k] == old(po)@[k],
    decreases unvisited(old(visited)@), 0nat,
{
    let b: usize = current.0;
    if b >= blocks.len() || b >= visited.len() || visited[b] {
        return ;
    }
    proof {
        lemma_unvisited_update(visited@, b as int);
    }
    visited[b] = true;
    let succs = blocks[b].successors();
    let ghost v0 = visited@;
    let ghost po0 = po.deep_view();
    let ghost bs = blocks.deep_view();
    let ghost ss = succs.deep_view();
    let mut i: usize = 0;
    while i < succs.len()
        invariant
            i <= succs.len(),
            visited@.len() == old(visited)@.len(),
            bs == blocks.deep_view(),
            ss == succs.deep_view(),
            unvisited(visited@) <= unvisited(v0),
            unvisited(v0) < unvisited(old(visited)@),
            dfs_succs(bs, ss, i as nat, visited@, po.deep_view()) == dfs_succs(bs, ss, 0, v0, po0),
            forall|k: int|
                old(po)@.len() <= k < po@.len() ==> (#[trigger] po@[k]).0 < blocks@.len(),
            po@.len() >= old(po)@.len(),
            forall|k: int| 0 <= k < old(po)@.len() ==> po@[k] == old(po)@[k],
        decreases succs.len() - i,
    {
        post_order(succs[i], blocks, visited, po);
        i += 1;
    }
    let ghost before = *po;
    po.push(current);
    assert(po.deep_view() =~= before.deep_view().push(current.deep_view()));
}

/// The reachable blocks in reverse post-order.
pub fn reverse_post_order(func: &HIRFunction) -> (rpo: Vec<BlockId>)
    ensures
        rpo.deep_view() == rpo_of(func.deep_view()),
        forall|k: int| 0 <= k < rpo@.len() ==> (#[trigger] rpo@[k]).0 < func.blocks@.len(),
{
    let mut visited: Vec<bool> = Vec::new();
    let mut i: usize = 0;
    while i < func.blocks.len()
        invariant
            i <= func.blocks.len(),
            visited@.len() == i,
            forall|k: int| 0 <= k < i ==> !visited@[k],
        decreases func.blocks.len() - i,
    {
        visited.push(false);
        i += 1;
    }
    assert(visited@ =~= Seq::new(func.blocks@.len(), |i: int| false));
    let mut po: Vec<BlockId> = Vec::new();
    assert(po.deep_view() =~= Seq::empty());
    post_order(func.entry_block, &func.blocks, &mut visited, &mut po);
    let mut rpo: Vec<BlockId> = Vec::new();
    let mut j: usize = po.len();
    while j > 0
        invariant
            j <= po.len(),
            rpo@.len() == po@.len() - j,
            forall|k: int| 0 <= k < rpo@.len() ==> rpo@[k] == po@[po@.len() - 1 - k],
            forall|k: int| 0 <= k < po@.len() ==> (#[trigger] po@[k]).0 < func.blocks@.len(),
        decreases j,
    {
        j -= 1;
        rpo.push(po[j]);
    }
    proof {
        assert(rpo.deep_view() =~= po.deep_view().reverse());
        assert forall|k: int| 0 <= k < rpo@.len() implies (#[trigger] rpo@[k]).0
            < func.blocks@.len() by {
            assert(po@[po@.len() - 1 - k].0 < func.blocks@.len());
        }
    }
    rpo
}

/// The linear schedule, as [`schedule_of`] says.
pub fn linearize_instructions(func: &HIRFunction) -> (r: Vec<&Instruction>)
    ensures
        r.deep_view() == schedule_of(func.deep_view()),
{
    let rpo = reverse_post_order(func);
    let ghost blocks = func.deep_view().blocks;
    let ghost order = rpo.deep_view();
    let mut r: Vec<&Instruction> = Vec::new();
    assert(r.deep_view() =~= Seq::empty());
    let mut i: usize = 0;
    while i < rpo.len()
        invariant
            i <= rpo.len(),
            blocks == func.blocks.deep_view(),
            order == rpo.deep_view(),
            forall|k: int| 0 <= k < rpo@.len() ==> (#[trigger] rpo@[k]).0 < func.blocks@.len(),
            flatten(blocks, order, i as nat, r.deep_view()) == flatten(
                blocks,
                order,
                0,
                Seq::empty(),
            ),
        decreases rpo.len() - i,
    {
        let block = &func.blocks[rpo[i].0];
        let ghost start = r.deep_view();
        let ghost base = r@;
        let mut j: usize = 0;
        while j < block.instructions.len()
            invariant
                j <= block.instructions.len(),
                r@.len() == base.len() + j,
                forall|k: int| 0 <= k < base.len() ==> r@[k] == base[k],
                forall|k: int| 0 <= k < j ==> *r@[base.len() + k] == block.instructions@[k],
            decreases block.instructions.len() - j,
        {
            r.push(&block.instructions[j]);
            j += 1;
        }
        assert(r.deep_view() =~= start + block.instructions.deep_view()) by {
            assert(start.len() == base.len());
            assert forall|k: int| 0 <= k < r.deep_view().len() implies r.deep_view()[k] == (start
                + block.instructions.deep_view())[k] by {
                if k < base.len() {
                    assert(r@[k] == base[k]);
                } else {
                    assert(*r@[base.len() + (k - base.len())] == block.instructions@[k
                        - base.len()]);
                }
            }
        }
        assert(order[i as int] == rpo@[i as int].0);
        i += 1;
    }
    r
}

} // verus!
