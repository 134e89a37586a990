use react_compiler_rust::hir::dominators::DominatorTree;
use react_compiler_rust::hir::{BasicBlock, BlockId, HIRFunction, Identifier, Place, Terminal};

fn place(name: &str) -> Place {
    Place { identifier: Identifier { name: name.to_string(), id: 0 } }
}

/// The terminal of a block with the given successors, in the given order.
fn terminal(succs: &[usize]) -> Terminal {
    match succs.split_last() {
        None => Terminal::Return(None),
        Some((last, rest)) if rest.is_empty() => Terminal::Goto(BlockId(*last)),
        Some((last, rest)) => Terminal::Switch {
            test: place("t0"),
            cases: rest.iter().map(|s| (place("t1"), BlockId(*s))).collect(),
            default: BlockId(*last),
            merge_target: None,
        },
    }
}

/// The function with blocks `0..n`, entry 0, whose edges are the bits of
/// `mask`: bit `u * n + v` is the edge from `u` to `v`.
fn graph(n: usize, mask: u64) -> (HIRFunction, Vec<Vec<usize>>) {
    let mut succs: Vec<Vec<usize>> = vec![vec![]; n];
    let mut preds: Vec<Vec<usize>> = vec![vec![]; n];
    for u in 0..n {
        for v in 0..n {
            if mask >> (u * n + v) & 1 == 1 {
                succs[u].push(v);
                preds[v].push(u);
            }
        }
    }
    let blocks = (0..n)
        .map(|b| BasicBlock {
            id: BlockId(b),
            instructions: vec![],
            terminal: terminal(&succs[b]),
            preds: preds[b].iter().map(|p| BlockId(*p)).collect(),
        })
        .collect();
    let f = HIRFunction { name: None, params: vec![], entry_block: BlockId(0), blocks, loop_headers: vec![] };
    (f, succs)
}

/// The blocks that can be reached from block 0 without passing through `avoid`.
fn reach(succs: &[Vec<usize>], avoid: Option<usize>) -> Vec<bool> {
    let mut seen = vec![false; succs.len()];
    if avoid == Some(0) {
        return seen;
    }
    let mut stack = vec![0];
    seen[0] = true;
    while let Some(u) = stack.pop() {
        for &v in &succs[u] {
            if Some(v) != avoid && !seen[v] {
                seen[v] = true;
                stack.push(v);
            }
        }
    }
    seen
}

/// The immediate dominators by their definition: `a` dominates `b` where
/// every path from the entry to `b` passes through `a`, and the immediate
/// dominator of `b` is the dominator other than `b` that every other one
/// dominates.
fn immediate_dominators(succs: &[Vec<usize>]) -> Vec<Option<usize>> {
    let n = succs.len();
    let reachable = reach(succs, None);
    let dominates: Vec<Vec<bool>> = (0..n)
        .map(|a| {
            let without = reach(succs, Some(a));
            (0..n).map(|b| reachable[b] && (a == b || !without[b])).collect()
        })
        .collect();
    (0..n)
        .map(|b| {
            if !reachable[b] {
                None
            } else if b == 0 {
                Some(0)
            } else {
                let strict: Vec<usize> = (0..n).filter(|&a| a != b && dominates[a][b]).collect();
                strict.iter().copied().find(|&a| strict.iter().all(|&o| dominates[o][a]))
            }
        })
        .collect()
}

fn check(n: usize, mask: u64) {
    let (f, succs) = graph(n, mask);
    let tree = DominatorTree::compute(&f);
    let expected = immediate_dominators(&succs);
    let found: Vec<Option<usize>> = tree.idoms.iter().map(|d| d.map(|b| b.0)).collect();
    assert_eq!(found, expected, "graph of {} blocks with edges {:#b}", n, mask);
}

#[test]
fn immediate_dominators_of_every_graph_of_up_to_three_blocks() {
    for n in 1..=3usize {
        for mask in 0..(1u64 << (n * n)) {
            check(n, mask);
        }
    }
}

#[test]
fn immediate_dominators_of_every_graph_of_four_blocks() {
    for mask in 0..(1u64 << 16) {
        check(4, mask);
    }
}

#[test]
fn immediate_dominators_of_many_graphs_of_five_to_seven_blocks() {
    let mut state: u64 = 0x9e3779b97f4a7c15;
    for round in 0..30000u64 {
        state = state.wrapping_mul(6364136223846793005).wrapping_add(1442695040888963407);
        let n = 5 + (round % 3) as usize;
        let mut mask = state >> 8;
        // thin the edges out in two rounds of three, so that long paths occur
        if round % 3 != 0 {
            state = state.wrapping_mul(6364136223846793005).wrapping_add(1442695040888963407);
            mask &= state >> 8;
        }
        check(n, mask & ((1u64 << (n * n)) - 1));
    }
}

/// The function with the given successor lists, entry 0.
fn graph_of(succs: &[Vec<usize>]) -> HIRFunction {
    let n = succs.len();
    let mut preds: Vec<Vec<usize>> = vec![vec![]; n];
    for u in 0..n {
        for &v in &succs[u] {
            if !preds[v].contains(&u) {
                preds[v].push(u);
            }
        }
    }
    let blocks = (0..n)
        .map(|b| BasicBlock {
            id: BlockId(b),
            instructions: vec![],
            terminal: terminal(&succs[b]),
            preds: preds[b].iter().map(|p| BlockId(*p)).collect(),
        })
        .collect();
    HIRFunction { name: None, params: vec![], entry_block: BlockId(0), blocks, loop_headers: vec![] }
}

fn next(state: &mut u64) -> usize {
    *state = state.wrapping_mul(6364136223846793005).wrapping_add(1442695040888963407);
    (*state >> 33) as usize
}

fn check_sparse(rounds: usize, seed: u64, most: usize) {
    let mut state = seed;
    for _ in 0..rounds {
        let n = 6 + next(&mut state) % (most - 5);
        let succs: Vec<Vec<usize>> = (0..n)
            .map(|_| {
                let k = next(&mut state) % 4;
                // none, one or two successors, as the terminals of a function have
                (0..k.min(2)).map(|_| next(&mut state) % n).collect()
            })
            .collect();
        let tree = DominatorTree::compute(&graph_of(&succs));
        let found: Vec<Option<usize>> = tree.idoms.iter().map(|d| d.map(|b| b.0)).collect();
        assert_eq!(found, immediate_dominators(&succs), "successors {:?}", succs);
    }
}

#[test]
fn immediate_dominators_of_many_sparse_graphs_of_up_to_nine_blocks() {
    check_sparse(40000, 0x2545f4914f6cdd1d, 9);
}

#[test]
fn immediate_dominators_of_many_sparse_graphs_of_up_to_fourteen_blocks() {
    check_sparse(30000, 0x9e3779b97f4a7c15, 14);
}

#[test]
fn immediate_dominators_of_many_sparse_graphs_of_up_to_twenty_blocks() {
    check_sparse(15000, 0xd1b54a32d192ed03, 20);
}
