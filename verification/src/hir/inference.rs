//! Liveness: the range of schedule positions over which each identifier is
//! live, with aliases merged by a union-find over identifiers.

use crate::hir::reactive_scopes::{get_operand_identifiers, operands};
use crate::hir::schedule::{linearize_instructions, schedule_of};
use crate::hir::{FuncV, HIRFunction, IdentV, Identifier, InstrV, Instruction, InstructionValue, ValueV};
use vstd::prelude::*;

verus! {

broadcast use vstd::std_specs::vec::group_vec_axioms;

/// A forest of parent links is sound: every link stays inside, and ranks
/// below `limit` grow strictly along every link that is no self-loop.
pub open spec fn forest_ok(parents: Seq<usize>, rank: Seq<nat>, limit: nat) -> bool {
    &&& rank.len() == parents.len()
    &&& forall|i: int|
        #![trigger parents[i]]
        0 <= i < parents.len() ==> {
            &&& parents[i] < parents.len()
            &&& rank[i] < limit
            &&& (parents[i] != i ==> rank[parents[i] as int] > rank[i])
        }
}

/// The root that the links lead to from node `i`.
pub open spec fn root_index(parents: Seq<usize>, rank: Seq<nat>, limit: nat, i: int) -> int
    decreases limit - rank[i],
    when forest_ok(parents, rank, limit) && 0 <= i < parents.len()
    via root_index_decreases
{
    if parents[i] == i {
        i
    } else {
        root_index(parents, rank, limit, parents[i] as int)
    }
}

#[via_fn]
proof fn root_index_decreases(parents: Seq<usize>, rank: Seq<nat>, limit: nat, i: int) {
    if parents[i] != i {
        assert(parents[parents[i] as int] < parents.len());
    }
}

/// The root of a node is a node that links to itself, and its rank is not
/// below the node's; it is above where the node is no root.
pub proof fn lemma_root(parents: Seq<usize>, rank: Seq<nat>, limit: nat, i: int)
    requires
        forest_ok(parents, rank, limit),
        0 <= i < parents.len(),
    ensures
        0 <= root_index(parents, rank, limit, i) < parents.len(),
        parents[root_index(parents, rank, limit, i)] == root_index(parents, rank, limit, i),
        rank[root_index(parents, rank, limit, i)] >= rank[i],
        parents[i] != i ==> rank[root_index(parents, rank, limit, i)] > rank[i],
    decreases limit - rank[i],
{
    if parents[i] != i {
        assert(parents[parents[i] as int] < parents.len());
        lemma_root(parents, rank, limit, parents[i] as int);
    }
}

/// Linking a node that is no root straight to its root changes no root.
pub proof fn lemma_compress(parents: Seq<usize>, rank: Seq<nat>, limit: nat, i: int, j: int)
    requires
        forest_ok(parents, rank, limit),
        0 <= i < parents.len(),
        0 <= j < parents.len(),
    ensures
        forest_ok(
            parents.update(i, root_index(parents, rank, limit, i) as usize),
            rank,
            limit,
        ),
        root_index(
            parents.update(i, root_index(parents, rank, limit, i) as usize),
            rank,
            limit,
            j,
        ) == root_index(parents, rank, limit, j),
    decreases limit - rank[j],
{
    let root = root_index(parents, rank, limit, i);
    lemma_root(parents, rank, limit, i);
    let after = parents.update(i, root as usize);
    assert(forest_ok(after, rank, limit)) by {
        assert forall|k: int|
            #![trigger after[k]]
            0 <= k < after.len() implies {
            &&& after[k] < after.len()
            &&& rank[k] < limit
            &&& (after[k] != k ==> rank[after[k] as int] > rank[k])
        } by {
            assert(parents[k] < parents.len());
        }
    }
    if after[j] != j {
        assert(parents[after[j] as int] < parents.len());
        assert(parents[j] < parents.len());
        lemma_compress(parents, rank, limit, i, after[j] as int);
        if j == i {
            lemma_root(parents, rank, limit, root);
            assert(root_index(parents, rank, limit, root) == root);
        }
    } else {
        if j == i {
            assert(root == i);
        }
    }
}

/// A new node that links to itself changes no root of the nodes before it.
pub proof fn lemma_extend(parents: Seq<usize>, rank: Seq<nat>, limit: nat, n: usize, j: int)
    requires
        forest_ok(parents, rank, limit),
        0 <= j < parents.len(),
        limit >= 1,
        n == parents.len(),
    ensures
        forest_ok(parents.push(n), rank.push(0), limit),
        root_index(parents.push(n), rank.push(0), limit, j) == root_index(parents, rank, limit, j),
    decreases limit - rank[j],
{
    let after = parents.push(n);
    let rank2 = rank.push(0);
    assert(forest_ok(after, rank2, limit)) by {
        assert forall|k: int|
            #![trigger after[k]]
            0 <= k < after.len() implies {
            &&& after[k] < after.len()
            &&& rank2[k] < limit
            &&& (after[k] != k ==> rank2[after[k] as int] > rank2[k])
        } by {
            if k < parents.len() {
                assert(parents[k] < parents.len());
            }
        }
    }
    if parents[j] != j {
        assert(parents[parents[j] as int] < parents.len());
        lemma_extend(parents, rank, limit, n, parents[j] as int);
    }
}

/// The rank of root `b` after root `a` is linked under it.
pub open spec fn linked_rank(rank: Seq<nat>, a: int, b: int) -> Seq<nat> {
    rank.update(
        b,
        if rank[b] > rank[a] {
            rank[b]
        } else {
            rank[a] + 1
        },
    )
}

/// Linking root `a` under root `b` sends every node of `a`'s tree to `b`
/// and changes no other root.
pub proof fn lemma_link(parents: Seq<usize>, rank: Seq<nat>, limit: nat, a: int, b: int, j: int)
    requires
        forest_ok(parents, rank, limit),
        0 <= a < parents.len(),
        0 <= b < parents.len(),
        0 <= j < parents.len(),
        parents[a] == a,
        parents[b] == b,
        a != b,
    ensures
        forest_ok(parents.update(a, b as usize), linked_rank(rank, a, b), limit + 1),
        root_index(parents.update(a, b as usize), linked_rank(rank, a, b), limit + 1, j) == if root_index(
            parents,
            rank,
            limit,
            j,
        ) == a {
            b
        } else {
            root_index(parents, rank, limit, j)
        },
    decreases limit - rank[j],
{
    let after = parents.update(a, b as usize);
    let rank2 = linked_rank(rank, a, b);
    assert(forest_ok(after, rank2, limit + 1)) by {
        assert forall|k: int|
            #![trigger after[k]]
            0 <= k < after.len() implies {
            &&& after[k] < after.len()
            &&& rank2[k] < limit + 1
            &&& (after[k] != k ==> rank2[after[k] as int] > rank2[k])
        } by {
            assert(parents[k] < parents.len());
            assert(rank[a] < limit);
            assert(rank[b] < limit);
        }
    }
    if parents[j] != j {
        assert(parents[parents[j] as int] < parents.len());
        lemma_link(parents, rank, limit, a, b, parents[j] as int);
    } else if j == a {
        assert(after[b] == b);
        assert(root_index(after, rank2, limit + 1, b) == b);
    }
}

/// No identifier occurs twice.
pub open spec fn distinct(keys: Seq<IdentV>) -> bool {
    forall|i: int, j: int| 0 <= i < j < keys.len() ==> keys[i] != keys[j]
}

/// The position of `id` among the keys.
pub open spec fn key_index(keys: Seq<IdentV>, id: IdentV) -> int {
    choose|i: int| 0 <= i < keys.len() && keys[i] == id
}

/// A union-find over identifiers.  An identifier that was never seen is alone
/// in its class and is its own representative.
pub struct DisjointSet {
    keys: Vec<Identifier>,
    parents: Vec<usize>,
    rank: Ghost<Seq<nat>>,
    limit: Ghost<nat>,
}

impl DisjointSet {
    /// The structure is sound.
    pub closed spec fn wf(&self) -> bool {
        &&& self.parents@.len() == self.keys@.len()
        &&& distinct(self.keys.deep_view())
        &&& forest_ok(self.parents@, self.rank@, self.limit@)
        &&& self.limit@ >= 1
    }

    /// The identifiers seen so far, in the order in which they were seen.
    pub closed spec fn members(&self) -> Seq<IdentV> {
        self.keys.deep_view()
    }

    /// The representative of the class of `id`.
    pub closed spec fn root_of(&self, id: IdentV) -> IdentV {
        let keys = self.keys.deep_view();
        if keys.contains(id) {
            keys[root_index(self.parents@, self.rank@, self.limit@, key_index(keys, id))]
        } else {
            id
        }
    }

    /// A set in which every identifier is alone in its class.
    pub fn new() -> (r: Self)
        ensures
            r.wf(),
            r.members() == Seq::<IdentV>::empty(),
            forall|id: IdentV| r.root_of(id) == id,
    {
        let r = DisjointSet {
            keys: Vec::new(),
            parents: Vec::new(),
            rank: Ghost(Seq::empty()),
            limit: Ghost(1),
        };
        assert(r.keys.deep_view() =~= Seq::empty());
        r
    }

    /// The position of `id` among the keys, if it was seen.
    fn lookup(&self, id: &Identifier) -> (r: Option<usize>)
        requires
            self.wf(),
        ensures
            match r {
                Some(i) => i < self.keys@.len() && self.keys.deep_view()[i as int]
                    == id.deep_view() && key_index(self.keys.deep_view(), id.deep_view()) == i,
                None => !self.keys.deep_view().contains(id.deep_view()),
            },
    {
        let mut i: usize = 0;
        while i < self.keys.len()
            invariant
                i <= self.keys.len(),
                self.wf(),
                forall|k: int| 0 <= k < i ==> self.keys.deep_view()[k] != id.deep_view(),
            decreases self.keys.len() - i,
        {
            if self.keys[i].same(id) {
                proof {
                    let keys = self.keys.deep_view();
                    let c = key_index(keys, id.deep_view());
                    assert(keys[i as int] == id.deep_view());
                    if c != i {
                        if c < i {
                            assert(keys[c] != keys[i as int]);
                        } else {
                            assert(keys[i as int] != keys[c]);
                        }
                    }
                }
                return Some(i);
            }
            i += 1;
        }
        None
    }

    /// The root of node `i`; the nodes on the way are linked straight to it.
    fn find_root(&mut self, i: usize) -> (r: usize)
        requires
            old(self).wf(),
            i < old(self).keys@.len(),
        ensures
            final(self).wf(),
            final(self).keys == old(self).keys,
            final(self).rank == old(self).rank,
            final(self).limit == old(self).limit,
            r == root_index(old(self).parents@, old(self).rank@, old(self).limit@, i as int),
            r < final(self).keys@.len(),
            forall|j: int|
                0 <= j < old(self).keys@.len() ==> root_index(
                    final(self).parents@,
                    final(self).rank@,
                    final(self).limit@,
                    j,
                ) == #[trigger] root_index(
                    old(self).parents@,
                    old(self).rank@,
                    old(self).limit@,
                    j,
                ),
        decreases old(self).limit@ - old(self).rank@[i as int],
    {
        let p: usize = self.parents[i];
        if p == i {
            return i;
        }
        assert(self.parents@[p as int] < self.parents@.len());
        let root = self.find_root(p);
        let ghost mid = self.parents@;
        proof {
            lemma_root(mid, self.rank@, self.limit@, i as int);
            assert(root_index(mid, self.rank@, self.limit@, p as int) == root_index(
                old(self).parents@,
                old(self).rank@,
                old(self).limit@,
                p as int,
            ));
            assert(root_index(mid, self.rank@, self.limit@, i as int) == root_index(
                old(self).parents@,
                old(self).rank@,
                old(self).limit@,
                i as int,
            ));
        }
        self.parents[i] = root;
        proof {
            assert(self.parents@ == mid.update(i as int, root));
            assert forall|j: int| 0 <= j < old(self).keys@.len() implies root_index(
                self.parents@,
                self.rank@,
                self.limit@,
                j,
            ) == #[trigger] root_index(
                old(self).parents@,
                old(self).rank@,
                old(self).limit@,
                j,
            ) by {
                lemma_compress(mid, self.rank@, self.limit@, i as int, j);
                assert(root_index(mid, self.rank@, self.limit@, j) == root_index(
                    old(self).parents@,
                    old(self).rank@,
                    old(self).limit@,
                    j,
                ));
            }
            lemma_compress(mid, self.rank@, self.limit@, i as int, 0);
        }
        root
    }

    /// The position of the representative of `id`; an identifier not seen
    /// before is added as its own class.
    fn find_index(&mut self, id: &Identifier) -> (r: usize)
        requires
            old(self).wf(),
        ensures
            final(self).wf(),
            r < final(self).keys@.len(),
            final(self).parents@[r as int] == r,
            final(self).keys.deep_view()[r as int] == old(self).root_of(id.deep_view()),
            final(self).members().contains(id.deep_view()),
            final(self).members() == if old(self).members().contains(id.deep_view()) {
                old(self).members()
            } else {
                old(self).members().push(id.deep_view())
            },
            forall|x: IdentV| #[trigger] final(self).root_of(x) == old(self).root_of(x),
            forall|j: int|
                0 <= j < old(self).keys@.len() ==> root_index(
                    final(self).parents@,
                    final(self).rank@,
                    final(self).limit@,
                    j,
                ) == #[trigger] root_index(
                    old(self).parents@,
                    old(self).rank@,
                    old(self).limit@,
                    j,
                ),
    {
        match self.lookup(id) {
            Some(i) => {
                let r = self.find_root(i);
                proof {
                    lemma_root(
                        old(self).parents@,
                        old(self).rank@,
                        old(self).limit@,
                        i as int,
                    );
                    lemma_root(self.parents@, self.rank@, self.limit@, i as int);
                    assert(self.keys.deep_view() == old(self).keys.deep_view());
                    assert forall|x: IdentV| #[trigger]
                        self.root_of(x) == old(self).root_of(x) by {
                        let keys = self.keys.deep_view();
                        if keys.contains(x) {
                            let k = key_index(keys, x);
                            assert(root_index(self.parents@, self.rank@, self.limit@, k)
                                == root_index(
                                old(self).parents@,
                                old(self).rank@,
                                old(self).limit@,
                                k,
                            ));
                        }
                    }
                }
                r
            },
            None => {
                let n: usize = self.keys.len();
                let ghost keys0 = self.keys.deep_view();
                self.keys.push(id.clone());
                self.parents.push(n);
                proof {
                    self.rank@ = self.rank@.push(0);
                    let keys = self.keys.deep_view();
                    assert(keys =~= keys0.push(id.deep_view()));
                    assert(keys[n as int] == id.deep_view());
                    if n > 0 {
                        lemma_extend(old(self).parents@, old(self).rank@, old(self).limit@, n, 0);
                    } else {
                        assert(forest_ok(self.parents@, self.rank@, self.limit@));
                    }
                    assert forall|j: int| 0 <= j < old(self).keys@.len() implies root_index(
                        self.parents@,
                        self.rank@,
                        self.limit@,
                        j,
                    ) == #[trigger] root_index(
                        old(self).parents@,
                        old(self).rank@,
                        old(self).limit@,
                        j,
                    ) by {
                        lemma_extend(old(self).parents@, old(self).rank@, old(self).limit@, n, j);
                    }
                    assert forall|x: IdentV| #[trigger]
                        self.root_of(x) == old(self).root_of(x) by {
                        if keys0.contains(x) {
                            let k0 = key_index(keys0, x);
                            assert(keys[k0] == x);
                            let k = key_index(keys, x);
                            if k != k0 {
                                if k < k0 {
                                    assert(keys[k] != keys[k0]);
                                } else {
                                    assert(keys[k0] != keys[k]);
                                }
                            }
                            lemma_extend(
                                old(self).parents@,
                                old(self).rank@,
                                old(self).limit@,
                                n,
                                k0,
                            );
                            lemma_root(
                                old(self).parents@,
                                old(self).rank@,
                                old(self).limit@,
                                k0,
                            );
                        } else if x == id.deep_view() {
                            let k = key_index(keys, x);
                            if k != n {
                                assert(keys0[k] == x);
                            }
                        } else {
                            if keys.contains(x) {
                                let k = choose|k: int| 0 <= k < keys.len() && keys[k] == x;
                                assert(keys0[k] == x);
                            }
                        }
                    }
                }
                n
            },
        }
    }

    /// A representative represents itself: the representative of the class
    /// of `id` is in that class and is its own representative.
    pub proof fn lemma_representative(&self, id: IdentV)
        requires
            self.wf(),
        ensures
            self.root_of(self.root_of(id)) == self.root_of(id),
            self.members().contains(id) ==> self.members().contains(self.root_of(id)),
    {
        let keys = self.keys.deep_view();
        if keys.contains(id) {
            let i = key_index(keys, id);
            let r = root_index(self.parents@, self.rank@, self.limit@, i);
            lemma_root(self.parents@, self.rank@, self.limit@, i);
            assert(keys[r] == self.root_of(id));
            let k = key_index(keys, keys[r]);
            if k != r {
                if k < r {
                    assert(keys[k] != keys[r]);
                } else {
                    assert(keys[r] != keys[k]);
                }
            }
            assert(root_index(self.parents@, self.rank@, self.limit@, r) == r);
        }
    }

    /// The representative of the class of `id`.  The classes stay as they
    /// were, and the representative is its own representative: a second
    /// call, on `id` or on the result, gives the same identifier.
    pub fn find(&mut self, id: &Identifier) -> (r: Identifier)
        requires
            old(self).wf(),
        ensures
            final(self).wf(),
            r.deep_view() == old(self).root_of(id.deep_view()),
            final(self).root_of(r.deep_view()) == r.deep_view(),
            final(self).root_of(id.deep_view()) == r.deep_view(),
            final(self).members().contains(r.deep_view()),
            final(self).members() == if old(self).members().contains(id.deep_view()) {
                old(self).members()
            } else {
                old(self).members().push(id.deep_view())
            },
            forall|x: IdentV| #[trigger] final(self).root_of(x) == old(self).root_of(x),
    {
        let i = self.find_index(id);
        proof {
            self.lemma_representative(id.deep_view());
        }
        self.keys[i].clone()
    }

    /// Merges the classes of `a` and `b`; the representative of `b`'s class
    /// becomes that of the merged class.
    pub fn union(&mut self, a: &Identifier, b: &Identifier)
        requires
            old(self).wf(),
        ensures
            final(self).wf(),
            forall|x: IdentV| #[trigger]
                final(self).root_of(x) == if old(self).root_of(x) == old(self).root_of(
                    a.deep_view(),
                ) {
                    old(self).root_of(b.deep_view())
                } else {
                    old(self).root_of(x)
                },
    {
        let ra = self.find_index(a);
        let ghost s1 = *self;
        let rb = self.find_index(b);
        let ghost s2 = *self;
        let ghost keys = s2.keys.deep_view();
        proof {
            assert(s1.keys.deep_view() == s1.members());
            assert(keys == s2.members());
            assert(keys[ra as int] == s1.keys.deep_view()[ra as int]);
            assert(root_index(s1.parents@, s1.rank@, s1.limit@, ra as int) == ra);
            assert(root_index(s2.parents@, s2.rank@, s2.limit@, ra as int) == ra);
            lemma_root(s2.parents@, s2.rank@, s2.limit@, ra as int);
            assert(s2.parents@[ra as int] == ra);
            assert(keys[ra as int] == old(self).root_of(a.deep_view()));
            assert(keys[rb as int] == s1.root_of(b.deep_view()));
        }
        if ra != rb {
            self.parents[ra] = rb;
            proof {
                self.rank@ = linked_rank(s2.rank@, ra as int, rb as int);
                self.limit@ = s2.limit@ + 1;
                lemma_link(s2.parents@, s2.rank@, s2.limit@, ra as int, rb as int, 0);
                assert(self.keys.deep_view() == keys);
                assert forall|x: IdentV| #[trigger]
                    self.root_of(x) == if old(self).root_of(x) == old(self).root_of(
                        a.deep_view(),
                    ) {
                        old(self).root_of(b.deep_view())
                    } else {
                        old(self).root_of(x)
                    } by {
                    assert(s2.root_of(x) == s1.root_of(x));
                    assert(s1.root_of(x) == old(self).root_of(x));
                    if keys.contains(x) {
                        let k = key_index(keys, x);
                        lemma_link(s2.parents@, s2.rank@, s2.limit@, ra as int, rb as int, k);
                        lemma_root(s2.parents@, s2.rank@, s2.limit@, k);
                        let r = root_index(s2.parents@, s2.rank@, s2.limit@, k);
                        if r != ra {
                            if r < ra {
                                assert(keys[r] != keys[ra as int]);
                            } else {
                                assert(keys[ra as int] != keys[r]);
                            }
                        }
                    } else {
                        assert(keys[ra as int] != x);
                    }
                }
            }
        } else {
            proof {
                assert forall|x: IdentV| #[trigger]
                    self.root_of(x) == if old(self).root_of(x) == old(self).root_of(
                        a.deep_view(),
                    ) {
                        old(self).root_of(b.deep_view())
                    } else {
                        old(self).root_of(x)
                    } by {
                    assert(s2.root_of(x) == s1.root_of(x));
                    assert(s1.root_of(x) == old(self).root_of(x));
                }
            }
        }
    }
}

/// The live range of one identifier: the half-open interval of schedule
/// positions from its definition to just past its last use.
#[derive(Debug)]
pub struct LiveRange {
    pub identifier: Identifier,
    pub start: usize,
    pub end: usize,
}

pub ghost struct RangeV {
    pub ident: IdentV,
    pub start: nat,
    pub end: nat,
}

impl DeepView for LiveRange {
    type V = RangeV;

    open spec fn deep_view(&self) -> RangeV {
        RangeV { ident: self.identifier.deep_view(), start: self.start as nat, end: self.end as nat }
    }
}

/// The first position from `i` on at which `id` is recorded.
pub open spec fn entry_index(entries: Seq<RangeV>, id: IdentV, i: nat) -> Option<nat>
    decreases entries.len() - i,
{
    if i >= entries.len() {
        None
    } else if entries[i as int].ident == id {
        Some(i)
    } else {
        entry_index(entries, id, i + 1)
    }
}

/// Records `[start, end)` for `id`, replacing what was recorded for it.
pub open spec fn set_range(entries: Seq<RangeV>, id: IdentV, start: nat, end: nat) -> Seq<RangeV> {
    match entry_index(entries, id, 0) {
        Some(k) => entries.update(k as int, RangeV { ident: id, start, end }),
        None => entries.push(RangeV { ident: id, start, end }),
    }
}

/// Every instruction from position `i` on starts the range of its lvalue
/// at its own position.
pub open spec fn define_all(instrs: Seq<InstrV>, i: nat, entries: Seq<RangeV>) -> Seq<RangeV>
    decreases instrs.len() - i,
{
    if i >= instrs.len() {
        entries
    } else {
        define_all(instrs, i + 1, set_range(entries, instrs[i as int].lvalue, i, i + 1))
    }
}

/// A use of `id` at position `idx` extends its range to cover the use; an
/// identifier without recorded range is left alone.
pub open spec fn mark_use(entries: Seq<RangeV>, id: IdentV, idx: nat) -> Seq<RangeV> {
    match entry_index(entries, id, 0) {
        Some(k) => entries.update(
            k as int,
            RangeV {
                end: if entries[k as int].end > idx + 1 {
                    entries[k as int].end
                } else {
                    idx + 1
                },
                ..entries[k as int]
            },
        ),
        None => entries,
    }
}

pub open spec fn mark_uses(entries: Seq<RangeV>, ids: Seq<IdentV>, j: nat, idx: nat) -> Seq<RangeV>
    decreases ids.len() - j,
{
    if j >= ids.len() {
        entries
    } else {
        mark_uses(mark_use(entries, ids[j as int], idx), ids, j + 1, idx)
    }
}

/// Every operand of every instruction from position `i` on is marked as
/// used at that position.
pub open spec fn use_all(instrs: Seq<InstrV>, i: nat, entries: Seq<RangeV>) -> Seq<RangeV>
    decreases instrs.len() - i,
{
    if i >= instrs.len() {
        entries
    } else {
        use_all(instrs, i + 1, mark_uses(entries, operands(instrs[i as int].value), 0, i))
    }
}

/// Every identifier is its own representative.
pub open spec fn identity_roots() -> spec_fn(IdentV) -> IdentV {
    |x: IdentV| x
}

/// The representatives after the classes of `a` and `b` are merged: the
/// representative of `b` takes over the class of `a`.
pub open spec fn union_roots(r: spec_fn(IdentV) -> IdentV, a: IdentV, b: IdentV) -> spec_fn(
    IdentV,
) -> IdentV {
    |x: IdentV|
        if r(x) == r(a) {
            r(b)
        } else {
            r(x)
        }
}

pub open spec fn alias_operands(
    r: spec_fn(IdentV) -> IdentV,
    dest: IdentV,
    operands: Seq<(nat, IdentV)>,
    j: nat,
) -> spec_fn(IdentV) -> IdentV
    decreases operands.len() - j,
{
    if j >= operands.len() {
        r
    } else {
        alias_operands(union_roots(r, dest, operands[j as int].1), dest, operands, j + 1)
    }
}

/// A copy merges its destination with its source, a Φ its destination with
/// each operand.
pub open spec fn alias_instr(r: spec_fn(IdentV) -> IdentV, instr: InstrV) -> spec_fn(
    IdentV,
) -> IdentV {
    match instr.value {
        ValueV::LoadLocal(src) => union_roots(r, instr.lvalue, src),
        ValueV::Phi { operands } => alias_operands(r, instr.lvalue, operands, 0),
        _ => r,
    }
}

pub open spec fn alias_all(instrs: Seq<InstrV>, i: nat, r: spec_fn(IdentV) -> IdentV) -> spec_fn(
    IdentV,
) -> IdentV
    decreases instrs.len() - i,
{
    if i >= instrs.len() {
        r
    } else {
        alias_all(instrs, i + 1, alias_instr(r, instrs[i as int]))
    }
}

/// The least start among `acc` and the entries from `j` on whose
/// representative is `r`.
pub open spec fn class_start(
    entries: Seq<RangeV>,
    roots: spec_fn(IdentV) -> IdentV,
    r: IdentV,
    j: nat,
    acc: nat,
) -> nat
    decreases entries.len() - j,
{
    if j >= entries.len() {
        acc
    } else {
        class_start(
            entries,
            roots,
            r,
            j + 1,
            if roots(entries[j as int].ident) == r && entries[j as int].start < acc {
                entries[j as int].start
            } else {
                acc
            },
        )
    }
}

/// The greatest end among `acc` and the entries from `j` on whose
/// representative is `r`.
pub open spec fn class_end(
    entries: Seq<RangeV>,
    roots: spec_fn(IdentV) -> IdentV,
    r: IdentV,
    j: nat,
    acc: nat,
) -> nat
    decreases entries.len() - j,
{
    if j >= entries.len() {
        acc
    } else {
        class_end(
            entries,
            roots,
            r,
            j + 1,
            if roots(entries[j as int].ident) == r && entries[j as int].end > acc {
                entries[j as int].end
            } else {
                acc
            },
        )
    }
}

/// Entry `k` with the union of the ranges of its class.
pub open spec fn merged_entry(entries: Seq<RangeV>, roots: spec_fn(IdentV) -> IdentV, k: int) -> RangeV {
    let e = entries[k];
    RangeV {
        ident: e.ident,
        start: class_start(entries, roots, roots(e.ident), 0, e.start),
        end: class_end(entries, roots, roots(e.ident), 0, e.end),
    }
}

/// Every entry with the union of the ranges of its class.
pub open spec fn merge_ranges(entries: Seq<RangeV>, roots: spec_fn(IdentV) -> IdentV) -> Seq<RangeV> {
    Seq::new(entries.len(), |k: int| merged_entry(entries, roots, k))
}

/// The alias classes of a function: the representative of every identifier
/// after all copies and Φs of the schedule are merged.
pub open spec fn alias_roots(f: FuncV) -> spec_fn(IdentV) -> IdentV {
    alias_all(schedule_of(f), 0, identity_roots())
}

/// The live ranges of a function, in the order in which the identifiers are
/// first defined in the schedule.
pub open spec fn live_ranges(f: FuncV) -> Seq<RangeV> {
    let s = schedule_of(f);
    merge_ranges(use_all(s, 0, define_all(s, 0, Seq::empty())), alias_roots(f))
}

/// A use never moves the start of a range and never lowers its end.
pub proof fn lemma_use_extends(entries: Seq<RangeV>, id: IdentV, idx: nat, k: int)
    requires
        0 <= k < entries.len(),
    ensures
        mark_use(entries, id, idx).len() == entries.len(),
        mark_use(entries, id, idx)[k].ident == entries[k].ident,
        mark_use(entries, id, idx)[k].start == entries[k].start,
        mark_use(entries, id, idx)[k].end >= entries[k].end,
{
    lemma_entry_index(entries, id, 0);
}

/// The ranges `wider` are those of `entries` with ends that are no lower.
pub open spec fn extends(wider: Seq<RangeV>, entries: Seq<RangeV>) -> bool {
    &&& wider.len() == entries.len()
    &&& forall|k: int|
        0 <= k < entries.len() ==> {
            &&& (#[trigger] wider[k]).ident == entries[k].ident
            &&& wider[k].start == entries[k].start
            &&& wider[k].end >= entries[k].end
        }
}

/// The start of a class does not depend on the ends.
pub proof fn lemma_class_start_same(
    wider: Seq<RangeV>,
    entries: Seq<RangeV>,
    roots: spec_fn(IdentV) -> IdentV,
    r: IdentV,
    j: nat,
    acc: nat,
)
    requires
        extends(wider, entries),
    ensures
        class_start(wider, roots, r, j, acc) == class_start(entries, roots, r, j, acc),
    decreases entries.len() - j,
{
    if j < entries.len() {
        assert(wider[j as int].ident == entries[j as int].ident);
        let next = if roots(entries[j as int].ident) == r && entries[j as int].start < acc {
            entries[j as int].start
        } else {
            acc
        };
        lemma_class_start_same(wider, entries, roots, r, j + 1, next);
    }
}

/// The end of a class is no lower where the ends of its members are no
/// lower.
pub proof fn lemma_class_end_grows(
    wider: Seq<RangeV>,
    entries: Seq<RangeV>,
    roots: spec_fn(IdentV) -> IdentV,
    r: IdentV,
    j: nat,
    more: nat,
    acc: nat,
)
    requires
        extends(wider, entries),
        more >= acc,
    ensures
        class_end(wider, roots, r, j, more) >= class_end(entries, roots, r, j, acc),
    decreases entries.len() - j,
{
    if j < entries.len() {
        assert(wider[j as int].ident == entries[j as int].ident);
        let next_more = if roots(wider[j as int].ident) == r && wider[j as int].end > more {
            wider[j as int].end
        } else {
            more
        };
        let next = if roots(entries[j as int].ident) == r && entries[j as int].end > acc {
            entries[j as int].end
        } else {
            acc
        };
        lemma_class_end_grows(wider, entries, roots, r, j + 1, next_more, next);
    }
}

/// Adding a use of an identifier can only extend the live ranges: after
/// the classes are merged, every range starts where it started without the
/// use and ends no earlier.
pub proof fn lemma_added_use_extends(
    entries: Seq<RangeV>,
    roots: spec_fn(IdentV) -> IdentV,
    id: IdentV,
    idx: nat,
    k: int,
)
    requires
        0 <= k < entries.len(),
    ensures
        merge_ranges(mark_use(entries, id, idx), roots).len() == merge_ranges(entries, roots).len(),
        merge_ranges(mark_use(entries, id, idx), roots)[k].ident == merge_ranges(
            entries,
            roots,
        )[k].ident,
        merge_ranges(mark_use(entries, id, idx), roots)[k].start == merge_ranges(
            entries,
            roots,
        )[k].start,
        merge_ranges(mark_use(entries, id, idx), roots)[k].end >= merge_ranges(entries, roots)[k].end,
{
    let wider = mark_use(entries, id, idx);
    assert(extends(wider, entries)) by {
        assert forall|j: int| 0 <= j < entries.len() implies {
            &&& (#[trigger] wider[j]).ident == entries[j].ident
            &&& wider[j].start == entries[j].start
            &&& wider[j].end >= entries[j].end
        } by {
            lemma_use_extends(entries, id, idx, j);
        }
        lemma_use_extends(entries, id, idx, k);
    }
    let r = roots(entries[k].ident);
    lemma_class_start_same(wider, entries, roots, r, 0, entries[k].start);
    lemma_class_end_grows(wider, entries, roots, r, 0, wider[k].end, entries[k].end);
}

/// What [`entry_index`] finds is a position of `id`.
pub proof fn lemma_entry_index(entries: Seq<RangeV>, id: IdentV, i: nat)
    ensures
        entry_index(entries, id, i) matches Some(k) ==> i <= k < entries.len() && entries[k as int].ident
            == id,
    decreases entries.len() - i,
{
    if i < entries.len() && entries[i as int].ident != id {
        lemma_entry_index(entries, id, i + 1);
    }
}

/// The result of liveness: the ranges and the alias classes.
pub struct LivenessResult {
    pub ranges: Vec<LiveRange>,
    pub aliases: DisjointSet,
}

fn find_entry(entries: &Vec<LiveRange>, id: &Identifier) -> (r: Option<usize>)
    ensures
        match r {
            Some(k) => entry_index(entries.deep_view(), id.deep_view(), 0) == Some(k as nat) && k
                < entries@.len(),
            None => entry_index(entries.deep_view(), id.deep_view(), 0) is None,
        },
{
    let mut i: usize = 0;
    while i < entries.len()
        invariant
            i <= entries.len(),
            entry_index(entries.deep_view(), id.deep_view(), i as nat) == entry_index(
                entries.deep_view(),
                id.deep_view(),
                0,
            ),
        decreases entries.len() - i,
    {
        if entries[i].identifier.same(id) {
            return Some(i);
        }
        i += 1;
    }
    None
}

impl LivenessResult {
    /// The range recorded for `id`, if any.
    pub fn range_of(&self, id: &Identifier) -> (r: Option<(usize, usize)>)
        ensures
            match entry_index(self.ranges.deep_view(), id.deep_view(), 0) {
                Some(k) => r == Some((self.ranges@[k as int].start, self.ranges@[k as int].end)),
                None => r is None,
            },
    {
        proof {
            lemma_entry_index(self.ranges.deep_view(), id.deep_view(), 0);
        }
        match find_entry(&self.ranges, id) {
            Some(k) => Some((self.ranges[k].start, self.ranges[k].end)),
            None => None,
        }
    }
}

fn record_range(entries: &mut Vec<LiveRange>, id: &Identifier, start: usize, end: usize)
    ensures
        final(entries).deep_view() == set_range(
            old(entries).deep_view(),
            id.deep_view(),
            start as nat,
            end as nat,
        ),
{
    let entry = LiveRange { identifier: id.clone(), start, end };
    match find_entry(entries, id) {
        Some(k) => {
            entries[k] = entry;
            assert(entries.deep_view() =~= old(entries).deep_view().update(
                k as int,
                entry.deep_view(),
            ));
        },
        None => {
            entries.push(entry);
            assert(entries.deep_view() =~= old(entries).deep_view().push(entry.deep_view()));
        },
    }
}

fn record_use(entries: &mut Vec<LiveRange>, id: &Identifier, idx: usize)
    requires
        idx < usize::MAX,
    ensures
        final(entries).deep_view() == mark_use(old(entries).deep_view(), id.deep_view(), idx as nat),
{
    match find_entry(entries, id) {
        Some(k) => {
            if entries[k].end < idx + 1 {
                entries[k].end = idx + 1;
            }
            assert(entries.deep_view() =~= mark_use(
                old(entries).deep_view(),
                id.deep_view(),
                idx as nat,
            ));
        },
        None => {},
    }
}

/// Merges the aliases of one instruction, as [`alias_instr`] says.
fn alias_instruction(aliases: &mut DisjointSet, instr: &Instruction, Ghost(r): Ghost<
    spec_fn(IdentV) -> IdentV,
>)
    requires
        old(aliases).wf(),
        forall|x: IdentV| #[trigger] old(aliases).root_of(x) == r(x),
    ensures
        final(aliases).wf(),
        forall|x: IdentV| #[trigger]
            final(aliases).root_of(x) == alias_instr(r, instr.deep_view())(x),
{
    match &instr.value {
        InstructionValue::LoadLocal(src) => {
            aliases.union(&instr.lvalue.identifier, &src.identifier);
        },
        InstructionValue::Phi { operands } => {
            let ghost mut cur = r;
            let ghost dest = instr.lvalue.deep_view();
            let ghost ops = operands.deep_view();
            let mut j: usize = 0;
            while j < operands.len()
                invariant
                    j <= operands.len(),
                    aliases.wf(),
                    dest == instr.lvalue.deep_view(),
                    ops == operands.deep_view(),
                    forall|x: IdentV| #[trigger] aliases.root_of(x) == cur(x),
                    alias_operands(cur, dest, ops, j as nat) == alias_operands(r, dest, ops, 0),
                decreases operands.len() - j,
            {
                aliases.union(&instr.lvalue.identifier, &operands[j].1.identifier);
                proof {
                    cur = union_roots(cur, dest, ops[j as int].1);
                }
                j += 1;
            }
        },
        _ => {},
    }
}

/// The ranges after the definitions and uses of the schedule.
fn scan_ranges(sched: &Vec<&Instruction>) -> (entries: Vec<LiveRange>)
    ensures
        entries.deep_view() == use_all(
            sched.deep_view(),
            0,
            define_all(sched.deep_view(), 0, Seq::empty()),
        ),
{
    let ghost s = sched.deep_view();
    let mut entries: Vec<LiveRange> = Vec::new();
    assert(entries.deep_view() =~= Seq::empty());
    let mut i: usize = 0;
    while i < sched.len()
        invariant
            i <= sched.len(),
            s == sched.deep_view(),
            define_all(s, i as nat, entries.deep_view()) == define_all(s, 0, Seq::empty()),
        decreases sched.len() - i,
    {
        record_range(&mut entries, &sched[i].lvalue.identifier, i, i + 1);
        i += 1;
    }
    let ghost defined = entries.deep_view();
    i = 0;
    while i < sched.len()
        invariant
            i <= sched.len(),
            s == sched.deep_view(),
            use_all(s, i as nat, entries.deep_view()) == use_all(s, 0, defined),
        decreases sched.len() - i,
    {
        let ops = get_operand_identifiers(&sched[i].value);
        let ghost before = entries.deep_view();
        let mut j: usize = 0;
        while j < ops.len()
            invariant
                j <= ops.len(),
                i < sched.len(),
                mark_uses(entries.deep_view(), ops.deep_view(), j as nat, i as nat) == mark_uses(
                    before,
                    ops.deep_view(),
                    0,
                    i as nat,
                ),
            decreases ops.len() - j,
        {
            record_use(&mut entries, &ops[j], i);
            j += 1;
        }
        i += 1;
    }
    entries
}

/// The alias classes of the schedule.
fn scan_aliases(sched: &Vec<&Instruction>) -> (aliases: DisjointSet)
    ensures
        aliases.wf(),
        forall|x: IdentV| #[trigger]
            aliases.root_of(x) == alias_all(sched.deep_view(), 0, identity_roots())(x),
{
    let ghost s = sched.deep_view();
    let mut aliases = DisjointSet::new();
    let ghost mut cur = identity_roots();
    let mut i: usize = 0;
    while i < sched.len()
        invariant
            i <= sched.len(),
            s == sched.deep_view(),
            aliases.wf(),
            forall|x: IdentV| #[trigger] aliases.root_of(x) == cur(x),
            alias_all(s, i as nat, cur) == alias_all(s, 0, identity_roots()),
        decreases sched.len() - i,
    {
        alias_instruction(&mut aliases, sched[i], Ghost(cur));
        proof {
            cur = alias_instr(cur, s[i as int]);
        }
        i += 1;
    }
    aliases
}

/// Gives every entry the union of the ranges of its class, as
/// [`merge_ranges`] says.
fn merge_classes(entries: &Vec<LiveRange>, aliases: &mut DisjointSet, Ghost(roots): Ghost<
    spec_fn(IdentV) -> IdentV,
>) -> (merged: Vec<LiveRange>)
    requires
        old(aliases).wf(),
        forall|x: IdentV| #[trigger] old(aliases).root_of(x) == roots(x),
    ensures
        final(aliases).wf(),
        forall|x: IdentV| #[trigger] final(aliases).root_of(x) == roots(x),
        merged.deep_view() == merge_ranges(entries.deep_view(), roots),
{
    let ghost es = entries.deep_view();
    let mut reps: Vec<Identifier> = Vec::new();
    let mut i: usize = 0;
    while i < entries.len()
        invariant
            i <= entries.len(),
            es == entries.deep_view(),
            aliases.wf(),
            forall|x: IdentV| #[trigger] aliases.root_of(x) == roots(x),
            reps@.len() == i,
            forall|k: int| 0 <= k < i ==> (#[trigger] reps@[k]).deep_view() == roots(es[k].ident),
        decreases entries.len() - i,
    {
        let r = aliases.find(&entries[i].identifier);
        reps.push(r);
        i += 1;
    }
    let mut merged: Vec<LiveRange> = Vec::new();
    i = 0;
    while i < entries.len()
        invariant
            i <= entries.len(),
            es == entries.deep_view(),
            reps@.len() == entries@.len(),
            forall|k: int|
                0 <= k < reps@.len() ==> (#[trigger] reps@[k]).deep_view() == roots(es[k].ident),
            merged@.len() == i,
            forall|k: int|
                0 <= k < i ==> (#[trigger] merged@[k]).deep_view() == merged_entry(es, roots, k),
        decreases entries.len() - i,
    {
        let mut start: usize = entries[i].start;
        let mut end: usize = entries[i].end;
        let ghost r = roots(es[i as int].ident);
        let mut j: usize = 0;
        while j < entries.len()
            invariant
                j <= entries.len(),
                i < entries.len(),
                es == entries.deep_view(),
                reps@.len() == entries@.len(),
                r == reps@[i as int].deep_view(),
                forall|k: int|
                    0 <= k < reps@.len() ==> (#[trigger] reps@[k]).deep_view() == roots(
                        es[k].ident,
                    ),
                class_start(es, roots, r, j as nat, start as nat) == class_start(
                    es,
                    roots,
                    r,
                    0,
                    es[i as int].start,
                ),
                class_end(es, roots, r, j as nat, end as nat) == class_end(
                    es,
                    roots,
                    r,
                    0,
                    es[i as int].end,
                ),
            decreases entries.len() - j,
        {
            if reps[j].same(&reps[i]) {
                if entries[j].start < start {
                    start = entries[j].start;
                }
                if entries[j].end > end {
                    end = entries[j].end;
                }
            }
            j += 1;
        }
        merged.push(LiveRange { identifier: entries[i].identifier.clone(), start, end });
        i += 1;
    }
    assert(merged.deep_view() =~= merge_ranges(es, roots));
    merged
}

/// Computes the live ranges and alias classes of a function, as
/// [`live_ranges`] and [`alias_roots`] say.
pub fn infer_liveness(func: &HIRFunction) -> (r: LivenessResult)
    ensures
        r.ranges.deep_view() == live_ranges(func.deep_view()),
        r.aliases.wf(),
        forall|x: IdentV| #[trigger] r.aliases.root_of(x) == alias_roots(func.deep_view())(x),
{
    let sched = linearize_instructions(func);
    let entries = scan_ranges(&sched);
    let mut aliases = scan_aliases(&sched);
    let ranges = merge_classes(&entries, &mut aliases, Ghost(alias_roots(func.deep_view())));
    LivenessResult { ranges, aliases }
}

/// An identifier as a plain pair of name and version.
#[derive(Debug, PartialEq, Eq, Hash)]
pub struct IdentifierHash(pub String, pub usize);

impl Clone for IdentifierHash {
    fn clone(&self) -> (r: Self)
        ensures
            r == *self,
    {
        IdentifierHash(self.0.clone(), self.1)
    }
}

impl DeepView for IdentifierHash {
    type V = IdentV;

    open spec fn deep_view(&self) -> IdentV {
        IdentV { name: self.0@, id: self.1 as nat }
    }
}

impl vstd::std_specs::convert::FromSpecImpl<&Identifier> for IdentifierHash {
    open spec fn obeys_from_spec() -> bool {
        true
    }

    open spec fn from_spec(id: &Identifier) -> Self {
        IdentifierHash(id.name, id.id)
    }
}

impl From<&Identifier> for IdentifierHash {
    fn from(id: &Identifier) -> (r: Self) {
        IdentifierHash(id.name.clone(), id.id)
    }
}

} // verus!
