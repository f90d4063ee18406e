use vstd::prelude::*;
use std::collections::HashMap;
use crate::structs::{NNs, lemma_filter_step};

verus! {

/// The `k`-th neighbour of centre `i` is centre `j`.
pub open spec fn adjacent(nns: Seq<NNs>, i: int, k: int, j: int) -> bool {
    &&& 0 <= i < nns.len()
    &&& 0 <= j < nns.len()
    &&& 0 <= k < nns[i].neighbours@.len()
    &&& nns[i].neighbours@[k].id == nns[j].central.id
}

/// No two centres share an id, and every neighbour is itself one of the
/// centres.
pub open spec fn well_formed(nns: Seq<NNs>) -> bool {
    &&& forall|i: int, j: int|
        0 <= i < nns.len() && 0 <= j < nns.len() && (#[trigger] nns[i]).central.id == (
        #[trigger] nns[j]).central.id ==> i == j
    &&& forall|i: int, k: int|
        0 <= i < nns.len() && 0 <= k < nns[i].neighbours@.len() ==> exists|j: int|
            0 <= j < nns.len() && (#[trigger] nns[j]).central.id == (
            #[trigger] nns[i].neighbours@[k]).id
}

/// Labels `f` agree across every adjacency met before position `(i, k)` of a
/// scan over the centres and their neighbours.
pub open spec fn respects_upto(nns: Seq<NNs>, f: spec_fn(int) -> int, i: int, k: int) -> bool {
    forall|a: int, b: int, c: int|
        (a < i || (a == i && b < k)) && #[trigger] adjacent(nns, a, b, c) ==> f(a) == f(c)
}

/// Labels `f` agree across every adjacency.
pub open spec fn respects(nns: Seq<NNs>, f: spec_fn(int) -> int) -> bool {
    respects_upto(nns, f, nns.len() as int, 0)
}

/// Centres `a` and `b` lie in one cluster: no labelling that agrees across
/// every adjacency tells them apart. This is the least equivalence that puts
/// each centre with its neighbours, i.e. connection by a chain of adjacencies.
pub open spec fn same_cluster(nns: Seq<NNs>, a: int, b: int) -> bool {
    forall|f: spec_fn(int) -> int| #[trigger] respects(nns, f) ==> f(a) == f(b)
}

/// No labelling that agrees across the adjacencies before `(i, k)` tells
/// `a` and `b` apart.
pub open spec fn linked_upto(nns: Seq<NNs>, i: int, k: int, a: int, b: int) -> bool {
    forall|f: spec_fn(int) -> int| #[trigger] respects_upto(nns, f, i, k) ==> f(a) == f(b)
}

/// The labels of a vector, read as a labelling.
pub open spec fn as_labelling(lab: Seq<usize>) -> spec_fn(int) -> int {
    |t: int| lab[t] as int
}

/// A cluster id for each centre of a neighbour list.
pub struct ClusterLabeling {
    /// The centres' atom ids, in the order of the neighbour list.
    pub atom_ids: Vec<u32>,
    /// The cluster of each centre, in `1..=n_clusters`.
    pub cluster_ids: Vec<usize>,
    pub n_clusters: usize,
}

impl ClusterLabeling {
    /// Ids are unique, and every cluster id lies in `1..=n_clusters`.
    pub open spec fn wf(&self) -> bool {
        &&& self.atom_ids@.len() == self.cluster_ids@.len()
        &&& self.n_clusters <= self.cluster_ids@.len()
        &&& forall|i: int, j: int|
            0 <= i < self.atom_ids@.len() && 0 <= j < self.atom_ids@.len() && self.atom_ids@[i]
                == self.atom_ids@[j] ==> i == j
        &&& forall|i: int|
            0 <= i < self.cluster_ids@.len() ==> 1 <= #[trigger] self.cluster_ids@[i]
                <= self.n_clusters
    }

    /// The cluster of the atom `id`, or 0 when it is not labelled.
    pub open spec fn label_of(&self, id: u32) -> int {
        if exists|i: int| 0 <= i < self.atom_ids@.len() && self.atom_ids@[i] == id {
            let i = choose|i: int| 0 <= i < self.atom_ids@.len() && self.atom_ids@[i] == id;
            self.cluster_ids@[i] as int
        } else {
            0
        }
    }

    /// The cluster of the atom `id`, if it is labelled.
    pub fn cluster_of(&self, id: u32) -> (r: Option<usize>)
        requires
            self.wf(),
        ensures
            r is None <==> self.label_of(id) == 0,
            r is Some ==> r->Some_0 == self.label_of(id),
    {
        let mut i: usize = 0;
        while i < self.atom_ids.len()
            invariant
                self.wf(),
                i <= self.atom_ids@.len(),
                forall|j: int| 0 <= j < i ==> self.atom_ids@[j] != id,
            decreases self.atom_ids@.len() - i,
        {
            if self.atom_ids[i] == id {
                proof {
                    let c = choose|c: int| 0 <= c < self.atom_ids@.len() && self.atom_ids@[c] == id;
                    assert(c == i);
                }
                return Some(self.cluster_ids[i]);
            }
            i = i + 1;
        }
        None
    }
}

/// `index` sends every centre id of `nns` to an index of a centre with
/// that id, and holds no other id.
pub open spec fn indexes_centres(index: Map<u32, usize>, nns: Seq<NNs>) -> bool {
    &&& forall|id: u32|
        #[trigger] index.contains_key(id) ==> index[id] < nns.len() && nns[index[id] as int].central.id
            == id
    &&& forall|j: int| 0 <= j < nns.len() ==> #[trigger] index.contains_key(nns[j].central.id)
}

/// A table from the centre ids of `nns` to their indices.
fn index_centres(nns: &Vec<NNs>) -> (r: HashMap<u32, usize>)
    ensures
        indexes_centres(r@, nns@),
{
    broadcast use vstd::std_specs::hash::group_hash_axioms;

    let mut index: HashMap<u32, usize> = HashMap::new();
    let mut j: usize = 0;
    while j < nns.len()
        invariant
            j <= nns@.len(),
            forall|id: u32|
                #[trigger] index@.contains_key(id) ==> index@[id] < j && nns@[index@[id] as int].central.id
                    == id,
            forall|t: int| 0 <= t < j ==> #[trigger] index@.contains_key(nns@[t].central.id),
        decreases nns@.len() - j,
    {
        index.insert(nns[j].central.id, j);
        j = j + 1;
    }
    index
}

/// Whether `nns` can be labelled: its centres have distinct ids and every
/// neighbour is one of the centres.
pub fn is_well_formed(nns: &Vec<NNs>) -> (r: bool)
    ensures
        r == well_formed(nns@),
{
    let index = index_centres(nns);
    let n = nns.len();
    let mut i: usize = 0;
    while i < n
        invariant
            n == nns@.len(),
            i <= n,
            indexes_centres(index@, nns@),
            forall|a: int| 0 <= a < i ==> index@[#[trigger] nns@[a].central.id] == a,
            forall|a: int, k: int|
                0 <= a < i && 0 <= k < nns@[a].neighbours@.len() ==> exists|j: int|
                    0 <= j < nns@.len() && (#[trigger] nns@[j]).central.id == (
                    #[trigger] nns@[a].neighbours@[k]).id,
        decreases n - i,
    {
        match find_center(nns, &index, nns[i].central.id) {
            Some(j) => {
                if j != i {
                    proof {
                        assert(nns@[i as int].central.id == nns@[j as int].central.id);
                    }
                    return false;
                }
            },
            None => {
                proof {
                    assert(index@.contains_key(nns@[i as int].central.id));
                }
                return false;
            },
        }
        let row = &nns[i].neighbours;
        let mut k: usize = 0;
        while k < row.len()
            invariant
                n == nns@.len(),
                i < n,
                indexes_centres(index@, nns@),
                *row == nns@[i as int].neighbours,
                k <= row@.len(),
                forall|m: int|
                    0 <= m < k ==> exists|j: int|
                        0 <= j < nns@.len() && (#[trigger] nns@[j]).central.id == (
                        #[trigger] nns@[i as int].neighbours@[m]).id,
            decreases row@.len() - k,
        {
            match find_center(nns, &index, row[k].id) {
                Some(j) => {
                    assert(nns@[j as int].central.id == nns@[i as int].neighbours@[k as int].id);
                },
                None => {
                    return false;
                },
            }
            k = k + 1;
        }
        i = i + 1;
    }
    proof {
        assert forall|a: int, b: int|
            0 <= a < nns@.len() && 0 <= b < nns@.len() && (#[trigger] nns@[a]).central.id == (
            #[trigger] nns@[b]).central.id implies a == b by {
            assert(index@[nns@[a].central.id] == a);
            assert(index@[nns@[b].central.id] == b);
        }
    }
    true
}

/// The index of the centre with id `id`, if there is one.
fn find_center(nns: &Vec<NNs>, index: &HashMap<u32, usize>, id: u32) -> (r: Option<usize>)
    requires
        indexes_centres(index@, nns@),
    ensures
        r is None <==> forall|j: int| 0 <= j < nns@.len() ==> (#[trigger] nns@[j]).central.id != id,
        r is Some ==> r->Some_0 < nns@.len() && nns@[r->Some_0 as int].central.id == id,
        r is Some ==> r->Some_0 == index@[id],
{
    broadcast use vstd::std_specs::hash::group_hash_axioms;

    match index.get(&id) {
        Some(j) => Some(*j),
        None => {
            proof {
                assert forall|j: int| 0 <= j < nns@.len() implies (#[trigger] nns@[j]).central.id
                    != id by {
                    assert(index@.contains_key(nns@[j].central.id));
                }
            }
            None
        },
    }
}

/// `parent` is a forest whose trees hang from their smallest index, and
/// `rep` names the root of each index.
#[verifier::opaque]
spec fn forest(parent: Seq<usize>, rep: Seq<usize>) -> bool {
    &&& parent.len() == rep.len()
    &&& forall|x: int| 0 <= x < rep.len() ==> #[trigger] rep[x] <= x
    &&& forall|x: int| 0 <= x < rep.len() ==> #[trigger] parent[x] <= x
    &&& forall|x: int| 0 <= x < rep.len() ==> rep[#[trigger] rep[x] as int] == rep[x]
    &&& forall|x: int| 0 <= x < rep.len() ==> rep[#[trigger] parent[x] as int] == rep[x]
    &&& forall|x: int| 0 <= x < rep.len() ==> (parent[x] == x <==> #[trigger] rep[x] == x)
}

/// The root of an index is its own root.
proof fn lemma_root_is_fixed(parent: Seq<usize>, rep: Seq<usize>, x: int)
    requires
        forest(parent, rep),
        0 <= x < rep.len(),
    ensures
        parent.len() == rep.len(),
        rep[x] < rep.len(),
        rep[rep[x] as int] == rep[x],
{
    reveal(forest);
}

/// Hanging root `hi` under root `lo < hi` keeps a forest, with the roots of
/// both trees renamed to `lo`.
proof fn lemma_link(
    prev_parent: Seq<usize>,
    before: Seq<usize>,
    parent: Seq<usize>,
    rep2: Seq<usize>,
    lo: usize,
    hi: usize,
)
    requires
        forest(prev_parent, before),
        lo < hi < before.len(),
        before[lo as int] == lo,
        before[hi as int] == hi,
        parent == prev_parent.update(hi as int, lo),
        rep2.len() == before.len(),
        forall|t: int|
            0 <= t < before.len() ==> #[trigger] rep2[t] == if before[t] == lo || before[t] == hi {
                lo
            } else {
                before[t]
            },
    ensures
        forest(parent, rep2),
{
    reveal(forest);
    assert forall|x: int| 0 <= x < rep2.len() implies #[trigger] rep2[x] <= x by {
        assert(before[x] <= x);
    }
    assert forall|x: int| 0 <= x < rep2.len() implies #[trigger] parent[x] <= x by {
        if x != hi {
            assert(parent[x] == prev_parent[x]);
        }
    }
    assert forall|x: int| 0 <= x < rep2.len() implies rep2[#[trigger] rep2[x] as int] == rep2[x] by {
        assert(before[before[x] as int] == before[x]);
        assert(rep2[lo as int] == lo);
    }
    assert forall|x: int| 0 <= x < rep2.len() implies rep2[#[trigger] parent[x] as int] == rep2[x] by {
        if x != hi {
            assert(parent[x] == prev_parent[x]);
            assert(before[prev_parent[x] as int] == before[x]);
        } else {
            assert(rep2[lo as int] == lo);
        }
    }
    assert forall|x: int| 0 <= x < rep2.len() implies (parent[x] == x <==> #[trigger] rep2[x] == x) by {
        if x != hi {
            assert(parent[x] == prev_parent[x]);
            assert(prev_parent[x] == x <==> before[x] == x);
            assert(before[x] <= x);
        }
    }
}

/// A disjoint-set forest over the indices `0..n`, with path compression.
/// Each tree hangs from its smallest index, so every parent index is at most
/// its child's.
pub struct DisjointSets {
    parent: Vec<usize>,
    /// The root of each index.
    rep: Ghost<Seq<usize>>,
}

impl DisjointSets {
    /// For each index, the root of its tree.
    pub closed spec fn roots(&self) -> Seq<usize> {
        self.rep@
    }

    /// The parent pointers form a forest whose roots are `roots()`.
    pub closed spec fn wf(&self) -> bool {
        forest(self.parent@, self.rep@)
    }

    /// `n` singleton sets.
    pub fn new(n: usize) -> (r: DisjointSets)
        ensures
            r.wf(),
            r.roots().len() == n,
            forall|x: int| 0 <= x < n ==> #[trigger] r.roots()[x] == x,
    {
        let mut parent: Vec<usize> = Vec::new();
        let mut t: usize = 0;
        while t < n
            invariant
                t <= n,
                parent@.len() == t,
                forall|s: int| 0 <= s < t ==> #[trigger] parent@[s] == s,
            decreases n - t,
        {
            parent.push(t);
            t = t + 1;
        }
        let r = DisjointSets { parent, rep: Ghost(parent@) };
        proof {
            reveal(forest);
        }
        r
    }

    /// Every root index is at most the index it is the root of.
    pub proof fn lemma_roots_bounded(&self)
        requires
            self.wf(),
        ensures
            forall|x: int| 0 <= x < self.roots().len() ==> #[trigger] self.roots()[x] <= x,
    {
        reveal(forest);
    }

    /// The root of `x`; the paths walked are shortened on the way.
    pub fn find(&mut self, x: usize) -> (r: usize)
        requires
            old(self).wf(),
            x < old(self).roots().len(),
        ensures
            final(self).wf(),
            final(self).roots() == old(self).roots(),
            r == old(self).roots()[x as int],
    {
        proof {
            reveal(forest);
        }
        let ghost rep = self.rep@;
        let mut cur = x;
        while self.parent[cur] != cur
            invariant
                forest(self.parent@, rep),
                self.parent@.len() == rep.len(),
                self.rep@ == rep,
                cur < rep.len(),
                rep[cur as int] == rep[x as int],
            decreases cur,
        {
            proof {
                reveal(forest);
            }
            cur = self.parent[cur];
        }
        proof {
            reveal(forest);
        }
        let root = cur;
        let mut y = x;
        while self.parent[y] != y
            invariant
                forest(self.parent@, rep),
                self.parent@.len() == rep.len(),
                self.rep@ == rep,
                y < rep.len(),
                rep[y as int] == root,
                rep[root as int] == root,
            decreases y,
        {
            proof {
                reveal(forest);
            }
            let next = self.parent[y];
            self.parent.set(y, root);
            proof {
                assert forall|z: int| 0 <= z < rep.len() implies rep[#[trigger] self.parent@[z] as int]
                    == rep[z] by {}
                assert forall|z: int| 0 <= z < rep.len() implies (self.parent@[z] == z
                    <==> #[trigger] rep[z] == z) by {}
            }
            y = next;
        }
        proof {
            reveal(forest);
        }
        root
    }

    /// Joins the sets of `a` and `b` under the smaller of their roots.
    pub fn union(&mut self, a: usize, b: usize)
        requires
            old(self).wf(),
            a < old(self).roots().len(),
            b < old(self).roots().len(),
        ensures
            final(self).wf(),
            final(self).roots().len() == old(self).roots().len(),
            ({
                let before = old(self).roots();
                let (ra, rb) = (before[a as int], before[b as int]);
                let m = if ra <= rb { ra } else { rb };
                forall|t: int|
                    0 <= t < before.len() ==> #[trigger] final(self).roots()[t] == if before[t]
                        == ra || before[t] == rb {
                        m
                    } else {
                        before[t]
                    }
            }),
    {
        let ghost before = self.rep@;
        let ra = self.find(a);
        let rb = self.find(b);
        if ra != rb {
            let (lo, hi) = if ra < rb { (ra, rb) } else { (rb, ra) };
            let ghost prev_parent = self.parent@;
            proof {
                lemma_root_is_fixed(prev_parent, before, a as int);
                lemma_root_is_fixed(prev_parent, before, b as int);
            }
            self.parent.set(hi, lo);
            let ghost rep2 = Seq::new(
                before.len(),
                |t: int|
                    if before[t] == lo || before[t] == hi {
                        lo
                    } else {
                        before[t]
                    },
            );
            self.rep = Ghost(rep2);
            proof {
                lemma_link(prev_parent, before, self.parent@, rep2, lo, hi);
            }
        }
    }
}

/// Merging the labels of the two ends of adjacency `(i, k, j)` keeps both
/// scan invariants one step further.
proof fn lemma_merge_step(
    nns: Seq<NNs>,
    before: Seq<usize>,
    after: Seq<usize>,
    i: int,
    k: int,
    j: int,
    m: usize,
)
    requires
        well_formed(nns),
        adjacent(nns, i, k, j),
        before.len() == nns.len(),
        after.len() == nns.len(),
        respects_upto(nns, as_labelling(before), i, k),
        forall|a: int, b: int|
            0 <= a < nns.len() && 0 <= b < nns.len() && before[a] == before[b] ==> linked_upto(
                nns,
                i,
                k,
                a,
                b,
            ),
        m == before[i] || m == before[j],
        forall|t: int|
            0 <= t < nns.len() ==> #[trigger] after[t] == if before[t] == before[i] || before[t]
                == before[j] {
                m
            } else {
                before[t]
            },
    ensures
        respects_upto(nns, as_labelling(after), i, k + 1),
        forall|a: int, b: int|
            0 <= a < nns.len() && 0 <= b < nns.len() && after[a] == after[b] ==> linked_upto(
                nns,
                i,
                k + 1,
                a,
                b,
            ),
{
    let fb = as_labelling(before);
    let fa = as_labelling(after);
    assert forall|a: int, b: int, c: int|
        (a < i || (a == i && b < k + 1)) && #[trigger] adjacent(nns, a, b, c) implies fa(a) == fa(
        c,
    ) by {
        if a == i && b == k {
            assert(nns[c].central.id == nns[j].central.id);
        } else {
            assert(fb(a) == fb(c));
        }
        assert(after[a] == after[c]);
    }
    assert forall|a: int, b: int|
        0 <= a < nns.len() && 0 <= b < nns.len() && after[a] == after[b] implies linked_upto(
        nns,
        i,
        k + 1,
        a,
        b,
    ) by {
        assert forall|f: spec_fn(int) -> int| #[trigger]
            respects_upto(nns, f, i, k + 1) implies f(a) == f(b) by {
            assert(respects_upto(nns, f, i, k));
            assert(adjacent(nns, i, k, j));
            assert(f(i) == f(j));
            if before[a] == before[b] {
                assert(linked_upto(nns, i, k, a, b));
            } else {
                if before[a] == before[i] {
                    assert(linked_upto(nns, i, k, a, i));
                } else {
                    assert(linked_upto(nns, i, k, a, j));
                }
                if before[b] == before[i] {
                    assert(linked_upto(nns, i, k, b, i));
                } else {
                    assert(linked_upto(nns, i, k, b, j));
                }
            }
        }
    }
}

/// Having scanned all neighbours of centre `i` is having scanned up to the
/// start of centre `i + 1`.
proof fn lemma_next_row(nns: Seq<NNs>, f: spec_fn(int) -> int, i: int)
    requires
        0 <= i < nns.len(),
    ensures
        respects_upto(nns, f, i, nns[i].neighbours@.len() as int) == respects_upto(
            nns,
            f,
            i + 1,
            0,
        ),
{
    let len = nns[i].neighbours@.len() as int;
    if respects_upto(nns, f, i, len) {
        assert forall|a: int, b: int, c: int|
            (a < i + 1 || (a == i + 1 && b < 0)) && #[trigger] adjacent(nns, a, b, c) implies f(a)
            == f(c) by {
            assert(a < i || (a == i && b < len));
        }
    }
    if respects_upto(nns, f, i + 1, 0) {
        assert forall|a: int, b: int, c: int|
            (a < i || (a == i && b < len)) && #[trigger] adjacent(nns, a, b, c) implies f(a) == f(
            c,
        ) by {
            assert(a < i + 1);
        }
    }
}

/// The connected components of the adjacency of `nns`, one representative
/// centre index per component.
fn components(nns: &Vec<NNs>) -> (lab: Vec<usize>)
    requires
        well_formed(nns@),
    ensures
        lab@.len() == nns@.len(),
        forall|t: int| 0 <= t < lab@.len() ==> #[trigger] lab@[t] < nns@.len(),
        forall|a: int, b: int|
            0 <= a < nns@.len() && 0 <= b < nns@.len() ==> (lab@[a] == lab@[b] <==> same_cluster(
                nns@,
                a,
                b,
            )),
{
    let n = nns.len();
    let index = index_centres(nns);
    let mut sets = DisjointSets::new(n);
    proof {
        assert forall|a: int, b: int|
            0 <= a < n && 0 <= b < n && sets.roots()[a] == sets.roots()[b] implies linked_upto(
            nns@,
            0,
            0,
            a,
            b,
        ) by {
            assert(sets.roots()[a] == a && sets.roots()[b] == b);
        }
    }
    let mut i: usize = 0;
    while i < n
        invariant
            well_formed(nns@),
            n == nns@.len(),
            i <= n,
            indexes_centres(index@, nns@),
            sets.wf(),
            sets.roots().len() == n,
            respects_upto(nns@, as_labelling(sets.roots()), i as int, 0),
            forall|a: int, b: int|
                0 <= a < n && 0 <= b < n && sets.roots()[a] == sets.roots()[b] ==> linked_upto(
                    nns@,
                    i as int,
                    0,
                    a,
                    b,
                ),
        decreases n - i,
    {
        let row = &nns[i].neighbours;
        let mut k: usize = 0;
        while k < row.len()
            invariant
                well_formed(nns@),
                n == nns@.len(),
                i < n,
                indexes_centres(index@, nns@),
                *row == nns@[i as int].neighbours,
                k <= row@.len(),
                sets.wf(),
                sets.roots().len() == n,
                respects_upto(nns@, as_labelling(sets.roots()), i as int, k as int),
                forall|a: int, b: int|
                    0 <= a < n && 0 <= b < n && sets.roots()[a] == sets.roots()[b] ==> linked_upto(
                        nns@,
                        i as int,
                        k as int,
                        a,
                        b,
                    ),
            decreases row@.len() - k,
        {
            proof {
                assert(0 <= i < nns@.len() && 0 <= k < nns@[i as int].neighbours@.len());
            }
            let j = match find_center(nns, &index, row[k].id) {
                Some(j) => j,
                None => {
                    proof {
                        let w = choose|w: int|
                            0 <= w < nns@.len() && (#[trigger] nns@[w]).central.id == (
                            #[trigger] nns@[i as int].neighbours@[k as int]).id;
                        assert(nns@[w].central.id != row@[k as int].id);
                    }
                    0
                },
            };
            let ghost before = sets.roots();
            sets.union(i, j);
            proof {
                let (ri, rj) = (before[i as int], before[j as int]);
                let m = if ri <= rj { ri } else { rj };
                lemma_merge_step(nns@, before, sets.roots(), i as int, k as int, j as int, m);
            }
            k = k + 1;
        }
        proof {
            lemma_next_row(nns@, as_labelling(sets.roots()), i as int);
            assert forall|a: int, b: int|
                0 <= a < n && 0 <= b < n && sets.roots()[a] == sets.roots()[b] implies linked_upto(
                nns@,
                i + 1,
                0,
                a,
                b,
            ) by {
                assert(linked_upto(nns@, i as int, row@.len() as int, a, b));
                assert forall|f: spec_fn(int) -> int| #[trigger]
                    respects_upto(nns@, f, i + 1, 0) implies f(a) == f(b) by {
                    lemma_next_row(nns@, f, i as int);
                }
            }
        }
        i = i + 1;
    }
    let ghost roots = sets.roots();
    let mut lab: Vec<usize> = Vec::new();
    let mut t: usize = 0;
    while t < n
        invariant
            n == nns@.len(),
            t <= n,
            sets.wf(),
            sets.roots() == roots,
            roots.len() == n,
            lab@.len() == t,
            forall|s: int| 0 <= s < t ==> #[trigger] lab@[s] == roots[s],
        decreases n - t,
    {
        let r = sets.find(t);
        lab.push(r);
        t = t + 1;
    }
    proof {
        assert(lab@ =~= roots);
        sets.lemma_roots_bounded();
        let f = as_labelling(lab@);
        assert(respects(nns@, f));
        assert forall|a: int, b: int| 0 <= a < n && 0 <= b < n implies (lab@[a] == lab@[b]
            <==> same_cluster(nns@, a, b)) by {
            if same_cluster(nns@, a, b) {
                assert(f(a) == f(b));
            }
            if lab@[a] == lab@[b] {
                assert(linked_upto(nns@, n as int, 0, a, b));
            }
        }
    }
    lab
}

/// Some entry of `ids` equals `c`.
pub open spec fn used(ids: Seq<usize>, c: int) -> bool {
    exists|t: int| 0 <= t < ids.len() && ids[t] == c
}

/// Renumbers representative labels into `1..=K` in order of first
/// appearance.
fn renumber(lab: &Vec<usize>) -> (r: (Vec<usize>, usize))
    requires
        lab@.len() < usize::MAX,
        forall|t: int| 0 <= t < lab@.len() ==> #[trigger] lab@[t] < lab@.len(),
    ensures
        r.0@.len() == lab@.len(),
        forall|t: int| 0 <= t < lab@.len() ==> 1 <= #[trigger] r.0@[t] <= r.1,
        r.1 <= lab@.len(),
        forall|c: int| 1 <= c <= r.1 ==> #[trigger] used(r.0@, c),
        forall|a: int, b: int|
            0 <= a < lab@.len() && 0 <= b < lab@.len() ==> (r.0@[a] == r.0@[b] <==> lab@[a]
                == lab@[b]),
        forall|t: int|
            0 <= t < lab@.len() && #[trigger] r.0@[t] > 1 ==> exists|u: int|
                0 <= u < t && r.0@[u] == r.0@[t] - 1,
{
    let n = lab.len();
    let mut new_id: Vec<usize> = Vec::new();
    let mut t: usize = 0;
    while t < n
        invariant
            n == lab@.len(),
            t <= n,
            new_id@.len() == t,
            forall|l: int| 0 <= l < t ==> #[trigger] new_id@[l] == 0,
        decreases n - t,
    {
        new_id.push(0);
        t = t + 1;
    }
    let mut out: Vec<usize> = Vec::new();
    let mut next: usize = 1;
    let mut t: usize = 0;
    while t < n
        invariant
            n == lab@.len(),
            n < usize::MAX,
            forall|s: int| 0 <= s < n ==> #[trigger] lab@[s] < n,
            t <= n,
            1 <= next <= t + 1,
            new_id@.len() == n,
            out@.len() == t,
            forall|s: int| 0 <= s < t ==> 1 <= #[trigger] out@[s] < next,
            forall|s: int| 0 <= s < t ==> new_id@[#[trigger] lab@[s] as int] == out@[s],
            forall|l: int|
                0 <= l < n && #[trigger] new_id@[l] != 0 ==> exists|s: int|
                    0 <= s < t && lab@[s] == l,
            forall|l: int| 0 <= l < n ==> #[trigger] new_id@[l] < next,
            forall|l1: int, l2: int|
                0 <= l1 < n && 0 <= l2 < n && #[trigger] new_id@[l1] == #[trigger] new_id@[l2]
                    && new_id@[l1] != 0 ==> l1 == l2,
            forall|c: int| 1 <= c < next ==> #[trigger] used(out@, c),
            forall|s: int|
                0 <= s < t && #[trigger] out@[s] > 1 ==> exists|u: int|
                    0 <= u < s && out@[u] == out@[s] - 1,
        decreases n - t,
    {
        let ghost prev = out@;
        let l = lab[t];
        if new_id[l] == 0 {
            proof {
                if next > 1 {
                    assert(used(out@, next - 1));
                    let w = choose|s: int| 0 <= s < prev.len() && prev[s] == next - 1;
                    assert(0 <= w < t && prev[w] == next - 1);
                }
            }
            new_id.set(l, next);
            out.push(next);
            next = next + 1;
            proof {
                assert(out@[t as int] == next - 1);
            }
        } else {
            let c = new_id[l];
            proof {
                let w = choose|s: int| 0 <= s < t && lab@[s] == l;
                assert(out@[w] == c);
                if c > 1 {
                    let u = choose|u: int| 0 <= u < w && out@[u] == out@[w] - 1;
                    assert(0 <= u < t && prev[u] == c - 1);
                }
            }
            out.push(c);
        }
        proof {
            assert forall|c: int| 1 <= c < next implies #[trigger] used(out@, c) by {
                if c == next - 1 && out@[t as int] == c {
                } else {
                    assert(used(prev, c));
                    let w = choose|s: int| 0 <= s < prev.len() && prev[s] == c;
                    assert(out@[w] == c);
                }
            }
            assert forall|s: int|
                0 <= s < t + 1 && #[trigger] out@[s] > 1 implies exists|u: int|
                    0 <= u < s && out@[u] == out@[s] - 1 by {
                if s < t {
                    assert(prev[s] == out@[s]);
                    let u = choose|u: int| 0 <= u < s && prev[u] == prev[s] - 1;
                    assert(out@[u] == out@[s] - 1);
                } else {
                    let u = choose|u: int| 0 <= u < t && prev[u] == out@[s] - 1;
                    assert(out@[u] == out@[s] - 1);
                }
            }
        }
        t = t + 1;
    }
    (out, next - 1)
}

/// Assigns each centre of `nns` a cluster id so that two centres share an id
/// exactly when a chain of adjacencies joins them. Ids run over `1..=K`
/// without gaps and are numbered in order of first appearance.
pub fn label_clusters(nns: &Vec<NNs>) -> (r: ClusterLabeling)
    requires
        well_formed(nns@),
        nns@.len() < usize::MAX,
    ensures
        r.wf(),
        r.atom_ids@.len() == nns@.len(),
        forall|i: int| 0 <= i < nns@.len() ==> #[trigger] r.atom_ids@[i] == nns@[i].central.id,
        forall|c: int| 1 <= c <= r.n_clusters ==> #[trigger] used(r.cluster_ids@, c),
        forall|a: int, b: int|
            0 <= a < nns@.len() && 0 <= b < nns@.len() ==> (r.cluster_ids@[a] == r.cluster_ids@[b]
                <==> same_cluster(nns@, a, b)),
        forall|i: int|
            0 <= i < nns@.len() && #[trigger] r.cluster_ids@[i] > 1 ==> exists|u: int|
                0 <= u < i && r.cluster_ids@[u] == r.cluster_ids@[i] - 1,
{
    let lab = components(nns);
    let (cluster_ids, n_clusters) = renumber(&lab);
    let mut atom_ids: Vec<u32> = Vec::new();
    let mut i: usize = 0;
    while i < nns.len()
        invariant
            i <= nns@.len(),
            atom_ids@.len() == i,
            forall|s: int| 0 <= s < i ==> #[trigger] atom_ids@[s] == nns@[s].central.id,
        decreases nns@.len() - i,
    {
        atom_ids.push(nns[i].central.id);
        i = i + 1;
    }
    let r = ClusterLabeling { atom_ids, cluster_ids, n_clusters };
    proof {
        assert forall|a: int, b: int|
            0 <= a < r.atom_ids@.len() && 0 <= b < r.atom_ids@.len() && r.atom_ids@[a]
                == r.atom_ids@[b] implies a == b by {
            assert(nns@[a].central.id == nns@[b].central.id);
        }
    }
    r
}

/// Centres `i` and `j` joined by an adjacency lie in one cluster.
pub proof fn lemma_adjacent_same_cluster(nns: Seq<NNs>, i: int, k: int, j: int)
    requires
        adjacent(nns, i, k, j),
    ensures
        same_cluster(nns, i, j),
{
    assert forall|f: spec_fn(int) -> int| #[trigger] respects(nns, f) implies f(i) == f(j) by {
        assert(adjacent(nns, i, k, j));
    }
}

/// The centre of `nn` is a labelled, non-solvent atom of cluster `c`.
pub open spec fn in_cluster(lab: ClusterLabeling, nn: NNs, solvent: u32, c: int) -> bool {
    nn.central.atom_type != solvent && lab.label_of(nn.central.id) == c
}

/// Some neighbour of `nn` is of the solvent type.
pub open spec fn touches_solvent(nn: NNs, solvent: u32) -> bool {
    exists|m: int| 0 <= m < nn.neighbours@.len() && nn.neighbours@[m].atom_type == solvent
}

/// How many centres of `wide` belong to cluster `c`.
pub open spec fn cluster_volume(lab: ClusterLabeling, wide: Seq<NNs>, solvent: u32, c: int) -> int {
    wide.filter(|nn: NNs| in_cluster(lab, nn, solvent, c)).len() as int
}

/// How many centres of `wide` belong to cluster `c` and touch the solvent.
pub open spec fn cluster_surface(lab: ClusterLabeling, wide: Seq<NNs>, solvent: u32, c: int) -> int {
    wide.filter(|nn: NNs| in_cluster(lab, nn, solvent, c) && touches_solvent(nn, solvent)).len() as int
}

/// The largest cluster of a frame: its id, its number of atoms and how many
/// of those have a solvent neighbour.
#[derive(Clone, Copy, Debug, PartialEq, Eq, Structural)]
pub struct ClusterSummary {
    pub cluster_id: usize,
    pub volume: usize,
    pub surface: usize,
}

fn has_type(atoms: &Vec<crate::structs::Atom>, t: u32) -> (r: bool)
    ensures
        r == exists|m: int| 0 <= m < atoms@.len() && atoms@[m].atom_type == t,
{
    let mut m: usize = 0;
    while m < atoms.len()
        invariant
            m <= atoms@.len(),
            forall|q: int| 0 <= q < m ==> atoms@[q].atom_type != t,
        decreases atoms@.len() - m,
    {
        if atoms[m].atom_type == t {
            return true;
        }
        m = m + 1;
    }
    false
}

/// `table` sends each labelled atom id to its cluster, and holds no other id.
pub open spec fn tabulates_labels(table: Map<u32, usize>, lab: ClusterLabeling) -> bool {
    forall|id: u32|
        (#[trigger] table.contains_key(id) <==> lab.label_of(id) != 0) && (table.contains_key(id)
            ==> table[id] == lab.label_of(id))
}

/// A table from the labelled atom ids of `lab` to their clusters.
fn label_table(lab: &ClusterLabeling) -> (r: HashMap<u32, usize>)
    requires
        lab.wf(),
    ensures
        tabulates_labels(r@, *lab),
{
    broadcast use vstd::std_specs::hash::group_hash_axioms;

    let mut table: HashMap<u32, usize> = HashMap::new();
    let mut i: usize = 0;
    while i < lab.atom_ids.len()
        invariant
            lab.wf(),
            i <= lab.atom_ids@.len(),
            forall|t: int|
                0 <= t < i ==> #[trigger] table@.contains_key(lab.atom_ids@[t]) && table@[lab.atom_ids@[t]]
                    == lab.cluster_ids@[t],
            forall|id: u32|
                #[trigger] table@.contains_key(id) ==> exists|t: int|
                    0 <= t < i && lab.atom_ids@[t] == id,
        decreases lab.atom_ids@.len() - i,
    {
        let ghost before = table@;
        table.insert(lab.atom_ids[i], lab.cluster_ids[i]);
        proof {
            assert forall|t: int|
                0 <= t < i + 1 implies #[trigger] table@.contains_key(lab.atom_ids@[t])
                && table@[lab.atom_ids@[t]] == lab.cluster_ids@[t] by {
                if t < i {
                    assert(lab.atom_ids@[t] != lab.atom_ids@[i as int]);
                    assert(before.contains_key(lab.atom_ids@[t]));
                }
            }
            assert forall|id: u32| #[trigger] table@.contains_key(id) implies exists|t: int|
                0 <= t < i + 1 && lab.atom_ids@[t] == id by {
                if id != lab.atom_ids@[i as int] {
                    assert(before.contains_key(id));
                }
            }
        }
        i = i + 1;
    }
    proof {
        assert forall|id: u32|
            (#[trigger] table@.contains_key(id) <==> lab.label_of(id) != 0) && (table@.contains_key(id)
                ==> table@[id] == lab.label_of(id)) by {
            if table@.contains_key(id) {
                let t = choose|t: int| 0 <= t < i && lab.atom_ids@[t] == id;
                let c = choose|c: int| 0 <= c < lab.atom_ids@.len() && lab.atom_ids@[c] == id;
                assert(c == t);
                assert(lab.cluster_ids@[t] >= 1);
            } else if exists|t: int| 0 <= t < lab.atom_ids@.len() && lab.atom_ids@[t] == id {
                let t = choose|t: int| 0 <= t < lab.atom_ids@.len() && lab.atom_ids@[t] == id;
                assert(table@.contains_key(lab.atom_ids@[t]));
            }
        }
    }
    table
}

/// The cluster of atom `id` read from a label table, or 0 when unlabelled.
fn label_in(table: &HashMap<u32, usize>, lab: &ClusterLabeling, id: u32) -> (r: usize)
    requires
        tabulates_labels(table@, *lab),
    ensures
        r == lab.label_of(id),
{
    broadcast use vstd::std_specs::hash::group_hash_axioms;

    match table.get(&id) {
        Some(c) => *c,
        None => 0,
    }
}

/// Counts, over the centres of `wide` (a neighbour list at a wider cutoff),
/// the atoms of each cluster of `lab` and those among them with a solvent
/// neighbour, and reports the cluster with the most atoms (the first such
/// id on a tie). With no atom in any cluster the summary is all zero.
pub fn largest_cluster(lab: &ClusterLabeling, wide: &Vec<NNs>, solvent: u32) -> (r: ClusterSummary)
    requires
        lab.wf(),
    ensures
        forall|c: int|
            1 <= c <= lab.n_clusters ==> #[trigger] cluster_volume(*lab, wide@, solvent, c)
                <= r.volume,
        r.volume == 0 ==> r.cluster_id == 0 && r.surface == 0,
        r.volume > 0 ==> {
            &&& 1 <= r.cluster_id <= lab.n_clusters
            &&& cluster_volume(*lab, wide@, solvent, r.cluster_id as int) == r.volume
            &&& cluster_surface(*lab, wide@, solvent, r.cluster_id as int) == r.surface
            &&& forall|c: int|
                1 <= c < r.cluster_id ==> #[trigger] cluster_volume(*lab, wide@, solvent, c)
                    < r.volume
        },
{
    broadcast use vstd::seq_lib::group_filter_ensures;

    let labels = label_table(lab);
    let k = lab.n_clusters;
    let mut vol: Vec<usize> = Vec::new();
    let mut surf: Vec<usize> = Vec::new();
    let mut c: usize = 0;
    while c < k
        invariant
            c <= k,
            vol@.len() == c,
            surf@.len() == c,
            forall|q: int| 0 <= q < c ==> #[trigger] vol@[q] == 0,
            forall|q: int| 0 <= q < c ==> #[trigger] surf@[q] == 0,
        decreases k - c,
    {
        vol.push(0);
        surf.push(0);
        c = c + 1;
    }
    proof {
        reveal(Seq::filter);
        assert forall|q: int| 0 <= q < k implies #[trigger] surf@[q] == wide@.subrange(
            0,
            0,
        ).filter(
            |nn: NNs| in_cluster(*lab, nn, solvent, q + 1) && touches_solvent(nn, solvent),
        ).len() by {
            assert(surf@[q] == 0);
        }
    }
    let mut t: usize = 0;
    while t < wide.len()
        invariant
            lab.wf(),
            tabulates_labels(labels@, *lab),
            k == lab.n_clusters,
            t <= wide@.len(),
            vol@.len() == k,
            surf@.len() == k,
            forall|q: int|
                0 <= q < k ==> #[trigger] vol@[q] == wide@.subrange(0, t as int).filter(
                    |nn: NNs| in_cluster(*lab, nn, solvent, q + 1),
                ).len(),
            forall|q: int|
                0 <= q < k ==> #[trigger] surf@[q] == wide@.subrange(0, t as int).filter(
                    |nn: NNs| in_cluster(*lab, nn, solvent, q + 1) && touches_solvent(nn, solvent),
                ).len(),
        decreases wide@.len() - t,
    {
        let ghost (v0, s0) = (vol@, surf@);
        let nn = &wide[t];
        let mut hit: usize = 0;
        if nn.central.atom_type != solvent {
            hit = label_in(&labels, lab, nn.central.id);
        }
        let touches = has_type(&nn.neighbours, solvent);
        if hit > 0 {
            proof {
                assert(wide@.subrange(0, t as int).filter(
                    |nn: NNs| in_cluster(*lab, nn, solvent, hit as int),
                ).len() <= t);
            }
            vol.set(hit - 1, vol[hit - 1] + 1);
            if touches {
                proof {
                    assert(wide@.subrange(0, t as int).filter(
                        |nn: NNs| in_cluster(*lab, nn, solvent, hit as int) && touches_solvent(
                            nn,
                            solvent,
                        ),
                    ).len() <= t);
                }
                surf.set(hit - 1, surf[hit - 1] + 1);
            }
        }
        proof {
            assert forall|q: int| 0 <= q < k implies #[trigger] vol@[q] == wide@.subrange(
                0,
                t + 1,
            ).filter(|nn: NNs| in_cluster(*lab, nn, solvent, q + 1)).len() by {
                lemma_filter_step(wide@, t as int, |nn: NNs| in_cluster(*lab, nn, solvent, q + 1));
            }
            assert forall|q: int| 0 <= q < k implies #[trigger] surf@[q] == wide@.subrange(
                0,
                t + 1,
            ).filter(
                |nn: NNs| in_cluster(*lab, nn, solvent, q + 1) && touches_solvent(nn, solvent),
            ).len() by {
                lemma_filter_step(
                    wide@,
                    t as int,
                    |nn: NNs| in_cluster(*lab, nn, solvent, q + 1) && touches_solvent(nn, solvent),
                );
            }
        }
        t = t + 1;
    }
    proof {
        assert(wide@.subrange(0, wide@.len() as int) =~= wide@);
    }
    let mut best = ClusterSummary { cluster_id: 0, volume: 0, surface: 0 };
    let mut c: usize = 0;
    while c < k
        invariant
            k == lab.n_clusters,
            c <= k,
            vol@.len() == k,
            surf@.len() == k,
            forall|q: int|
                0 <= q < k ==> #[trigger] vol@[q] == cluster_volume(*lab, wide@, solvent, q + 1),
            forall|q: int|
                0 <= q < k ==> #[trigger] surf@[q] == cluster_surface(*lab, wide@, solvent, q + 1),
            forall|q: int|
                1 <= q <= c ==> #[trigger] cluster_volume(*lab, wide@, solvent, q) <= best.volume,
            best.volume == 0 ==> best.cluster_id == 0 && best.surface == 0,
            best.volume > 0 ==> {
                &&& 1 <= best.cluster_id <= c
                &&& cluster_volume(*lab, wide@, solvent, best.cluster_id as int) == best.volume
                &&& cluster_surface(*lab, wide@, solvent, best.cluster_id as int) == best.surface
                &&& forall|q: int|
                    1 <= q < best.cluster_id ==> #[trigger] cluster_volume(
                        *lab,
                        wide@,
                        solvent,
                        q,
                    ) < best.volume
            },
        decreases k - c,
    {
        if vol[c] > best.volume {
            best = ClusterSummary { cluster_id: c + 1, volume: vol[c], surface: surf[c] };
        }
        proof {
            assert(vol@[c as int] == cluster_volume(*lab, wide@, solvent, c + 1));
        }
        c = c + 1;
    }
    best
}

} // verus!
