use vstd::prelude::*;
use vstd::set_lib::{lemma_int_range, lemma_len_subset, set_int_range};

verus! {

/// The root reached from `i` by following parent links; a link only counts
/// when it leads to a higher rank, which is what makes the walk end.
spec fn root_of(ps: Seq<Option<usize>>, rs: Seq<usize>, i: int) -> int
    decreases usize::MAX - rs[i],
{
    if 0 <= i < ps.len() && ps.len() == rs.len() && ps[i] is Some && ps[i]->0 < rs.len()
        && rs[ps[i]->0 as int] > rs[i] {
        root_of(ps, rs, ps[i]->0 as int)
    } else {
        i
    }
}

/// Disjoint sets over `0..n`, with union by rank and path compression.
pub struct DisjointSet {
    parents: Vec<Option<usize>>,
    ranks: Vec<usize>,
    links: Ghost<nat>,
}

impl DisjointSet {
    /// The number of elements.
    pub closed spec fn len(&self) -> nat {
        self.parents@.len()
    }

    /// The representative of the set that holds `i`.
    pub closed spec fn root(&self, i: int) -> int {
        root_of(self.parents@, self.ranks@, i)
    }

    /// The rank of each element.
    pub closed spec fn rank_seq(&self) -> Seq<usize> {
        self.ranks@
    }

    spec fn root_set(&self) -> Set<int> {
        Set::new(|i: int| 0 <= i < self.parents@.len() && self.parents@[i] is None)
    }

    pub closed spec fn wf(&self) -> bool {
        &&& self.parents@.len() == self.ranks@.len()
        &&& forall|i: int|
            0 <= i < self.parents@.len() && (#[trigger] self.parents@[i]) is Some ==> {
                let p = self.parents@[i]->0 as int;
                p < self.parents@.len() && self.ranks@[p] > self.ranks@[i]
            }
        &&& self.root_set().finite()
        &&& self.root_set().len() + self.links@ == self.parents@.len()
        &&& forall|i: int| 0 <= i < self.ranks@.len() ==> #[trigger] self.ranks@[i] <= self.links@
    }

    /// `n` elements, each in a set of its own.
    pub fn new(n: usize) -> (r: Self)
        ensures
            r.wf(),
            r.len() == n,
            forall|i: int| 0 <= i < n ==> r.root(i) == i,
    {
        let mut parents: Vec<Option<usize>> = Vec::new();
        let mut ranks: Vec<usize> = Vec::new();
        while parents.len() < n
            invariant
                parents@.len() == ranks@.len(),
                parents@.len() <= n,
                forall|k: int| 0 <= k < parents@.len() ==> parents@[k] is None,
                forall|k: int| 0 <= k < ranks@.len() ==> ranks@[k] == 0,
            decreases n - parents@.len(),
        {
            parents.push(None);
            ranks.push(0);
        }
        let r = DisjointSet { parents, ranks, links: Ghost(0) };
        proof {
            lemma_int_range(0, n as int);
            assert(r.root_set() =~= set_int_range(0, n as int));
        }
        r
    }

    /// The representative of the set that holds `u`. Every element on the
    /// way is relinked straight to it; no element changes set.
    pub fn find(&mut self, u: usize) -> (r: usize)
        requires
            old(self).wf(),
            u < old(self).len(),
        ensures
            final(self).wf(),
            final(self).len() == old(self).len(),
            r == old(self).root(u as int),
            r < old(self).len(),
            forall|i: int| 0 <= i < old(self).len() ==> final(self).root(i) == old(self).root(i),
            final(self).rank_seq() == old(self).rank_seq(),
        decreases usize::MAX - old(self).rank_seq()[u as int],
    {
        proof {
            lemma_root_of_props(self.parents@, self.ranks@, u as int);
        }
        match self.parents[u] {
            None => u,
            Some(parent) => {
                let ghost ps0 = self.parents@;
                let ghost rs = self.ranks@;
                let root = self.find(parent);
                proof {
                    assert(root_of(ps0, rs, u as int) == root_of(ps0, rs, parent as int));
                    lemma_root_of_props(ps0, rs, parent as int);
                    lemma_root_of_props(self.parents@, rs, u as int);
                    lemma_root_of_props(self.parents@, rs, parent as int);
                }
                assert(self.root(u as int) == root_of(ps0, rs, u as int));
                let ghost ps1 = self.parents@;
                self.parents.set(u, Some(root));
                proof {
                    lemma_relink_to_root(ps1, rs, u as int, root);
                    assert(self.root_set() =~= Set::new(
                        |i: int| 0 <= i < ps1.len() && ps1[i] is None,
                    ));
                }
                root
            },
        }
    }

    /// Merges the sets that hold `u` and `v`, and returns the representative
    /// of the merged set: the root of the higher rank, `u`'s on a tie.
    pub fn union(&mut self, u: usize, v: usize) -> (r: usize)
        requires
            old(self).wf(),
            u < old(self).len(),
            v < old(self).len(),
        ensures
            final(self).wf(),
            final(self).len() == old(self).len(),
            r == if old(self).rank_seq()[old(self).root(u as int)] < old(self).rank_seq()[old(
                self,
            ).root(v as int)] {
                old(self).root(v as int)
            } else {
                old(self).root(u as int)
            },
            forall|i: int|
                0 <= i < old(self).len() ==> final(self).root(i) == if old(self).root(i) == old(
                    self,
                ).root(u as int) || old(self).root(i) == old(self).root(v as int) {
                    r as int
                } else {
                    old(self).root(i)
                },
    {
        let rootu = self.find(u);
        let rootv = self.find(v);
        if rootu == rootv {
            return rootu;
        }
        let ghost ps = self.parents@;
        let ghost rs = self.ranks@;
        proof {
            lemma_root_of_props(ps, rs, u as int);
            lemma_root_of_props(ps, rs, v as int);
            lemma_root_of_props(ps, rs, rootu as int);
            lemma_root_of_props(ps, rs, rootv as int);
            assert(self.root_set().contains(rootu as int));
            assert(self.root_set().contains(rootv as int));
            assert(self.root_set().remove(rootv as int).contains(rootu as int));
            assert(set![rootu as int].subset_of(self.root_set().remove(rootv as int)));
            lemma_len_subset(set![rootu as int], self.root_set().remove(rootv as int));
            assert(self.ranks@[rootu as int] <= self.links@);
        }
        let n = self.ranks.len();
        if self.ranks[rootu] < self.ranks[rootv] {
            self.parents.set(rootu, Some(rootv));
            proof {
                lemma_link(ps, rs, rs, rootv, rootu as int);
                assert(self.root_set() =~= Set::new(
                    |i: int| 0 <= i < ps.len() && ps[i] is None,
                ).remove(rootu as int));
                self.links = Ghost(self.links@ + 1);
            }
            rootv
        } else {
            self.parents.set(rootv, Some(rootu));
            if self.ranks[rootu] == self.ranks[rootv] {
                let k = self.ranks[rootu] + 1;
                self.ranks.set(rootu, k);
            }
            proof {
                lemma_link(ps, rs, self.ranks@, rootu, rootv as int);
                assert(self.root_set() =~= Set::new(
                    |i: int| 0 <= i < ps.len() && ps[i] is None,
                ).remove(rootv as int));
                self.links = Ghost(self.links@ + 1);
            }
            rootu
        }
    }
}

/// Under the link invariant, the root of `i` is an element without parent,
/// of rank at least that of `i`, and higher unless it is `i` itself.
proof fn lemma_root_of_props(ps: Seq<Option<usize>>, rs: Seq<usize>, i: int)
    requires
        ps.len() == rs.len(),
        0 <= i < ps.len(),
        forall|k: int|
            0 <= k < ps.len() && (#[trigger] ps[k]) is Some ==> {
                let p = ps[k]->0 as int;
                p < ps.len() && rs[p] > rs[k]
            },
    ensures
        0 <= root_of(ps, rs, i) < ps.len(),
        ps[root_of(ps, rs, i)] is None,
        rs[root_of(ps, rs, i)] >= rs[i],
        root_of(ps, rs, i) != i ==> rs[root_of(ps, rs, i)] > rs[i],
        ps[i] is None ==> root_of(ps, rs, i) == i,
    decreases usize::MAX - rs[i],
{
    if ps[i] is Some {
        lemma_root_of_props(ps, rs, ps[i]->0 as int);
    }
}

/// Linking `u` straight to its own root changes no element's root.
proof fn lemma_relink_to_root(ps: Seq<Option<usize>>, rs: Seq<usize>, u: int, root: usize)
    requires
        ps.len() == rs.len(),
        0 <= u < ps.len(),
        root < ps.len(),
        forall|k: int|
            0 <= k < ps.len() && (#[trigger] ps[k]) is Some ==> {
                let p = ps[k]->0 as int;
                p < ps.len() && rs[p] > rs[k]
            },
        root as int == root_of(ps, rs, u),
        ps[root as int] is None,
        rs[root as int] > rs[u],
    ensures
        forall|x: int|
            0 <= x < ps.len() ==> root_of(ps.update(u, Some(root)), rs, x) == root_of(
                ps,
                rs,
                x,
            ),
{
    assert forall|x: int| 0 <= x < ps.len() implies root_of(
        ps.update(u, Some(root)),
        rs,
        x,
    ) == root_of(ps, rs, x) by {
        lemma_relink_one(ps, rs, u, root, x);
    }
}

proof fn lemma_relink_one(ps: Seq<Option<usize>>, rs: Seq<usize>, u: int, root: usize, x: int)
    requires
        ps.len() == rs.len(),
        0 <= u < ps.len(),
        root < ps.len(),
        0 <= x < ps.len(),
        forall|k: int|
            0 <= k < ps.len() && (#[trigger] ps[k]) is Some ==> {
                let p = ps[k]->0 as int;
                p < ps.len() && rs[p] > rs[k]
            },
        root as int == root_of(ps, rs, u),
        ps[root as int] is None,
        rs[root as int] > rs[u],
    ensures
        root_of(ps.update(u, Some(root)), rs, x) == root_of(ps, rs, x),
    decreases usize::MAX - rs[x],
{
    let ps2 = ps.update(u, Some(root));
    if x == u {
        assert(root as int != u);
        assert(ps2[root as int] is None);
        assert(root_of(ps2, rs, root as int) == root as int);
        assert(root_of(ps2, rs, u) == root_of(ps2, rs, root as int));
    } else if ps[x] is Some {
        let p = ps[x]->0 as int;
        lemma_relink_one(ps, rs, u, root, p);
        assert(ps2[x] == ps[x]);
        assert(root_of(ps2, rs, x) == root_of(ps2, rs, p));
        assert(root_of(ps, rs, x) == root_of(ps, rs, p));
    } else {
        assert(ps2[x] == ps[x]);
    }
}

/// Linking root `child` below root `top` (with ranks `rs2`, where only `top`
/// may have grown) moves `child`'s set into `top`'s.
proof fn lemma_link(ps: Seq<Option<usize>>, rs: Seq<usize>, rs2: Seq<usize>, top: usize, child: int)
    requires
        ps.len() == rs.len(),
        rs2.len() == rs.len(),
        top < ps.len(),
        0 <= child < ps.len(),
        top as int != child,
        ps[top as int] is None,
        ps[child] is None,
        forall|k: int|
            0 <= k < ps.len() && (#[trigger] ps[k]) is Some ==> {
                let p = ps[k]->0 as int;
                p < ps.len() && rs[p] > rs[k]
            },
        forall|k: int| 0 <= k < rs.len() && k != top as int ==> rs2[k] == rs[k],
        rs2[top as int] >= rs[top as int],
        rs2[top as int] > rs2[child],
    ensures
        forall|x: int|
            0 <= x < ps.len() ==> root_of(ps.update(child, Some(top)), rs2, x) == if root_of(
                ps,
                rs,
                x,
            ) == child {
                top as int
            } else {
                root_of(ps, rs, x)
            },
        forall|k: int|
            0 <= k < ps.len() && (#[trigger] ps.update(child, Some(top))[k]) is Some ==> {
                let p = ps.update(child, Some(top))[k]->0 as int;
                p < ps.len() && rs2[p] > rs2[k]
            },
{
    let ps2 = ps.update(child, Some(top));
    assert forall|x: int| 0 <= x < ps.len() implies root_of(ps2, rs2, x) == if root_of(ps, rs, x)
        == child {
        top as int
    } else {
        root_of(ps, rs, x)
    } by {
        lemma_link_one(ps, rs, rs2, top, child, x);
    }
    assert forall|k: int| 0 <= k < ps.len() && (#[trigger] ps2[k]) is Some implies {
        let p = ps2[k]->0 as int;
        p < ps.len() && rs2[p] > rs2[k]
    } by {
        if k != child {
            assert(ps2[k] == ps[k]);
            assert(ps[k] is Some);
            assert(k != top as int);
            assert(rs2[k] == rs[k]);
        }
    }
}

proof fn lemma_link_one(
    ps: Seq<Option<usize>>,
    rs: Seq<usize>,
    rs2: Seq<usize>,
    top: usize,
    child: int,
    x: int,
)
    requires
        ps.len() == rs.len(),
        rs2.len() == rs.len(),
        top < ps.len(),
        0 <= child < ps.len(),
        0 <= x < ps.len(),
        top as int != child,
        ps[top as int] is None,
        ps[child] is None,
        forall|k: int|
            0 <= k < ps.len() && (#[trigger] ps[k]) is Some ==> {
                let p = ps[k]->0 as int;
                p < ps.len() && rs[p] > rs[k]
            },
        forall|k: int| 0 <= k < rs.len() && k != top as int ==> rs2[k] == rs[k],
        rs2[top as int] >= rs[top as int],
        rs2[top as int] > rs2[child],
    ensures
        root_of(ps.update(child, Some(top)), rs2, x) == if root_of(ps, rs, x) == child {
            top as int
        } else {
            root_of(ps, rs, x)
        },
    decreases usize::MAX - rs[x],
{
    let ps2 = ps.update(child, Some(top));
    lemma_root_of_props(ps, rs, x);
    if x == child {
        assert(ps2[top as int] is None);
        assert(root_of(ps2, rs2, top as int) == top as int);
        assert(root_of(ps2, rs2, child) == root_of(ps2, rs2, top as int));
    } else if x == top as int {
        assert(ps2[top as int] is None);
    } else if ps[x] is Some {
        let p = ps[x]->0 as int;
        assert(ps2[x] == ps[x]);
        assert(rs2[x] == rs[x]);
        assert(rs2[p] > rs2[x]);
        lemma_link_one(ps, rs, rs2, top, child, p);
        assert(root_of(ps2, rs2, x) == root_of(ps2, rs2, p));
        assert(root_of(ps, rs, x) == root_of(ps, rs, p));
    } else {
        assert(ps2[x] == ps[x]);
    }
}

} // verus!
