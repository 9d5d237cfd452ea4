use vstd::prelude::*;

verus! {

/// A directed graph on the vertices `0..n`, as adjacency lists.
#[derive(Clone)]
pub struct DirectedGraph {
    pub n: usize,
    pub adj: Vec<Vec<usize>>,
}

/// The number of `false` entries.
spec fn count_unvisited(s: Seq<bool>) -> nat
    decreases s.len(),
{
    if s.len() == 0 {
        0
    } else {
        count_unvisited(s.drop_last()) + if s.last() {
            0nat
        } else {
            1nat
        }
    }
}

/// No value occurs twice.
pub open spec fn distinct(s: Seq<usize>) -> bool {
    forall|a: int, b: int| 0 <= a < b < s.len() ==> s[a] != s[b]
}

/// The groups one after another.
pub open spec fn flatten_groups(groups: Seq<Vec<usize>>) -> Seq<usize>
    decreases groups.len(),
{
    if groups.len() == 0 {
        Seq::empty()
    } else {
        flatten_groups(groups.drop_last()) + groups.last()@
    }
}

proof fn lemma_count_visit(s: Seq<bool>, i: int)
    requires
        0 <= i < s.len(),
        !s[i],
    ensures
        count_unvisited(s.update(i, true)) + 1 == count_unvisited(s),
    decreases s.len(),
{
    let t = s.update(i, true);
    if i < s.len() - 1 {
        lemma_count_visit(s.drop_last(), i);
        assert(t.drop_last() =~= s.drop_last().update(i, true));
    } else {
        assert(t.drop_last() =~= s.drop_last());
    }
}

proof fn lemma_count_monotone(s: Seq<bool>, t: Seq<bool>)
    requires
        s.len() == t.len(),
        forall|i: int| 0 <= i < s.len() && s[i] ==> t[i],
    ensures
        count_unvisited(t) <= count_unvisited(s),
    decreases s.len(),
{
    if s.len() > 0 {
        lemma_count_monotone(s.drop_last(), t.drop_last());
    }
}

proof fn lemma_contains_push(s: Seq<usize>, x: usize, y: usize)
    ensures
        s.push(x).contains(y) <==> (s.contains(y) || x == y),
{
    if s.contains(y) {
        let k = choose|k: int| 0 <= k < s.len() && s[k] == y;
        assert(s.push(x)[k] == y);
    }
    if x == y {
        assert(s.push(x)[s.len() as int] == y);
    }
    if s.push(x).contains(y) {
        let k = choose|k: int| 0 <= k < s.push(x).len() && s.push(x)[k] == y;
        if k < s.len() {
            assert(s[k] == y);
        }
    }
}

proof fn lemma_contains_concat(a: Seq<usize>, b: Seq<usize>, y: usize)
    ensures
        (a + b).contains(y) <==> (a.contains(y) || b.contains(y)),
{
    if a.contains(y) {
        let k = choose|k: int| 0 <= k < a.len() && a[k] == y;
        assert((a + b)[k] == y);
    }
    if b.contains(y) {
        let k = choose|k: int| 0 <= k < b.len() && b[k] == y;
        assert((a + b)[a.len() + k] == y);
    }
    if (a + b).contains(y) {
        let k = choose|k: int| 0 <= k < (a + b).len() && (a + b)[k] == y;
        if k < a.len() {
            assert(a[k] == y);
        } else {
            assert(b[k - a.len()] == y);
        }
    }
}

proof fn lemma_reaches_self(g: &DirectedGraph, a: int)
    requires
        0 <= a < g.n,
    ensures
        g.reaches(a, a),
{
    let p = seq![a];
    assert(g.is_path(p));
}

proof fn lemma_reaches_prepend(g: &DirectedGraph, a: int, b: int, c: int)
    requires
        0 <= a < g.n,
        g.has_edge(a, b),
        g.reaches(b, c),
    ensures
        g.reaches(a, c),
{
    let p = choose|p: Seq<int>| #[trigger] g.is_path(p) && p[0] == b && p.last() == c;
    let q = seq![a] + p;
    assert forall|k: int| 0 <= k < q.len() - 1 implies g.has_edge(#[trigger] q[k], q[k + 1]) by {
        if k > 0 {
            assert(q[k] == p[k - 1]);
            assert(q[k + 1] == p[k]);
        }
    }
    assert forall|k: int| 0 <= k < q.len() implies 0 <= #[trigger] q[k] < g.n by {
        if k > 0 {
            assert(q[k] == p[k - 1]);
        }
    }
    assert(g.is_path(q));
    assert(q.last() == p.last());
}

/// A walk in the reversed graph is a walk backwards in the graph.
proof fn lemma_reaches_reversed(g: &DirectedGraph, t: &DirectedGraph, a: int, b: int)
    requires
        t.n == g.n,
        forall|x: int, y: int| 0 <= x < g.n && 0 <= y < g.n ==> (t.has_edge(x, y) <==> g.has_edge(y, x)),
        t.reaches(a, b),
    ensures
        g.reaches(b, a),
{
    let p = choose|p: Seq<int>| #[trigger] t.is_path(p) && p[0] == a && p.last() == b;
    let q = p.reverse();
    assert forall|k: int| 0 <= k < q.len() - 1 implies g.has_edge(#[trigger] q[k], q[k + 1]) by {
        let m = p.len() - 2 - k;
        assert(t.has_edge(p[m], p[m + 1]));
        assert(q[k] == p[m + 1]);
        assert(q[k + 1] == p[m]);
    }
    assert forall|k: int| 0 <= k < q.len() implies 0 <= #[trigger] q[k] < g.n by {
        assert(q[k] == p[p.len() - 1 - k]);
    }
    assert(g.is_path(q));
    assert(q[0] == b);
    assert(q.last() == a);
}

proof fn lemma_distinct_concat(a: Seq<usize>, b: Seq<usize>)
    requires
        distinct(a),
        distinct(b),
        forall|k: int| 0 <= k < b.len() ==> !a.contains(b[k]),
    ensures
        distinct(a + b),
{
    assert forall|x: int, y: int| 0 <= x < y < (a + b).len() implies (a + b)[x] != (a + b)[y] by {
        if x < a.len() && y >= a.len() {
            assert(a[x] == (a + b)[x]);
            if a[x] == b[y - a.len()] {
                assert(a.contains(b[y - a.len()]));
            }
        }
    }
}

impl DirectedGraph {
    /// `adj` has one list per vertex, and every edge ends at a vertex.
    pub open spec fn wf(&self) -> bool {
        &&& self.adj@.len() == self.n
        &&& forall|u: int, k: int|
            0 <= u < self.n && 0 <= k < self.adj@[u]@.len() ==> #[trigger] self.adj@[u]@[k]
                < self.n
    }

    /// Whether there is an edge from `u` to `v`.
    pub open spec fn has_edge(&self, u: int, v: int) -> bool {
        self.adj@[u]@.contains(v as usize)
    }

    /// `p` is a walk along edges between vertices of the graph.
    pub open spec fn is_path(&self, p: Seq<int>) -> bool {
        &&& p.len() >= 1
        &&& forall|k: int| 0 <= k < p.len() ==> 0 <= #[trigger] p[k] < self.n
        &&& forall|k: int| 0 <= k < p.len() - 1 ==> self.has_edge(#[trigger] p[k], p[k + 1])
    }

    /// There is a walk from `a` to `b`.
    pub open spec fn reaches(&self, a: int, b: int) -> bool {
        exists|p: Seq<int>| #[trigger] self.is_path(p) && p[0] == a && p.last() == b
    }

    /// `n` vertices and no edges.
    pub fn new(n: usize) -> (r: Self)
        ensures
            r.wf(),
            r.n == n,
            forall|u: int| 0 <= u < n ==> r.adj@[u]@ == Seq::<usize>::empty(),
    {
        let mut adj: Vec<Vec<usize>> = Vec::new();
        while adj.len() < n
            invariant
                adj@.len() <= n,
                forall|u: int| 0 <= u < adj@.len() ==> adj@[u]@ == Seq::<usize>::empty(),
            decreases n - adj@.len(),
        {
            adj.push(Vec::new());
        }
        DirectedGraph { n, adj }
    }

    /// Adds an edge from `u` to `v` at the end of `u`'s list.
    pub fn add_edge(&mut self, u: usize, v: usize)
        requires
            old(self).wf(),
            u < old(self).n,
            v < old(self).n,
        ensures
            final(self).wf(),
            final(self).n == old(self).n,
            final(self).adj@[u as int]@ == old(self).adj@[u as int]@.push(v),
            forall|w: int| 0 <= w < old(self).n && w != u ==> final(self).adj@[w] == old(self).adj@[w],
    {
        self.adj[u].push(v);
        proof {
            assert forall|w: int, k: int|
                0 <= w < self.n && 0 <= k < self.adj@[w]@.len() implies #[trigger] self.adj@[w]@[k]
                < self.n by {
                if w == u && k == self.adj@[w]@.len() - 1 {
                } else {
                    assert(self.adj@[w]@[k] == old(self).adj@[w]@[k]);
                }
            }
        }
    }
}

impl DirectedGraph {
    /// The graph with every edge reversed.
    pub fn transposed(&self) -> (r: Self)
        requires
            self.wf(),
        ensures
            r.wf(),
            r.n == self.n,
            forall|a: int, b: int|
                0 <= a < self.n && 0 <= b < self.n ==> (r.has_edge(a, b) <==> self.has_edge(b, a)),
    {
        let n = self.n;
        let mut result = Self::new(n);
        let mut v: usize = 0;
        while v < n
            invariant
                n == self.n,
                self.wf(),
                result.wf(),
                result.n == n,
                v <= n,
                forall|a: int, b: int|
                    0 <= a < n && 0 <= b < n ==> (result.has_edge(a, b) <==> (b < v
                        && self.has_edge(b, a))),
            decreases n - v,
        {
            let len = self.adj[v].len();
            let mut j: usize = 0;
            while j < len
                invariant
                    n == self.n,
                    self.wf(),
                    result.wf(),
                    result.n == n,
                    v < n,
                    j <= len,
                    len == self.adj@[v as int]@.len(),
                    forall|a: int, b: int|
                        0 <= a < n && 0 <= b < n ==> (result.has_edge(a, b) <==> ((b < v
                            && self.has_edge(b, a)) || (b == v && self.adj@[v as int]@.subrange(
                            0,
                            j as int,
                        ).contains(a as usize)))),
                decreases len - j,
            {
                let u = self.adj[v][j];
                let ghost before = result;
                result.add_edge(u, v);
                proof {
                    let row = self.adj@[v as int]@;
                    assert(row.subrange(0, j + 1) =~= row.subrange(0, j as int).push(u));
                    assert forall|a: int, b: int| 0 <= a < n && 0 <= b < n implies (result.has_edge(
                        a,
                        b,
                    ) <==> ((b < v && self.has_edge(b, a)) || (b == v && row.subrange(
                        0,
                        j + 1,
                    ).contains(a as usize)))) by {
                        lemma_contains_push(row.subrange(0, j as int), u, a as usize);
                        assert(before.has_edge(a, b) <==> ((b < v && self.has_edge(b, a)) || (b
                            == v && row.subrange(0, j as int).contains(a as usize))));
                        if a == u {
                            lemma_contains_push(before.adj@[a]@, v, b as usize);
                        } else {
                            assert(result.adj@[a] == before.adj@[a]);
                        }
                    }
                }
                j = j + 1;
            }
            proof {
                assert(self.adj@[v as int]@.subrange(0, len as int) =~= self.adj@[v as int]@);
            }
            v = v + 1;
        }
        result
    }

    /// The strongly connected components, found by a second search on the
    /// reversed graph in reverse postorder. Every vertex lies in exactly one
    /// of the returned groups, no group is empty, and every vertex of a group
    /// reaches the group's last vertex.
    pub fn find_sccs(&self) -> (r: Vec<Vec<usize>>)
        requires
            self.wf(),
        ensures
            distinct(flatten_groups(r@)),
            forall|k: int|
                0 <= k < flatten_groups(r@).len() ==> #[trigger] flatten_groups(r@)[k] < self.n,
            forall|i: usize| i < self.n ==> flatten_groups(r@).contains(i),
            forall|g: int| 0 <= g < r@.len() ==> (#[trigger] r@[g])@.len() > 0,
            forall|g: int, k: int|
                0 <= g < r@.len() && 0 <= k < r@[g]@.len() ==> self.reaches(
                    #[trigger] r@[g]@[k] as int,
                    r@[g]@.last() as int,
                ),
    {
        let postorder = self.postorder();
        let transposed = self.transposed();
        let n = self.n;
        let mut result: Vec<Vec<usize>> = Vec::new();
        let mut visited: Vec<bool> = Vec::new();
        while visited.len() < n
            invariant
                visited@.len() <= n,
                forall|i: int| 0 <= i < visited@.len() ==> !visited@[i],
            decreases n - visited@.len(),
        {
            visited.push(false);
        }
        proof {
            assert(flatten_groups(result@) =~= Seq::<usize>::empty());
        }
        let mut idx = postorder.len();
        while idx > 0
            invariant
                n == self.n,
                transposed.wf(),
                transposed.n == n,
                idx <= postorder@.len(),
                forall|k: int| 0 <= k < postorder@.len() ==> postorder@[k] < n,
                forall|i: usize| i < n ==> postorder@.contains(i),
                visited@.len() == n,
                distinct(flatten_groups(result@)),
                forall|k: int|
                    0 <= k < flatten_groups(result@).len() ==> #[trigger] flatten_groups(result@)[k] < n,
                forall|i: usize| i < n ==> (visited@[i as int] <==> flatten_groups(result@).contains(i)),
                forall|k: int| idx <= k < postorder@.len() ==> visited@[#[trigger] postorder@[k] as int],
                forall|g: int| 0 <= g < result@.len() ==> (#[trigger] result@[g])@.len() > 0,
                forall|x: int, y: int|
                    0 <= x < n && 0 <= y < n ==> (transposed.has_edge(x, y) <==> self.has_edge(y, x)),
                forall|g: int, k: int|
                    0 <= g < result@.len() && 0 <= k < result@[g]@.len() ==> self.reaches(
                        #[trigger] result@[g]@[k] as int,
                        result@[g]@.last() as int,
                    ),
            decreases idx,
        {
            idx = idx - 1;
            let start = postorder[idx];
            if !visited[start] {
                let mut single_scc: Vec<usize> = Vec::new();
                let ghost before = visited@;
                let ghost seen = Set::new(|i: int| 0 <= i < n && before[i]);
                let ghost flat0 = flatten_groups(result@);
                proof {
                    assert forall|i: usize| i < n implies (before[i as int] <==> flat0.contains(i)) by {}
                }
                transposed.dfs(start, &mut visited, &mut single_scc, Ghost(seen));
                let ghost old_result = result@;
                result.push(single_scc);
                proof {
                    let single = single_scc@;
                    assert(result@.drop_last() =~= old_result);
                    assert(flatten_groups(result@) == flat0 + single);
                    assert forall|k: int| 0 <= k < single.len() implies !flat0.contains(
                        single[k],
                    ) by {
                        if flat0.contains(single[k]) {
                            assert(before[single[k] as int]);
                            assert(seen.contains(single[k] as int));
                        }
                    }
                    lemma_distinct_concat(flat0, single);
                    assert forall|i: usize| i < n implies (visited@[i as int] <==> flatten_groups(
                        result@,
                    ).contains(i)) by {
                        lemma_contains_concat(flat0, single, i);
                        assert(seen.contains(i as int) <==> before[i as int]);
                        assert(before[i as int] <==> flat0.contains(i));
                    }
                    assert forall|k: int|
                        0 <= k < flatten_groups(result@).len() implies #[trigger] flatten_groups(
                        result@,
                    )[k] < n by {
                        if k >= flat0.len() {
                            assert(flatten_groups(result@)[k] == single[k - flat0.len()]);
                        }
                    }
                    assert(!seen.contains(start as int));
                    assert(single.contains(start));
                    assert forall|g: int| 0 <= g < result@.len() implies (#[trigger] result@[g])@.len()
                        > 0 by {
                        if g < old_result.len() {
                            assert(result@[g] == old_result[g]);
                        }
                    }
                    assert forall|g: int, k: int|
                        0 <= g < result@.len() && 0 <= k < result@[g]@.len() implies self.reaches(
                        #[trigger] result@[g]@[k] as int,
                        result@[g]@.last() as int,
                    ) by {
                        if g < old_result.len() {
                            assert(result@[g] == old_result[g]);
                        } else {
                            assert(transposed.reaches(start as int, single[k] as int));
                            lemma_reaches_reversed(self, &transposed, start as int, single[k] as int);
                        }
                    }
                }
            }
        }
        proof {
            assert forall|i: usize| i < n implies flatten_groups(result@).contains(i) by {
                assert(postorder@.contains(i));
                let k = choose|k: int| 0 <= k < postorder@.len() && postorder@[k] == i;
                assert(visited@[postorder@[k] as int]);
            }
        }
        result
    }

    /// Every vertex once, each after all the vertices first reached from it.
    pub fn postorder(&self) -> (r: Vec<usize>)
        requires
            self.wf(),
        ensures
            distinct(r@),
            forall|k: int| 0 <= k < r@.len() ==> r@[k] < self.n,
            forall|i: usize| i < self.n ==> r@.contains(i),
    {
        let n = self.n;
        let mut result: Vec<usize> = Vec::new();
        let mut visited: Vec<bool> = Vec::new();
        while visited.len() < n
            invariant
                visited@.len() <= n,
                forall|i: int| 0 <= i < visited@.len() ==> !visited@[i],
            decreases n - visited@.len(),
        {
            visited.push(false);
        }
        let mut start: usize = 0;
        while start < n
            invariant
                n == self.n,
                self.wf(),
                start <= n,
                visited@.len() == n,
                distinct(result@),
                forall|k: int| 0 <= k < result@.len() ==> result@[k] < n,
                forall|i: usize| i < n ==> (visited@[i as int] <==> result@.contains(i)),
                forall|i: int| 0 <= i < start ==> visited@[i],
            decreases n - start,
        {
            if !visited[start] {
                self.dfs(start, &mut visited, &mut result, Ghost(Set::empty()));
                proof {
                    assert forall|i: usize| i < n implies (visited@[i as int] <==> result@.contains(
                        i,
                    )) by {
                        assert(!Set::<int>::empty().contains(i as int));
                    }
                }
            }
            start = start + 1;
        }
        result
    }

    /// Visits every vertex reachable from `current` through unvisited
    /// vertices, appending each after the vertices reached from it. `pending`
    /// are the vertices visited but not yet appended.
    fn dfs(
        &self,
        current: usize,
        visited: &mut Vec<bool>,
        result: &mut Vec<usize>,
        Ghost(pending): Ghost<Set<int>>,
    )
        requires
            self.wf(),
            current < self.n,
            old(visited)@.len() == self.n,
            distinct(old(result)@),
            forall|k: int| 0 <= k < old(result)@.len() ==> old(result)@[k] < self.n,
            forall|k: int| 0 <= k < old(result)@.len() ==> !pending.contains(old(result)@[k] as int),
            forall|i: usize|
                i < self.n ==> (old(visited)@[i as int] <==> (old(result)@.contains(i)
                    || pending.contains(i as int))),
        ensures
            final(visited)@.len() == self.n,
            final(visited)@[current as int],
            forall|i: int| 0 <= i < self.n && old(visited)@[i] ==> final(visited)@[i],
            old(result)@.len() <= final(result)@.len(),
            final(result)@.subrange(0, old(result)@.len() as int) == old(result)@,
            distinct(final(result)@),
            forall|k: int| 0 <= k < final(result)@.len() ==> final(result)@[k] < self.n,
            forall|k: int|
                0 <= k < final(result)@.len() ==> !pending.contains(final(result)@[k] as int),
            forall|i: usize|
                i < self.n ==> (final(visited)@[i as int] <==> (final(result)@.contains(i)
                    || pending.contains(i as int))),
            forall|k: int|
                old(result)@.len() <= k < final(result)@.len() ==> self.reaches(
                    current as int,
                    #[trigger] final(result)@[k] as int,
                ),
            !old(visited)@[current as int] ==> final(result)@.len() > old(result)@.len()
                && final(result)@.last() == current,
        decreases count_unvisited(old(visited)@),
    {
        if visited[current] {
            proof {
                assert(result@.subrange(0, result@.len() as int) =~= result@);
            }
            return;
        }
        let ghost v0 = visited@;
        let ghost r0 = result@;
        visited.set(current, true);
        proof {
            lemma_count_visit(v0, current as int);
        }
        let ghost inner = pending.insert(current as int);
        let len = self.adj[current].len();
        let mut j: usize = 0;
        while j < len
            invariant
                self.wf(),
                current < self.n,
                len == self.adj@[current as int]@.len(),
                j <= len,
                inner == pending.insert(current as int),
                v0 == old(visited)@,
                r0 == old(result)@,
                visited@.len() == self.n,
                visited@[current as int],
                count_unvisited(visited@) < count_unvisited(v0),
                forall|i: int| 0 <= i < self.n && v0[i] ==> visited@[i],
                r0.len() <= result@.len(),
                result@.subrange(0, r0.len() as int) == r0,
                distinct(result@),
                forall|k: int| 0 <= k < result@.len() ==> result@[k] < self.n,
                forall|k: int| 0 <= k < result@.len() ==> !inner.contains(result@[k] as int),
                forall|i: usize|
                    i < self.n ==> (visited@[i as int] <==> (result@.contains(i)
                        || inner.contains(i as int))),
                forall|k: int|
                    r0.len() <= k < result@.len() ==> self.reaches(
                        current as int,
                        #[trigger] result@[k] as int,
                    ),
            decreases len - j,
        {
            let next = self.adj[current][j];
            let ghost v1 = visited@;
            let ghost r1 = result@;
            self.dfs(next, visited, result, Ghost(inner));
            proof {
                lemma_count_monotone(v1, visited@);
                assert(result@.subrange(0, r0.len() as int) =~= r1.subrange(0, r0.len() as int));
                assert(self.adj@[current as int]@[j as int] == next);
                assert(self.has_edge(current as int, next as int));
                assert forall|k: int| r0.len() <= k < result@.len() implies self.reaches(
                    current as int,
                    #[trigger] result@[k] as int,
                ) by {
                    if k >= r1.len() {
                        lemma_reaches_prepend(self, current as int, next as int, result@[k] as int);
                    } else {
                        assert(result@[k] == result@.subrange(0, r1.len() as int)[k]);
                    }
                }
            }
            j = j + 1;
        }
        let ghost r2 = result@;
        proof {
            assert(!r2.contains(current));
        }
        result.push(current);
        proof {
            assert(result@.subrange(0, r0.len() as int) =~= r2.subrange(0, r0.len() as int));
            assert forall|i: usize| i < self.n implies (visited@[i as int] <==> (result@.contains(
                i,
            ) || pending.contains(i as int))) by {
                lemma_contains_push(r2, current, i);
                assert(visited@[i as int] <==> (r2.contains(i) || inner.contains(i as int)));
                assert(inner.contains(i as int) <==> (pending.contains(i as int) || i == current));
            }
            assert forall|i: int| 0 <= i < self.n && v0[i] implies visited@[i] by {}
            assert forall|k: int| r0.len() <= k < result@.len() implies self.reaches(
                current as int,
                #[trigger] result@[k] as int,
            ) by {
                if k == r2.len() {
                    lemma_reaches_self(self, current as int);
                } else {
                    assert(result@[k] == r2[k]);
                }
            }
        }
    }
}

} // verus!
