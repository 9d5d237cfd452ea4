use vstd::arithmetic::power2::{lemma_pow2_strictly_increases, lemma_pow2_unfold, pow2};
use vstd::prelude::*;

verus! {

/// A monoid of aggregates acted on by a monoid of pending updates.
pub trait SegmentTreeCompatible: Copy + Sized {
    spec fn ident_spec() -> Self;

    spec fn combine_spec(self, rhs: Self) -> Self;

    spec fn apply_spec(self, rhs: Self) -> Self;

    spec fn compose_spec(self, rhs: Self) -> Self;

    /// `combine` is associative with identity `ident`; `apply` of `ident` changes
    /// nothing; applying `b` then `c` is applying `compose(b, c)`; `compose` has
    /// identity `ident`; and an update distributes over `combine`.
    proof fn laws(a: Self, b: Self, c: Self)
        ensures
            a.combine_spec(b).combine_spec(c) == a.combine_spec(b.combine_spec(c)),
            Self::ident_spec().combine_spec(a) == a,
            a.combine_spec(Self::ident_spec()) == a,
            a.apply_spec(Self::ident_spec()) == a,
            a.apply_spec(b).apply_spec(c) == a.apply_spec(b.compose_spec(c)),
            Self::ident_spec().compose_spec(a) == a,
            a.compose_spec(Self::ident_spec()) == a,
            a.combine_spec(b).apply_spec(c) == a.apply_spec(c).combine_spec(b.apply_spec(c)),
    ;

    fn ident() -> (r: Self)
        ensures
            r == Self::ident_spec(),
    ;

    fn combine(self, rhs: Self) -> (r: Self)
        ensures
            r == self.combine_spec(rhs),
    ;

    fn apply(self, rhs: Self) -> (r: Self)
        ensures
            r == self.apply_spec(rhs),
    ;

    fn compose(self, rhs: Self) -> (r: Self)
        ensures
            r == self.compose_spec(rhs),
    ;
}

/// Maximum as the aggregate, saturating addition as the update.
impl SegmentTreeCompatible for usize {
    open spec fn ident_spec() -> usize {
        0
    }

    open spec fn combine_spec(self, rhs: usize) -> usize {
        if self >= rhs {
            self
        } else {
            rhs
        }
    }

    open spec fn apply_spec(self, rhs: usize) -> usize {
        if self + rhs > usize::MAX {
            usize::MAX
        } else {
            (self + rhs) as usize
        }
    }

    open spec fn compose_spec(self, rhs: usize) -> usize {
        if self + rhs > usize::MAX {
            usize::MAX
        } else {
            (self + rhs) as usize
        }
    }

    proof fn laws(a: usize, b: usize, c: usize) {
    }

    fn ident() -> (r: usize) {
        0
    }

    fn combine(self, rhs: usize) -> (r: usize) {
        if self >= rhs {
            self
        } else {
            rhs
        }
    }

    fn apply(self, rhs: usize) -> (r: usize) {
        if self > usize::MAX - rhs {
            usize::MAX
        } else {
            self + rhs
        }
    }

    fn compose(self, rhs: usize) -> (r: usize) {
        if self > usize::MAX - rhs {
            usize::MAX
        } else {
            self + rhs
        }
    }
}


/// The aggregates of `s` combined from left to right; `ident` when `s` is empty.
pub open spec fn combine_all<T: SegmentTreeCompatible>(s: Seq<T>) -> T
    decreases s.len(),
{
    if s.len() == 0 {
        T::ident_spec()
    } else {
        combine_all(s.drop_last()).combine_spec(s.last())
    }
}

/// `s` with the update `u` applied to every element.
pub open spec fn apply_all<T: SegmentTreeCompatible>(s: Seq<T>, u: T) -> Seq<T> {
    Seq::new(s.len(), |k: int| s[k].apply_spec(u))
}

/// `s` with the update `u` applied to the elements at `[begin, end)`.
pub open spec fn apply_on_range<T: SegmentTreeCompatible>(s: Seq<T>, begin: int, end: int, u: T) -> Seq<T> {
    Seq::new(s.len(), |k: int| if begin <= k < end { s[k].apply_spec(u) } else { s[k] })
}

/// The elements of `s` at `[begin, end)`, clipped to the positions `s` has.
pub open spec fn window<T>(s: Seq<T>, begin: int, end: int) -> Seq<T> {
    let b = if begin < 0 { 0 } else { begin };
    let e = if end > s.len() { s.len() as int } else { end };
    if b < e {
        s.subrange(b, e)
    } else {
        Seq::empty()
    }
}

proof fn lemma_combine_all_concat<T: SegmentTreeCompatible>(a: Seq<T>, b: Seq<T>)
    ensures
        combine_all(a + b) == combine_all(a).combine_spec(combine_all(b)),
    decreases b.len(),
{
    if b.len() == 0 {
        assert(a + b =~= a);
        T::laws(combine_all(a), combine_all(a), combine_all(a));
    } else {
        lemma_combine_all_concat(a, b.drop_last());
        assert((a + b).drop_last() =~= a + b.drop_last());
        T::laws(combine_all(a), combine_all(b.drop_last()), b.last());
    }
}

proof fn lemma_combine_all_apply<T: SegmentTreeCompatible>(s: Seq<T>, u: T)
    requires
        s.len() > 0,
    ensures
        combine_all(apply_all(s, u)) == combine_all(s).apply_spec(u),
    decreases s.len(),
{
    let t = apply_all(s, u);
    if s.len() == 1 {
        assert(t.drop_last() =~= Seq::<T>::empty());
        assert(s.drop_last() =~= Seq::<T>::empty());
        assert(combine_all(t.drop_last()) == T::ident_spec());
        assert(combine_all(s.drop_last()) == T::ident_spec());
        T::laws(t.last(), t.last(), t.last());
        T::laws(s.last(), s.last(), s.last());
    } else {
        lemma_combine_all_apply(s.drop_last(), u);
        assert(t.drop_last() =~= apply_all(s.drop_last(), u));
        T::laws(combine_all(s.drop_last()), s.last(), u);
    }
}

proof fn lemma_apply_all_ident<T: SegmentTreeCompatible>(s: Seq<T>)
    ensures
        apply_all(s, T::ident_spec()) == s,
{
    assert forall|k: int| 0 <= k < s.len() implies apply_all(s, T::ident_spec())[k] == s[k] by {
        T::laws(s[k], s[k], s[k]);
    }
    assert(apply_all(s, T::ident_spec()) =~= s);
}

proof fn lemma_apply_all_twice<T: SegmentTreeCompatible>(s: Seq<T>, u: T, w: T)
    ensures
        apply_all(apply_all(s, u), w) == apply_all(s, u.compose_spec(w)),
{
    assert forall|k: int| 0 <= k < s.len() implies apply_all(apply_all(s, u), w)[k] == apply_all(
        s,
        u.compose_spec(w),
    )[k] by {
        T::laws(s[k], u, w);
    }
    assert(apply_all(apply_all(s, u), w) =~= apply_all(s, u.compose_spec(w)));
}

/// Whether node `k` lies in the subtree rooted at node `j`.
spec fn in_subtree(k: int, j: int) -> bool
    decreases k,
{
    if k <= 0 || k < j {
        false
    } else if k == j {
        true
    } else {
        in_subtree(k / 2, j)
    }
}

proof fn lemma_in_subtree_child(k: int, j: int, c: int)
    requires
        j >= 1,
        c == 2 * j || c == 2 * j + 1,
        in_subtree(k, c),
    ensures
        in_subtree(k, j),
    decreases k,
{
    if k == c {
        assert(c / 2 == j);
        assert(in_subtree(j, j));
    } else {
        lemma_in_subtree_child(k / 2, j, c);
    }
}

proof fn lemma_in_subtree_nested(k: int, a: int, b: int)
    requires
        a <= b,
        in_subtree(k, a),
        in_subtree(k, b),
    ensures
        in_subtree(b, a),
    decreases k,
{
    if k != b {
        lemma_in_subtree_nested(k / 2, a, b);
    }
}

/// Two siblings share no node.
proof fn lemma_siblings_apart(k: int, j: int)
    requires
        j >= 1,
    ensures
        !(in_subtree(k, 2 * j) && in_subtree(k, 2 * j + 1)),
        !in_subtree(j, 2 * j),
        !in_subtree(j, 2 * j + 1),
{
    if in_subtree(k, 2 * j) && in_subtree(k, 2 * j + 1) {
        lemma_in_subtree_nested(k, 2 * j, 2 * j + 1);
        assert(!in_subtree(j, 2 * j));
    }
}

/// Node `i` sits at depth `d` of a tree of `levels` levels below the root and
/// covers `[lo, hi)`, which is no longer than a node at that depth may cover.
spec fn placed(i: int, lo: int, hi: int, d: nat, levels: nat) -> bool {
    &&& 1 <= i < pow2(d + 1)
    &&& d <= levels
    &&& 0 <= lo <= hi
    &&& hi - lo <= pow2((levels - d) as nat)
}

proof fn lemma_placed_index(i: int, lo: int, hi: int, d: nat, levels: nat)
    requires
        placed(i, lo, hi, d, levels),
    ensures
        i < 2 * pow2(levels),
{
    lemma_pow2_unfold(levels + 1);
    if d < levels {
        lemma_pow2_strictly_increases(d + 1, levels + 1);
    }
}

proof fn lemma_placed_children(i: int, lo: int, hi: int, d: nat, levels: nat)
    requires
        placed(i, lo, hi, d, levels),
        hi - lo >= 2,
    ensures
        d < levels,
        placed(2 * i, lo, (lo + hi) / 2, d + 1, levels),
        placed(2 * i + 1, (lo + hi) / 2, hi, d + 1, levels),
{
    if d == levels {
        assert(pow2(0) == 1) by {
            vstd::arithmetic::power2::lemma2_to64();
        }
    }
    lemma_pow2_unfold(d + 2);
    lemma_pow2_unfold((levels - d) as nat);
    assert((levels - d - 1) as nat == (levels - (d + 1)) as nat);
}

/// The values at positions `[lo, hi)` held by the subtree of node `i`, with
/// each node's pending update applied.
spec fn node_view<T: SegmentTreeCompatible>(
    values: Seq<T>,
    thunks: Seq<T>,
    i: int,
    lo: int,
    hi: int,
) -> Seq<T>
    decreases hi - lo,
{
    if hi <= lo {
        Seq::empty()
    } else if hi - lo == 1 {
        seq![values[i].apply_spec(thunks[i])]
    } else {
        let mid = (lo + hi) / 2;
        apply_all(
            node_view(values, thunks, 2 * i, lo, mid) + node_view(values, thunks, 2 * i + 1, mid, hi),
            thunks[i],
        )
    }
}

/// Each inner node of the subtree holds the combination of its children's
/// aggregates, each with the child's pending update applied.
spec fn node_ok<T: SegmentTreeCompatible>(
    values: Seq<T>,
    thunks: Seq<T>,
    i: int,
    lo: int,
    hi: int,
) -> bool
    decreases hi - lo,
{
    if hi - lo <= 1 {
        true
    } else {
        let mid = (lo + hi) / 2;
        &&& values[i] == values[2 * i].apply_spec(thunks[2 * i]).combine_spec(
            values[2 * i + 1].apply_spec(thunks[2 * i + 1]),
        )
        &&& node_ok(values, thunks, 2 * i, lo, mid)
        &&& node_ok(values, thunks, 2 * i + 1, mid, hi)
    }
}

proof fn lemma_node_view_len<T: SegmentTreeCompatible>(
    values: Seq<T>,
    thunks: Seq<T>,
    i: int,
    lo: int,
    hi: int,
)
    requires
        lo <= hi,
    ensures
        node_view(values, thunks, i, lo, hi).len() == hi - lo,
    decreases hi - lo,
{
    if hi - lo > 1 {
        let mid = (lo + hi) / 2;
        lemma_node_view_len(values, thunks, 2 * i, lo, mid);
        lemma_node_view_len(values, thunks, 2 * i + 1, mid, hi);
    }
}

/// The view and the shape of a subtree depend only on the nodes in it.
proof fn lemma_node_frame<T: SegmentTreeCompatible>(
    v1: Seq<T>,
    t1: Seq<T>,
    v2: Seq<T>,
    t2: Seq<T>,
    i: int,
    lo: int,
    hi: int,
    d: nat,
    levels: nat,
)
    requires
        placed(i, lo, hi, d, levels),
        v1.len() == 2 * pow2(levels),
        forall|k: int|
            0 <= k < v1.len() && in_subtree(k, i) ==> v1[k] == v2[k] && t1[k] == t2[k],
    ensures
        node_view(v1, t1, i, lo, hi) == node_view(v2, t2, i, lo, hi),
        node_ok(v1, t1, i, lo, hi) == node_ok(v2, t2, i, lo, hi),
    decreases hi - lo,
{
    assert(in_subtree(i, i));
    lemma_placed_index(i, lo, hi, d, levels);
    if hi - lo > 1 {
        let mid = (lo + hi) / 2;
        lemma_placed_children(i, lo, hi, d, levels);
        lemma_placed_index(2 * i, lo, mid, d + 1, levels);
        lemma_placed_index(2 * i + 1, mid, hi, d + 1, levels);
        assert forall|k: int| 0 <= k < v1.len() && in_subtree(k, 2 * i) implies v1[k] == v2[k]
            && t1[k] == t2[k] by {
            lemma_in_subtree_child(k, i, 2 * i);
        }
        assert forall|k: int| 0 <= k < v1.len() && in_subtree(k, 2 * i + 1) implies v1[k]
            == v2[k] && t1[k] == t2[k] by {
            lemma_in_subtree_child(k, i, 2 * i + 1);
        }
        assert(in_subtree(2 * i, 2 * i));
        assert(in_subtree(2 * i + 1, 2 * i + 1));
        lemma_node_frame(v1, t1, v2, t2, 2 * i, lo, mid, d + 1, levels);
        lemma_node_frame(v1, t1, v2, t2, 2 * i + 1, mid, hi, d + 1, levels);
    }
}

/// The combination of a well-formed subtree's view is its root's aggregate.
proof fn lemma_node_aggregate<T: SegmentTreeCompatible>(
    values: Seq<T>,
    thunks: Seq<T>,
    i: int,
    lo: int,
    hi: int,
)
    requires
        lo < hi,
        node_ok(values, thunks, i, lo, hi),
    ensures
        combine_all(node_view(values, thunks, i, lo, hi)) == values[i].apply_spec(thunks[i]),
    decreases hi - lo,
{
    let s = node_view(values, thunks, i, lo, hi);
    if hi - lo == 1 {
        assert(s.drop_last() =~= Seq::<T>::empty());
        assert(combine_all(s.drop_last()) == T::ident_spec());
        T::laws(s.last(), s.last(), s.last());
    } else {
        let mid = (lo + hi) / 2;
        let l = node_view(values, thunks, 2 * i, lo, mid);
        let r = node_view(values, thunks, 2 * i + 1, mid, hi);
        lemma_node_aggregate(values, thunks, 2 * i, lo, mid);
        lemma_node_aggregate(values, thunks, 2 * i + 1, mid, hi);
        lemma_node_view_len(values, thunks, 2 * i, lo, mid);
        lemma_combine_all_concat(l, r);
        lemma_combine_all_apply(l + r, thunks[i]);
    }
}

/// Composing `u` onto the pending update of node `i` applies `u` to its view
/// and keeps its shape.
proof fn lemma_node_compose<T: SegmentTreeCompatible>(
    values: Seq<T>,
    thunks: Seq<T>,
    i: int,
    lo: int,
    hi: int,
    u: T,
    d: nat,
    levels: nat,
)
    requires
        placed(i, lo, hi, d, levels),
        thunks.len() == 2 * pow2(levels),
        values.len() == 2 * pow2(levels),
        lo < hi,
    ensures
        node_view(values, thunks.update(i, thunks[i].compose_spec(u)), i, lo, hi) == apply_all(
            node_view(values, thunks, i, lo, hi),
            u,
        ),
        node_ok(values, thunks.update(i, thunks[i].compose_spec(u)), i, lo, hi) == node_ok(
            values,
            thunks,
            i,
            lo,
            hi,
        ),
{
    let t2 = thunks.update(i, thunks[i].compose_spec(u));
    lemma_placed_index(i, lo, hi, d, levels);
    if hi - lo == 1 {
        T::laws(values[i], thunks[i], u);
        assert(node_view(values, t2, i, lo, hi) =~= apply_all(node_view(values, thunks, i, lo, hi), u));
    } else {
        let mid = (lo + hi) / 2;
        lemma_placed_index(i, lo, hi, d, levels);
        lemma_placed_children(i, lo, hi, d, levels);
        lemma_placed_index(2 * i, lo, mid, d + 1, levels);
        lemma_placed_index(2 * i + 1, mid, hi, d + 1, levels);
        assert(t2[2 * i] == thunks[2 * i]);
        assert(t2[2 * i + 1] == thunks[2 * i + 1]);
        lemma_siblings_apart(i, i);
        lemma_node_frame(values, t2, values, thunks, 2 * i, lo, mid, d + 1, levels);
        lemma_node_frame(values, t2, values, thunks, 2 * i + 1, mid, hi, d + 1, levels);
        lemma_siblings_apart(i, i);
        let c = node_view(values, thunks, 2 * i, lo, mid) + node_view(values, thunks, 2 * i + 1, mid, hi);
        lemma_apply_all_twice(c, thunks[i], u);
    }
}


proof fn lemma_node_init<T: SegmentTreeCompatible>(
    values: Seq<T>,
    thunks: Seq<T>,
    i: int,
    lo: int,
    hi: int,
    d: nat,
    levels: nat,
)
    requires
        placed(i, lo, hi, d, levels),
        values.len() == 2 * pow2(levels),
        thunks.len() == 2 * pow2(levels),
        forall|k: int| 0 <= k < values.len() ==> values[k] == T::ident_spec(),
        forall|k: int| 0 <= k < thunks.len() ==> thunks[k] == T::ident_spec(),
    ensures
        node_view(values, thunks, i, lo, hi) == Seq::new((hi - lo) as nat, |k: int| T::ident_spec()),
        node_ok(values, thunks, i, lo, hi),
    decreases hi - lo,
{
    let z = T::ident_spec();
    T::laws(z, z, z);
    lemma_placed_index(i, lo, hi, d, levels);
    if hi - lo == 1 {
        assert(node_view(values, thunks, i, lo, hi) =~= Seq::new((hi - lo) as nat, |k: int| z));
    } else if hi - lo > 1 {
        let mid = (lo + hi) / 2;
        lemma_placed_children(i, lo, hi, d, levels);
        lemma_placed_index(2 * i, lo, mid, d + 1, levels);
        lemma_placed_index(2 * i + 1, mid, hi, d + 1, levels);
        lemma_node_init(values, thunks, 2 * i, lo, mid, d + 1, levels);
        lemma_node_init(values, thunks, 2 * i + 1, mid, hi, d + 1, levels);
        let c = node_view(values, thunks, 2 * i, lo, mid) + node_view(values, thunks, 2 * i + 1, mid, hi);
        lemma_apply_all_ident(c);
        assert(c =~= Seq::new((hi - lo) as nat, |k: int| z));
    } else {
        assert(node_view(values, thunks, i, lo, hi) =~= Seq::new((hi - lo) as nat, |k: int| z));
    }
}

/// A node of the tree and the half-open range of positions it covers.
#[derive(Clone, Copy)]
struct TraversalState {
    idx: usize,
    begin: usize,
    end: usize,
}

impl TraversalState {
    fn length(&self) -> (r: usize)
        requires
            self.begin <= self.end,
        ensures
            r == self.end - self.begin,
    {
        self.end - self.begin
    }

    fn is_leaf(&self) -> (r: bool)
        requires
            self.begin <= self.end,
        ensures
            r == (self.end - self.begin == 1),
    {
        self.length() == 1
    }

    fn is_disjoint(&self, begin: usize, end: usize) -> (r: bool)
        ensures
            r == (self.begin >= end || self.end <= begin),
    {
        self.begin >= end || self.end <= begin
    }

    fn is_included(&self, begin: usize, end: usize) -> (r: bool)
        ensures
            r == (self.begin >= begin && self.end <= end),
    {
        self.begin >= begin && self.end <= end
    }

    fn left_child(&self) -> (r: Self)
        requires
            self.idx <= usize::MAX / 2,
            self.begin + self.end <= usize::MAX,
        ensures
            r.idx == 2 * self.idx,
            r.begin == self.begin,
            r.end == (self.begin + self.end) / 2,
    {
        let idx = self.idx * 2;
        let begin = self.begin;
        let end = (self.begin + self.end) / 2;
        TraversalState { idx, begin, end }
    }

    fn right_child(&self) -> (r: Self)
        requires
            self.idx < usize::MAX / 2,
            self.begin + self.end <= usize::MAX,
        ensures
            r.idx == 2 * self.idx + 1,
            r.begin == (self.begin + self.end) / 2,
            r.end == self.end,
    {
        let idx = self.idx * 2 + 1;
        let begin = (self.begin + self.end) / 2;
        let end = self.end;
        TraversalState { idx, begin, end }
    }
}

/// Range updates and range aggregates over `size` positions, with updates
/// deferred at inner nodes until a later call passes through them.
pub struct SegmentTree<T: SegmentTreeCompatible> {
    size: usize,
    values: Vec<T>,
    thunks: Vec<T>,
    levels: Ghost<nat>,
}

impl<T: SegmentTreeCompatible> View for SegmentTree<T> {
    type V = Seq<T>;

    /// The value at each position, with every pending update applied.
    closed spec fn view(&self) -> Seq<T> {
        node_view(self.values@, self.thunks@, 1, 0, self.size as int)
    }
}

impl<T: SegmentTreeCompatible> SegmentTree<T> {
    /// The arrays' shape, apart from what the nodes hold.
    spec fn sized(&self) -> bool {
        &&& self.values@.len() == 2 * pow2(self.levels@)
        &&& self.thunks@.len() == 2 * pow2(self.levels@)
        &&& self.size <= pow2(self.levels@)
        &&& 2 * pow2(self.levels@) <= usize::MAX
        &&& self.size <= usize::MAX / 4
    }

    pub closed spec fn wf(&self) -> bool {
        &&& self.sized()
        &&& node_ok(self.values@, self.thunks@, 1, 0, self.size as int)
    }

    /// What is left unchanged by work inside the subtree of node `i`.
    spec fn same_outside(&self, other: &Self, i: int) -> bool {
        &&& self.size == other.size
        &&& self.levels@ == other.levels@
        &&& self.values@.len() == other.values@.len()
        &&& self.thunks@.len() == other.thunks@.len()
        &&& forall|k: int|
            0 <= k < self.values@.len() && !in_subtree(k, i) ==> self.values@[k] == other.values@[k]
                && self.thunks@[k] == other.thunks@[k]
    }

    /// A tree of `size` positions, each holding `ident`.
    pub fn new(size: usize) -> (r: Self)
        requires
            size <= usize::MAX / 4,
        ensures
            r.wf(),
            r@ == Seq::new(size as nat, |k: int| T::ident_spec()),
    {
        let mut p: usize = 1;
        let ghost mut levels: nat = 0;
        proof {
            vstd::arithmetic::power2::lemma2_to64();
        }
        while p < size
            invariant
                p == pow2(levels),
                size <= usize::MAX / 4,
                1 <= p,
                p < 2 * size || p == 1,
            decreases usize::MAX - p,
        {
            proof {
                lemma_pow2_unfold(levels + 1);
            }
            p = p * 2;
            proof {
                levels = levels + 1;
            }
        }
        let tree_size = 2 * p;
        let z = T::ident();
        let mut values: Vec<T> = Vec::new();
        let mut thunks: Vec<T> = Vec::new();
        while values.len() < tree_size
            invariant
                values@.len() == thunks@.len(),
                values@.len() <= tree_size,
                forall|k: int| 0 <= k < values@.len() ==> values@[k] == z,
                forall|k: int| 0 <= k < thunks@.len() ==> thunks@[k] == z,
            decreases tree_size - values@.len(),
        {
            values.push(z);
            thunks.push(z);
        }
        proof {
            lemma_pow2_unfold(1);
            assert(pow2(0) == 1);
            lemma_node_init(values@, thunks@, 1, 0, size as int, 0, levels);
        }
        SegmentTree { size, values, thunks, levels: Ghost(levels) }
    }

    /// Applies `value` at every position of `[begin, end)`; an empty range
    /// changes nothing.
    pub fn update(&mut self, begin: usize, end: usize, value: T)
        requires
            old(self).wf(),
            end <= old(self)@.len(),
        ensures
            final(self).wf(),
            final(self)@ == apply_on_range(old(self)@, begin as int, end as int, value),
    {
        let state = self.root();
        proof {
            lemma_node_view_len(self.values@, self.thunks@, 1, 0, self.size as int);
            vstd::arithmetic::power2::lemma2_to64();
        }
        self.update_node(begin, end, value, state, Ghost(0));
        proof {
            let s = node_view(old(self).values@, old(self).thunks@, 1, 0, old(self).size as int);
            assert(apply_on_range(s, begin - 0, end - 0, value) =~= apply_on_range(
                s,
                begin as int,
                end as int,
                value,
            ));
        }
    }

    /// The combination of the values at `[begin, end)`; `ident` for an empty
    /// range. Pending updates on the way are pushed down.
    pub fn query(&mut self, begin: usize, end: usize) -> (r: T)
        requires
            old(self).wf(),
            end <= old(self)@.len(),
        ensures
            final(self).wf(),
            final(self)@ == old(self)@,
            r == combine_all(window(old(self)@, begin as int, end as int)),
    {
        let state = self.root();
        proof {
            lemma_node_view_len(self.values@, self.thunks@, 1, 0, self.size as int);
            vstd::arithmetic::power2::lemma2_to64();
        }
        let r = self.query_node(begin, end, state, Ghost(0));
        proof {
            let s = node_view(old(self).values@, old(self).thunks@, 1, 0, old(self).size as int);
            assert(window(s, begin - 0, end - 0) =~= window(s, begin as int, end as int));
        }
        r
    }

    fn root(&self) -> (r: TraversalState)
        ensures
            r.idx == 1,
            r.begin == 0,
            r.end == self.size,
    {
        TraversalState { idx: 1, begin: 0, end: self.size }
    }

    /// Applies the pending update of a node to its aggregate and hands it on
    /// to its children.
    fn push(&mut self, state: TraversalState, Ghost(d): Ghost<nat>)
        requires
            old(self).sized(),
            placed(state.idx as int, state.begin as int, state.end as int, d, old(self).levels@),
            state.begin < state.end,
            state.end <= old(self).size,
            node_ok(
                old(self).values@,
                old(self).thunks@,
                state.idx as int,
                state.begin as int,
                state.end as int,
            ),
        ensures
            final(self).sized(),
            final(self).same_outside(old(self), state.idx as int),
            node_ok(
                final(self).values@,
                final(self).thunks@,
                state.idx as int,
                state.begin as int,
                state.end as int,
            ),
            node_view(
                final(self).values@,
                final(self).thunks@,
                state.idx as int,
                state.begin as int,
                state.end as int,
            ) == node_view(
                old(self).values@,
                old(self).thunks@,
                state.idx as int,
                state.begin as int,
                state.end as int,
            ),
            final(self).thunks@[state.idx as int] == T::ident_spec(),
    {
        let ghost v0 = self.values@;
        let ghost t0 = self.thunks@;
        let ghost levels = self.levels@;
        let ghost i = state.idx as int;
        let ghost lo = state.begin as int;
        let ghost hi = state.end as int;
        proof {
            lemma_placed_index(i, lo, hi, d, levels);
            assert(in_subtree(i, i));
        }
        let idx = state.idx;
        let thunk = self.thunks[idx];
        let v = self.values[idx].apply(thunk);
        self.values.set(idx, v);
        let z = T::ident();
        self.thunks.set(idx, z);
        if !state.is_leaf() {
            let ghost mid = (lo + hi) / 2;
            proof {
                lemma_placed_children(i, lo, hi, d, levels);
                lemma_placed_index(2 * i, lo, mid, d + 1, levels);
                lemma_placed_index(2 * i + 1, mid, hi, d + 1, levels);
            }
            let left = state.left_child();
            let right = state.right_child();
            let tl = self.thunks[left.idx].compose(thunk);
            self.thunks.set(left.idx, tl);
            let tr = self.thunks[right.idx].compose(thunk);
            self.thunks.set(right.idx, tr);
            proof {
                let v1 = self.values@;
                let t1 = self.thunks@;
                let tl0 = t0.update(2 * i, t0[2 * i].compose_spec(thunk));
                let tr0 = t0.update(2 * i + 1, t0[2 * i + 1].compose_spec(thunk));
                assert(in_subtree(2 * i, 2 * i));
                assert(in_subtree(2 * i + 1, 2 * i + 1));
                lemma_in_subtree_child(2 * i, i, 2 * i);
                lemma_in_subtree_child(2 * i + 1, i, 2 * i + 1);
                assert forall|k: int| 0 <= k < v1.len() && in_subtree(k, 2 * i) implies v1[k]
                    == v0[k] && t1[k] == tl0[k] by {
                    lemma_siblings_apart(k, i);
                }
                assert forall|k: int| 0 <= k < v1.len() && in_subtree(k, 2 * i + 1) implies v1[k]
                    == v0[k] && t1[k] == tr0[k] by {
                    lemma_siblings_apart(k, i);
                }
                lemma_node_frame(v1, t1, v0, tl0, 2 * i, lo, mid, d + 1, levels);
                lemma_node_frame(v1, t1, v0, tr0, 2 * i + 1, mid, hi, d + 1, levels);
                lemma_node_compose(v0, t0, 2 * i, lo, mid, thunk, d + 1, levels);
                lemma_node_compose(v0, t0, 2 * i + 1, mid, hi, thunk, d + 1, levels);
                let l0 = node_view(v0, t0, 2 * i, lo, mid);
                let r0 = node_view(v0, t0, 2 * i + 1, mid, hi);
                assert(apply_all(l0, thunk) + apply_all(r0, thunk) =~= apply_all(l0 + r0, thunk));
                lemma_apply_all_ident(apply_all(l0 + r0, thunk));
                T::laws(v0[2 * i], t0[2 * i], thunk);
                T::laws(v0[2 * i + 1], t0[2 * i + 1], thunk);
                T::laws(
                    v0[2 * i].apply_spec(t0[2 * i]),
                    v0[2 * i + 1].apply_spec(t0[2 * i + 1]),
                    thunk,
                );
            }
        } else {
            proof {
                T::laws(v, v, v);
                assert(node_view(self.values@, self.thunks@, i, lo, hi) =~= node_view(
                    v0,
                    t0,
                    i,
                    lo,
                    hi,
                ));
            }
        }
    }

    fn update_node(
        &mut self,
        begin: usize,
        end: usize,
        value: T,
        state: TraversalState,
        Ghost(d): Ghost<nat>,
    )
        requires
            old(self).sized(),
            placed(state.idx as int, state.begin as int, state.end as int, d, old(self).levels@),
            state.begin < state.end || end <= state.begin,
            state.end <= old(self).size,
            node_ok(
                old(self).values@,
                old(self).thunks@,
                state.idx as int,
                state.begin as int,
                state.end as int,
            ),
        ensures
            final(self).sized(),
            final(self).same_outside(old(self), state.idx as int),
            node_ok(
                final(self).values@,
                final(self).thunks@,
                state.idx as int,
                state.begin as int,
                state.end as int,
            ),
            node_view(
                final(self).values@,
                final(self).thunks@,
                state.idx as int,
                state.begin as int,
                state.end as int,
            ) == apply_on_range(
                node_view(
                    old(self).values@,
                    old(self).thunks@,
                    state.idx as int,
                    state.begin as int,
                    state.end as int,
                ),
                begin - state.begin,
                end - state.begin,
                value,
            ),
        decreases state.end - state.begin,
    {
        let ghost v0 = self.values@;
        let ghost t0 = self.thunks@;
        let ghost levels = self.levels@;
        let ghost i = state.idx as int;
        let ghost lo = state.begin as int;
        let ghost hi = state.end as int;
        proof {
            lemma_placed_index(i, lo, hi, d, levels);
            lemma_node_view_len(v0, t0, i, lo, hi);
        }
        if state.is_disjoint(begin, end) {
            proof {
                let s0 = node_view(v0, t0, i, lo, hi);
                assert(apply_on_range(s0, begin - lo, end - lo, value) =~= s0);
            }
            return;
        }
        if state.is_included(begin, end) {
            let idx = state.idx;
            let t = self.thunks[idx].compose(value);
            self.thunks.set(idx, t);
            proof {
                lemma_node_compose(v0, t0, i, lo, hi, value, d, levels);
                let s0 = node_view(v0, t0, i, lo, hi);
                assert(apply_on_range(s0, begin - lo, end - lo, value) =~= apply_all(s0, value));
                assert(in_subtree(i, i));
            }
            self.push(state, Ghost(d));
            return;
        }
        self.push(state, Ghost(d));
        let ghost mid = (lo + hi) / 2;
        proof {
            lemma_placed_children(i, lo, hi, d, levels);
            lemma_placed_index(2 * i, lo, mid, d + 1, levels);
            lemma_placed_index(2 * i + 1, mid, hi, d + 1, levels);
        }
        let left = state.left_child();
        let right = state.right_child();
        let ghost v1 = self.values@;
        let ghost t1 = self.thunks@;
        self.update_node(begin, end, value, left, Ghost(d + 1));
        let ghost v2 = self.values@;
        let ghost t2 = self.thunks@;
        proof {
            lemma_siblings_apart(i, i);
            assert(in_subtree(2 * i + 1, 2 * i + 1));
            assert forall|k: int| 0 <= k < v2.len() && in_subtree(k, 2 * i + 1) implies v2[k]
                == v1[k] && t2[k] == t1[k] by {
                lemma_siblings_apart(k, i);
            }
            lemma_node_frame(v2, t2, v1, t1, 2 * i + 1, mid, hi, d + 1, levels);
        }
        self.update_node(begin, end, value, right, Ghost(d + 1));
        let ghost v3 = self.values@;
        let ghost t3 = self.thunks@;
        let a = self.values[left.idx].apply(self.thunks[left.idx]);
        let b = self.values[right.idx].apply(self.thunks[right.idx]);
        let c = a.combine(b);
        self.values.set(state.idx, c);
        proof {
            let v4 = self.values@;
            assert(in_subtree(2 * i, 2 * i));
            // the left subtree is untouched by the right call, and both
            // children are untouched by the final write
            assert forall|k: int| 0 <= k < v3.len() && in_subtree(k, 2 * i) implies v3[k]
                == v2[k] && t3[k] == t2[k] by {
                lemma_siblings_apart(k, i);
            }
            lemma_node_frame(v3, t3, v2, t2, 2 * i, lo, mid, d + 1, levels);
            assert forall|k: int| 0 <= k < v4.len() && in_subtree(k, 2 * i) implies v4[k]
                == v3[k] && t3[k] == t3[k] by {
                lemma_siblings_apart(k, i);
            }
            assert forall|k: int| 0 <= k < v4.len() && in_subtree(k, 2 * i + 1) implies v4[k]
                == v3[k] && t3[k] == t3[k] by {
                lemma_siblings_apart(k, i);
            }
            lemma_node_frame(v4, t3, v3, t3, 2 * i, lo, mid, d + 1, levels);
            lemma_node_frame(v4, t3, v3, t3, 2 * i + 1, mid, hi, d + 1, levels);
            // outside node i nothing changed
            assert forall|k: int|
                0 <= k < v4.len() && !in_subtree(k, i) implies v4[k] == v0[k] && t3[k]
                == t0[k] by {
                if in_subtree(k, 2 * i) {
                    lemma_in_subtree_child(k, i, 2 * i);
                }
                if in_subtree(k, 2 * i + 1) {
                    lemma_in_subtree_child(k, i, 2 * i + 1);
                }
            }
            let l1 = node_view(v1, t1, 2 * i, lo, mid);
            let r1 = node_view(v1, t1, 2 * i + 1, mid, hi);
            lemma_node_view_len(v1, t1, 2 * i, lo, mid);
            lemma_node_view_len(v1, t1, 2 * i + 1, mid, hi);
            lemma_apply_all_ident(l1 + r1);
            let l3 = apply_on_range(l1, begin - lo, end - lo, value);
            let r3 = apply_on_range(r1, begin - mid, end - mid, value);
            lemma_apply_all_ident(l3 + r3);
            assert(l3 + r3 =~= apply_on_range(l1 + r1, begin - lo, end - lo, value));
        }
    }

    fn query_node(&mut self, begin: usize, end: usize, state: TraversalState, Ghost(d): Ghost<nat>) -> (r: T)
        requires
            old(self).sized(),
            placed(state.idx as int, state.begin as int, state.end as int, d, old(self).levels@),
            state.begin < state.end || end <= state.begin,
            state.end <= old(self).size,
            node_ok(
                old(self).values@,
                old(self).thunks@,
                state.idx as int,
                state.begin as int,
                state.end as int,
            ),
        ensures
            final(self).sized(),
            final(self).same_outside(old(self), state.idx as int),
            node_ok(
                final(self).values@,
                final(self).thunks@,
                state.idx as int,
                state.begin as int,
                state.end as int,
            ),
            node_view(
                final(self).values@,
                final(self).thunks@,
                state.idx as int,
                state.begin as int,
                state.end as int,
            ) == node_view(
                old(self).values@,
                old(self).thunks@,
                state.idx as int,
                state.begin as int,
                state.end as int,
            ),
            r == combine_all(
                window(
                    node_view(
                        old(self).values@,
                        old(self).thunks@,
                        state.idx as int,
                        state.begin as int,
                        state.end as int,
                    ),
                    begin - state.begin,
                    end - state.begin,
                ),
            ),
        decreases state.end - state.begin,
    {
        let ghost v0 = self.values@;
        let ghost t0 = self.thunks@;
        let ghost levels = self.levels@;
        let ghost i = state.idx as int;
        let ghost lo = state.begin as int;
        let ghost hi = state.end as int;
        proof {
            lemma_placed_index(i, lo, hi, d, levels);
            lemma_node_view_len(v0, t0, i, lo, hi);
        }
        if state.is_disjoint(begin, end) {
            proof {
                let s0 = node_view(v0, t0, i, lo, hi);
                assert(window(s0, begin - lo, end - lo) =~= Seq::<T>::empty());
                assert(combine_all(Seq::<T>::empty()) == T::ident_spec());
                assert(in_subtree(i, i));
            }
            return T::ident();
        }
        self.push(state, Ghost(d));
        if state.is_included(begin, end) {
            proof {
                let s0 = node_view(v0, t0, i, lo, hi);
                assert(window(s0, begin - lo, end - lo) =~= s0);
                lemma_node_aggregate(self.values@, self.thunks@, i, lo, hi);
                T::laws(self.values@[i], self.values@[i], self.values@[i]);
            }
            return self.values[state.idx];
        }
        let ghost mid = (lo + hi) / 2;
        proof {
            lemma_placed_children(i, lo, hi, d, levels);
            lemma_placed_index(2 * i, lo, mid, d + 1, levels);
            lemma_placed_index(2 * i + 1, mid, hi, d + 1, levels);
        }
        let ghost v1 = self.values@;
        let ghost t1 = self.thunks@;
        let left = self.query_node(begin, end, state.left_child(), Ghost(d + 1));
        let ghost v2 = self.values@;
        let ghost t2 = self.thunks@;
        proof {
            lemma_siblings_apart(i, i);
            assert(in_subtree(2 * i + 1, 2 * i + 1));
            assert forall|k: int| 0 <= k < v2.len() && in_subtree(k, 2 * i + 1) implies v2[k]
                == v1[k] && t2[k] == t1[k] by {
                lemma_siblings_apart(k, i);
            }
            lemma_node_frame(v2, t2, v1, t1, 2 * i + 1, mid, hi, d + 1, levels);
        }
        let right = self.query_node(begin, end, state.right_child(), Ghost(d + 1));
        let ghost v3 = self.values@;
        let ghost t3 = self.thunks@;
        proof {
            assert(in_subtree(2 * i, 2 * i));
            assert forall|k: int| 0 <= k < v3.len() && in_subtree(k, 2 * i) implies v3[k]
                == v2[k] && t3[k] == t2[k] by {
                lemma_siblings_apart(k, i);
            }
            lemma_node_frame(v3, t3, v2, t2, 2 * i, lo, mid, d + 1, levels);
            assert forall|k: int|
                0 <= k < v3.len() && !in_subtree(k, i) implies v3[k] == v0[k] && t3[k]
                == t0[k] by {
                if in_subtree(k, 2 * i) {
                    lemma_in_subtree_child(k, i, 2 * i);
                }
                if in_subtree(k, 2 * i + 1) {
                    lemma_in_subtree_child(k, i, 2 * i + 1);
                }
            }
            // each child keeps its aggregate, so node i stays well formed
            lemma_node_aggregate(v1, t1, 2 * i, lo, mid);
            lemma_node_aggregate(v3, t3, 2 * i, lo, mid);
            lemma_node_aggregate(v1, t1, 2 * i + 1, mid, hi);
            lemma_node_aggregate(v3, t3, 2 * i + 1, mid, hi);
            let l1 = node_view(v1, t1, 2 * i, lo, mid);
            let r1 = node_view(v1, t1, 2 * i + 1, mid, hi);
            lemma_node_view_len(v1, t1, 2 * i, lo, mid);
            lemma_node_view_len(v1, t1, 2 * i + 1, mid, hi);
            lemma_apply_all_ident(l1 + r1);
            let wl = window(l1, begin - lo, end - lo);
            let wr = window(r1, begin - mid, end - mid);
            assert(wl + wr =~= window(l1 + r1, begin - lo, end - lo));
            lemma_combine_all_concat(wl, wr);
        }
        left.combine(right)
    }
}


/// A query over `[begin, end)` is the combination, in order, of the queries
/// over `[begin, mid)` and `[mid, end)`, for any split point inside the range.
pub proof fn lemma_query_additive<T: SegmentTreeCompatible>(
    t: &SegmentTree<T>,
    begin: int,
    mid: int,
    end: int,
)
    requires
        t.wf(),
        0 <= begin <= mid <= end <= t@.len(),
    ensures
        combine_all(window(t@, begin, end)) == combine_all(window(t@, begin, mid)).combine_spec(
            combine_all(window(t@, mid, end)),
        ),
{
    let s = t@;
    let a = window(s, begin, mid);
    let b = window(s, mid, end);
    assert(a + b =~= window(s, begin, end));
    lemma_combine_all_concat(a, b);
}

/// Updating an empty range (`begin >= end`) leaves every value as it was, so
/// every later query is unchanged.
pub proof fn lemma_empty_update_is_noop<T: SegmentTreeCompatible>(
    s: Seq<T>,
    begin: int,
    end: int,
    u: T,
)
    requires
        begin >= end,
    ensures
        apply_on_range(s, begin, end, u) == s,
{
    assert(apply_on_range(s, begin, end, u) =~= s);
}

} // verus!
