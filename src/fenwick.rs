use vstd::prelude::*;

verus! {

/// An abelian group: the element type of a range-additive summation.
pub trait FenwickCompatible {
    type E: Copy;

    spec fn zero_spec() -> Self::E;

    spec fn neg_spec(a: Self::E) -> Self::E;

    spec fn add_spec(a: Self::E, b: Self::E) -> Self::E;

    /// The group laws: `add` is associative and commutative, `zero` is its
    /// identity and `neg` gives inverses.
    proof fn group_laws()
        ensures
            forall|a: Self::E, b: Self::E, c: Self::E|
                #[trigger] Self::add_spec(Self::add_spec(a, b), c) == Self::add_spec(
                    a,
                    Self::add_spec(b, c),
                ),
            forall|a: Self::E, b: Self::E|
                #[trigger] Self::add_spec(a, b) == Self::add_spec(b, a),
            forall|a: Self::E| #[trigger] Self::add_spec(a, Self::zero_spec()) == a,
            forall|a: Self::E|
                #[trigger] Self::add_spec(a, Self::neg_spec(a)) == Self::zero_spec(),
    ;

    fn zero() -> (r: Self::E)
        ensures
            r == Self::zero_spec(),
    ;

    fn neg(a: Self::E) -> (r: Self::E)
        ensures
            r == Self::neg_spec(a),
    ;

    fn add(a: Self::E, b: Self::E) -> (r: Self::E)
        ensures
            r == Self::add_spec(a, b),
    ;
}

/// Two's-complement integers under wrapping addition.
pub struct Sum<T>(std::marker::PhantomData<T>);

impl FenwickCompatible for Sum<i32> {
    type E = i32;

    open spec fn zero_spec() -> i32 {
        0
    }

    open spec fn neg_spec(a: i32) -> i32 {
        0i32.wrapping_sub(a)
    }

    open spec fn add_spec(a: i32, b: i32) -> i32 {
        a.wrapping_add(b)
    }

    proof fn group_laws() {
    }

    fn zero() -> (r: i32) {
        0
    }

    fn neg(a: i32) -> (r: i32) {
        0i32.wrapping_sub(a)
    }

    fn add(a: i32, b: i32) -> (r: i32) {
        a.wrapping_add(b)
    }
}

impl FenwickCompatible for Sum<i64> {
    type E = i64;

    open spec fn zero_spec() -> i64 {
        0
    }

    open spec fn neg_spec(a: i64) -> i64 {
        0i64.wrapping_sub(a)
    }

    open spec fn add_spec(a: i64, b: i64) -> i64 {
        a.wrapping_add(b)
    }

    proof fn group_laws() {
    }

    fn zero() -> (r: i64) {
        0
    }

    fn neg(a: i64) -> (r: i64) {
        0i64.wrapping_sub(a)
    }

    fn add(a: i64, b: i64) -> (r: i64) {
        a.wrapping_add(b)
    }
}


/// The group-sum of `s[lo..hi)`, folded from the left.
pub open spec fn range_sum<T: FenwickCompatible>(s: Seq<T::E>, lo: int, hi: int) -> T::E
    decreases hi - lo,
{
    if hi <= lo {
        T::zero_spec()
    } else {
        T::add_spec(range_sum::<T>(s, lo, hi - 1), s[hi - 1])
    }
}

/// `a` added to itself `n` times.
pub open spec fn scale_spec<T: FenwickCompatible>(n: nat, a: T::E) -> T::E
    decreases n,
{
    if n == 0 {
        T::zero_spec()
    } else {
        T::add_spec(scale_spec::<T>((n - 1) as nat, a), a)
    }
}

/// The lowest set bit of `x` (for `x > 0`).
spec fn lowbit(x: usize) -> usize {
    x & !((x - 1) as usize)
}

proof fn lemma_lowbit_bounds(x: usize)
    requires
        x > 0,
    ensures
        0 < lowbit(x) <= x,
{
    assert(0 < x & !((x - 1) as usize) <= x) by (bit_vector)
        requires
            x > 0,
    ;
}

/// Between `c` and `c + lowbit(c)` no node reaches below `c`.
proof fn lemma_lowbit_gap(c: usize, e: usize)
    requires
        c > 0,
        c < e,
        e - c < lowbit(c),
    ensures
        e - lowbit(e) >= c,
{
    assert(e - (e & !((e - 1) as usize)) >= c) by (bit_vector)
        requires
            c > 0,
            c < e,
            e - c < c & !((c - 1) as usize),
    ;
}

/// The node after `c` reaches at least as far down as `c` does.
proof fn lemma_lowbit_next(c: usize, n: usize)
    requires
        c > 0,
        n == c + lowbit(c),
    ensures
        n - lowbit(n) <= c - lowbit(c),
{
    assert(n - (n & !((n - 1) as usize)) <= c - (c & !((c - 1) as usize))) by (bit_vector)
        requires
            c > 0,
            n == c + (c & !((c - 1) as usize)),
    ;
}


proof fn lemma_range_sum_split<T: FenwickCompatible>(s: Seq<T::E>, lo: int, mid: int, hi: int)
    requires
        lo <= mid <= hi,
    ensures
        range_sum::<T>(s, lo, hi) == T::add_spec(range_sum::<T>(s, lo, mid), range_sum::<T>(s, mid, hi)),
    decreases hi - mid,
{
    T::group_laws();
    if hi > mid {
        lemma_range_sum_split::<T>(s, lo, mid, hi - 1);
    }
}

proof fn lemma_range_sum_ext<T: FenwickCompatible>(s: Seq<T::E>, t: Seq<T::E>, lo: int, hi: int)
    requires
        forall|i: int| lo <= i < hi ==> s[i] == t[i],
    ensures
        range_sum::<T>(s, lo, hi) == range_sum::<T>(t, lo, hi),
    decreases hi - lo,
{
    if hi > lo {
        lemma_range_sum_ext::<T>(s, t, lo, hi - 1);
    }
}

/// Adding `v` at one position changes the sum of every range that holds it by `v`.
proof fn lemma_range_sum_point<T: FenwickCompatible>(s: Seq<T::E>, k: int, v: T::E, lo: int, hi: int)
    requires
        0 <= k < s.len(),
        0 <= lo,
        hi <= s.len(),
    ensures
        range_sum::<T>(s.update(k, T::add_spec(s[k], v)), lo, hi) == if lo <= k < hi {
            T::add_spec(range_sum::<T>(s, lo, hi), v)
        } else {
            range_sum::<T>(s, lo, hi)
        },
    decreases hi - lo,
{
    T::group_laws();
    let t = s.update(k, T::add_spec(s[k], v));
    if hi > lo {
        lemma_range_sum_point::<T>(s, k, v, lo, hi - 1);
        if hi - 1 == k {
            lemma_range_sum_ext::<T>(s, t, lo, hi - 1);
        }
    }
}

struct PrimitiveFenwickTree<T: FenwickCompatible> {
    tree: Vec<T::E>,
    vals: Ghost<Seq<T::E>>,
}

impl<T: FenwickCompatible> PrimitiveFenwickTree<T> {
    /// Slot `j - 1` holds the sum of the values at `(j - lowbit(j), j]` (one-based).
    spec fn wf(&self) -> bool {
        &&& self.tree@.len() == self.vals@.len()
        &&& self.tree@.len() <= usize::MAX / 2
        &&& forall|j: int|
            1 <= j <= self.tree@.len() ==> #[trigger] self.tree@[j - 1] == range_sum::<T>(
                self.vals@,
                j - lowbit(j as usize),
                j,
            )
    }

    fn new(size: usize) -> (r: Self)
        requires
            size <= usize::MAX / 2,
        ensures
            r.wf(),
            r.vals@ == Seq::new(size as nat, |i: int| T::zero_spec()),
    {
        let z = T::zero();
        let mut tree: Vec<T::E> = Vec::new();
        while tree.len() < size
            invariant
                tree@.len() <= size,
                forall|i: int| 0 <= i < tree@.len() ==> tree@[i] == z,
            decreases size - tree@.len(),
        {
            tree.push(z);
        }
        let ghost vals = Seq::new(size as nat, |i: int| T::zero_spec());
        proof {
            assert forall|j: int| 1 <= j <= tree@.len() implies #[trigger] tree@[j - 1]
                == range_sum::<T>(vals, j - lowbit(j as usize), j) by {
                lemma_lowbit_bounds(j as usize);
                lemma_range_sum_zero::<T>(vals, j - lowbit(j as usize), j);
            }
        }
        PrimitiveFenwickTree { tree, vals: Ghost(vals) }
    }

    /// Adds `val` to the value at `idx`; an index past the end changes nothing.
    fn add(&mut self, idx: usize, val: T::E)
        requires
            old(self).wf(),
            idx <= old(self).vals@.len(),
        ensures
            final(self).wf(),
            final(self).vals@ == if idx < old(self).vals@.len() {
                old(self).vals@.update(idx as int, T::add_spec(old(self).vals@[idx as int], val))
            } else {
                old(self).vals@
            },
    {
        if idx == self.tree.len() {
            return;
        }
        let ghost old_vals = self.vals@;
        let ghost new_vals = old_vals.update(idx as int, T::add_spec(old_vals[idx as int], val));
        let ghost i0 = idx + 1;
        let mut cur: usize = idx + 1;
        let n = self.tree.len();
        proof {
            assert forall|j: int| 1 <= j <= n implies #[trigger] self.tree@[j - 1] == if j >= cur
                && j - lowbit(j as usize) < i0 && i0 <= j {
                range_sum::<T>(old_vals, j - lowbit(j as usize), j)
            } else {
                range_sum::<T>(new_vals, j - lowbit(j as usize), j)
            } by {
                lemma_lowbit_bounds(j as usize);
                lemma_range_sum_point::<T>(old_vals, idx as int, val, j - lowbit(j as usize), j);
            }
            lemma_lowbit_bounds(cur);
        }
        while cur <= n
            invariant
                n == self.tree@.len(),
                n == old_vals.len(),
                n <= usize::MAX / 2,
                self.vals@ == old_vals,
                new_vals == old_vals.update(idx as int, T::add_spec(old_vals[idx as int], val)),
                1 <= i0 <= n,
                i0 <= cur,
                i0 == idx + 1,
                cur - lowbit(cur) < i0,
                cur <= 2 * n,
                forall|j: int|
                    1 <= j <= n ==> #[trigger] self.tree@[j - 1] == if j >= cur && j - lowbit(
                        j as usize,
                    ) < i0 && i0 <= j {
                        range_sum::<T>(old_vals, j - lowbit(j as usize), j)
                    } else {
                        range_sum::<T>(new_vals, j - lowbit(j as usize), j)
                    },
            decreases 2 * n + 1 - cur,
        {
            let l = cur & !(cur - 1);
            proof {
                lemma_lowbit_bounds(cur);
                assert(l == lowbit(cur));
                lemma_range_sum_point::<T>(old_vals, idx as int, val, cur - l, cur as int);
            }
            let x = T::add(self.tree[cur - 1], val);
            let ghost prev = self.tree@;
            self.tree.set(cur - 1, x);
            let next = cur + l;
            proof {
                lemma_lowbit_next(cur, next);
                assert forall|j: int| 1 <= j <= n implies #[trigger] self.tree@[j - 1] == if j
                    >= next && j - lowbit(j as usize) < i0 && i0 <= j {
                    range_sum::<T>(old_vals, j - lowbit(j as usize), j)
                } else {
                    range_sum::<T>(new_vals, j - lowbit(j as usize), j)
                } by {
                    lemma_lowbit_bounds(j as usize);
                    lemma_range_sum_point::<T>(
                        old_vals,
                        idx as int,
                        val,
                        j - lowbit(j as usize),
                        j,
                    );
                    if cur < j < next {
                        lemma_lowbit_gap(cur, j as usize);
                    }
                    if j != cur {
                        assert(self.tree@[j - 1] == prev[j - 1]);
                        assert(prev[j - 1] == if j >= cur && j - lowbit(j as usize) < i0 && i0
                            <= j {
                            range_sum::<T>(old_vals, j - lowbit(j as usize), j)
                        } else {
                            range_sum::<T>(new_vals, j - lowbit(j as usize), j)
                        });
                    }
                }
            }
            cur = next;
        }
        proof {
            assert forall|j: int| 1 <= j <= n implies #[trigger] self.tree@[j - 1]
                == range_sum::<T>(new_vals, j - lowbit(j as usize), j) by {
                lemma_lowbit_bounds(j as usize);
                lemma_range_sum_point::<T>(old_vals, idx as int, val, j - lowbit(j as usize), j);
            }
        }
        self.vals = Ghost(new_vals);
    }

    /// The sum of the values at `[0, idx]`.
    fn sum(&self, idx: usize) -> (r: T::E)
        requires
            self.wf(),
            idx < self.vals@.len(),
        ensures
            r == range_sum::<T>(self.vals@, 0, idx + 1),
    {
        let mut result = T::zero();
        let mut cur: usize = idx + 1;
        while cur > 0
            invariant
                self.wf(),
                cur <= idx + 1,
                idx < self.vals@.len(),
                result == range_sum::<T>(self.vals@, cur as int, idx + 1),
            decreases cur,
        {
            proof {
                lemma_lowbit_bounds(cur);
                T::group_laws();
                lemma_range_sum_split::<T>(self.vals@, cur - lowbit(cur), cur as int, idx + 1);
            }
            result = T::add(result, self.tree[cur - 1]);
            cur = cur - (cur & !(cur - 1));
        }
        result
    }
}

proof fn lemma_range_sum_zero<T: FenwickCompatible>(s: Seq<T::E>, lo: int, hi: int)
    requires
        forall|i: int| lo <= i < hi ==> s[i] == T::zero_spec(),
    ensures
        range_sum::<T>(s, lo, hi) == T::zero_spec(),
    decreases hi - lo,
{
    T::group_laws();
    if hi > lo {
        lemma_range_sum_zero::<T>(s, lo, hi - 1);
    }
}


proof fn lemma_neg_unique<T: FenwickCompatible>(x: T::E, y: T::E)
    requires
        T::add_spec(x, y) == T::zero_spec(),
    ensures
        y == T::neg_spec(x),
{
    T::group_laws();
    assert(T::add_spec(y, T::add_spec(x, T::neg_spec(x))) == T::add_spec(
        T::add_spec(y, x),
        T::neg_spec(x),
    ));
    assert(T::add_spec(T::zero_spec(), T::neg_spec(x)) == T::neg_spec(x));
}

proof fn lemma_scale_add_count<T: FenwickCompatible>(m: nat, k: nat, a: T::E)
    ensures
        scale_spec::<T>(m + k, a) == T::add_spec(scale_spec::<T>(m, a), scale_spec::<T>(k, a)),
    decreases k,
{
    T::group_laws();
    if k > 0 {
        lemma_scale_add_count::<T>(m, (k - 1) as nat, a);
        assert(scale_spec::<T>(m + k, a) == T::add_spec(scale_spec::<T>((m + k - 1) as nat, a), a));
    }
}

proof fn lemma_scale_add_elem<T: FenwickCompatible>(n: nat, a: T::E, b: T::E)
    ensures
        scale_spec::<T>(n, T::add_spec(a, b)) == T::add_spec(scale_spec::<T>(n, a), scale_spec::<T>(n, b)),
    decreases n,
{
    T::group_laws();
    if n > 0 {
        lemma_scale_add_elem::<T>((n - 1) as nat, a, b);
        let x = scale_spec::<T>((n - 1) as nat, a);
        let y = scale_spec::<T>((n - 1) as nat, b);
        assert(T::add_spec(T::add_spec(x, y), T::add_spec(a, b)) == T::add_spec(
            T::add_spec(x, a),
            T::add_spec(y, b),
        )) by {
            assert(T::add_spec(T::add_spec(x, y), T::add_spec(a, b)) == T::add_spec(
                x,
                T::add_spec(y, T::add_spec(a, b)),
            ));
            assert(T::add_spec(y, T::add_spec(a, b)) == T::add_spec(a, T::add_spec(y, b)));
        }
    }
}

proof fn lemma_scale_neg<T: FenwickCompatible>(n: nat, a: T::E)
    ensures
        scale_spec::<T>(n, T::neg_spec(a)) == T::neg_spec(scale_spec::<T>(n, a)),
{
    T::group_laws();
    lemma_scale_add_elem::<T>(n, a, T::neg_spec(a));
    lemma_scale_of_zero::<T>(n);
    lemma_neg_unique::<T>(scale_spec::<T>(n, a), scale_spec::<T>(n, T::neg_spec(a)));
}

proof fn lemma_scale_of_zero<T: FenwickCompatible>(n: nat)
    ensures
        scale_spec::<T>(n, T::zero_spec()) == T::zero_spec(),
    decreases n,
{
    T::group_laws();
    if n > 0 {
        lemma_scale_of_zero::<T>((n - 1) as nat);
    }
}

/// `a` added to itself `n` times, by doubling.
pub fn scale<T: FenwickCompatible>(n: usize, a: T::E) -> (r: T::E)
    ensures
        r == scale_spec::<T>(n as nat, a),
{
    let mut result = T::zero();
    let mut base = a;
    let mut m: usize = n;
    proof {
        T::group_laws();
    }
    while m > 0
        invariant
            T::add_spec(result, scale_spec::<T>(m as nat, base)) == scale_spec::<T>(n as nat, a),
        decreases m,
    {
        let half = m / 2;
        proof {
            T::group_laws();
            lemma_scale_add_count::<T>(half as nat, half as nat, base);
            lemma_scale_add_elem::<T>(half as nat, base, base);
            let d = scale_spec::<T>(half as nat, T::add_spec(base, base));
            if m % 2 == 1 {
                assert(scale_spec::<T>(m as nat, base) == T::add_spec(
                    scale_spec::<T>((m - 1) as nat, base),
                    base,
                ));
                assert((m - 1) as nat == half as nat + half as nat);
                assert(T::add_spec(result, T::add_spec(d, base)) == T::add_spec(
                    T::add_spec(result, base),
                    d,
                )) by {
                    assert(T::add_spec(d, base) == T::add_spec(base, d));
                }
            } else {
                assert(m as nat == half as nat + half as nat);
            }
        }
        if m % 2 == 1 {
            result = T::add(result, base);
        }
        base = T::add(base, base);
        m = half;
    }
    proof {
        T::group_laws();
    }
    result
}

/// `a` plus the inverse of `b`.
pub fn difference<T: FenwickCompatible>(a: T::E, b: T::E) -> (r: T::E)
    ensures
        r == T::add_spec(a, T::neg_spec(b)),
{
    let nb = T::neg(b);
    T::add(a, nb)
}


/// The values after `val` was added at every position of `[begin, end)`.
pub open spec fn add_on_range<T: FenwickCompatible>(
    s: Seq<T::E>,
    begin: int,
    end: int,
    val: T::E,
) -> Seq<T::E> {
    Seq::new(s.len(), |i: int| if begin <= i < end { T::add_spec(s[i], val) } else { s[i] })
}

/// Range-add and range-sum over a group, in logarithmic time.
pub struct FenwickTree<T: FenwickCompatible> {
    diff: PrimitiveFenwickTree<T>,
    offset: PrimitiveFenwickTree<T>,
    vals: Ghost<Seq<T::E>>,
}

impl<T: FenwickCompatible> View for FenwickTree<T> {
    type V = Seq<T::E>;

    /// The value at each position.
    closed spec fn view(&self) -> Seq<T::E> {
        self.vals@
    }
}

/// The encoding of the values' prefix sums in the two arrays.
spec fn prefix_encoded<T: FenwickCompatible>(
    vals: Seq<T::E>,
    diff: Seq<T::E>,
    offset: Seq<T::E>,
    p: int,
) -> bool {
    range_sum::<T>(vals, 0, p) == T::add_spec(
        scale_spec::<T>(p as nat, range_sum::<T>(diff, 0, p)),
        range_sum::<T>(offset, 0, p),
    )
}

impl<T: FenwickCompatible> FenwickTree<T> {
    pub closed spec fn wf(&self) -> bool {
        &&& self.diff.wf()
        &&& self.offset.wf()
        &&& self.diff.vals@.len() == self.vals@.len()
        &&& self.offset.vals@.len() == self.vals@.len()
        &&& forall|p: int|
            0 <= p <= self.vals@.len() ==> #[trigger] prefix_encoded::<T>(
                self.vals@,
                self.diff.vals@,
                self.offset.vals@,
                p,
            )
    }

    /// A structure of `size` positions, each holding zero.
    pub fn new(size: usize) -> (r: Self)
        requires
            size <= usize::MAX / 2,
        ensures
            r.wf(),
            r@ == Seq::new(size as nat, |i: int| T::zero_spec()),
    {
        let diff = PrimitiveFenwickTree::new(size);
        let offset = PrimitiveFenwickTree::new(size);
        let ghost vals = Seq::new(size as nat, |i: int| T::zero_spec());
        proof {
            T::group_laws();
            assert forall|p: int| 0 <= p <= vals.len() implies #[trigger] prefix_encoded::<T>(
                vals,
                diff.vals@,
                offset.vals@,
                p,
            ) by {
                lemma_range_sum_zero::<T>(vals, 0, p);
                lemma_range_sum_zero::<T>(diff.vals@, 0, p);
                lemma_range_sum_zero::<T>(offset.vals@, 0, p);
                lemma_scale_of_zero::<T>(p as nat);
            }
        }
        FenwickTree { diff, offset, vals: Ghost(vals) }
    }

    /// Adds `val` at every position of `[begin, end)`; an empty range changes nothing.
    pub fn add(&mut self, begin: usize, end: usize, val: T::E)
        requires
            old(self).wf(),
            end <= old(self)@.len(),
        ensures
            final(self).wf(),
            final(self)@ == add_on_range::<T>(old(self)@, begin as int, end as int, val),
    {
        if begin >= end {
            proof {
                assert(add_on_range::<T>(self.vals@, begin as int, end as int, val) =~= self.vals@);
            }
            return;
        }
        let ghost v0 = self.vals@;
        let ghost d0 = self.diff.vals@;
        let ghost o0 = self.offset.vals@;
        let nv = T::neg(val);
        self.diff.add(begin, val);
        self.diff.add(end, nv);
        let sb = scale::<T>(begin, nv);
        self.offset.add(begin, sb);
        let se = scale::<T>(end, val);
        self.offset.add(end, se);
        let ghost v1 = add_on_range::<T>(v0, begin as int, end as int, val);
        self.vals = Ghost(v1);
        proof {
            assert forall|p: int| 0 <= p <= v1.len() implies #[trigger] prefix_encoded::<T>(
                v1,
                self.diff.vals@,
                self.offset.vals@,
                p,
            ) by {
                assert(prefix_encoded::<T>(v0, d0, o0, p));
                lemma_add_preserves_encoding::<T>(v0, d0, o0, begin as int, end as int, val, p);
            }
        }
    }

    /// The group-sum of the values at `[begin, end)`; zero for an empty range.
    pub fn sum(&self, begin: usize, end: usize) -> (r: T::E)
        requires
            self.wf(),
            end <= self@.len(),
        ensures
            r == range_sum::<T>(self@, begin as int, end as int),
    {
        if begin >= end {
            return T::zero();
        }
        if begin == 0 {
            self.sum_until(end)
        } else {
            let whole = self.sum_until(end);
            let head = self.sum_until(begin);
            proof {
                T::group_laws();
                lemma_range_sum_split::<T>(self.vals@, 0, begin as int, end as int);
                let h = range_sum::<T>(self.vals@, 0, begin as int);
                let m = range_sum::<T>(self.vals@, begin as int, end as int);
                assert(T::add_spec(T::add_spec(h, m), T::neg_spec(h)) == m) by {
                    assert(T::add_spec(h, m) == T::add_spec(m, h));
                    assert(T::add_spec(T::add_spec(m, h), T::neg_spec(h)) == T::add_spec(
                        m,
                        T::add_spec(h, T::neg_spec(h)),
                    ));
                }
            }
            difference::<T>(whole, head)
        }
    }

    /// The group-sum of the values at `[0, end)`.
    fn sum_until(&self, end: usize) -> (r: T::E)
        requires
            self.wf(),
            0 < end <= self@.len(),
        ensures
            r == range_sum::<T>(self@, 0, end as int),
    {
        let d = self.diff.sum(end - 1);
        let o = self.offset.sum(end - 1);
        let s = scale::<T>(end, d);
        proof {
            assert(prefix_encoded::<T>(self.vals@, self.diff.vals@, self.offset.vals@, end as int));
        }
        T::add(s, o)
    }
}

/// The sum of a prefix after a range-add: what was there, plus `val` once for
/// each position of the range inside the prefix.
proof fn lemma_range_sum_add_on_range<T: FenwickCompatible>(
    s: Seq<T::E>,
    begin: int,
    end: int,
    val: T::E,
    p: int,
)
    requires
        0 <= begin < end <= s.len(),
        0 <= p <= s.len(),
    ensures
        range_sum::<T>(add_on_range::<T>(s, begin, end, val), 0, p) == T::add_spec(
            range_sum::<T>(s, 0, p),
            scale_spec::<T>(
                (if p <= begin {
                    0
                } else if p <= end {
                    p - begin
                } else {
                    end - begin
                }) as nat,
                val,
            ),
        ),
    decreases p,
{
    T::group_laws();
    let t = add_on_range::<T>(s, begin, end, val);
    if p > 0 {
        lemma_range_sum_add_on_range::<T>(s, begin, end, val, p - 1);
        let a = range_sum::<T>(s, 0, p - 1);
        let c = if p - 1 <= begin {
            0
        } else if p - 1 <= end {
            p - 1 - begin
        } else {
            end - begin
        };
        let k = scale_spec::<T>(c as nat, val);
        if begin <= p - 1 < end {
            assert(scale_spec::<T>((c + 1) as nat, val) == T::add_spec(k, val));
            assert(T::add_spec(T::add_spec(a, k), T::add_spec(s[p - 1], val)) == T::add_spec(
                T::add_spec(a, s[p - 1]),
                T::add_spec(k, val),
            )) by {
                assert(T::add_spec(T::add_spec(a, k), T::add_spec(s[p - 1], val)) == T::add_spec(
                    a,
                    T::add_spec(k, T::add_spec(s[p - 1], val)),
                ));
                assert(T::add_spec(k, T::add_spec(s[p - 1], val)) == T::add_spec(
                    s[p - 1],
                    T::add_spec(k, val),
                )) by {
                    assert(T::add_spec(k, T::add_spec(s[p - 1], val)) == T::add_spec(
                        T::add_spec(k, s[p - 1]),
                        val,
                    ));
                    assert(T::add_spec(k, s[p - 1]) == T::add_spec(s[p - 1], k));
                }
            }
        } else {
            assert(T::add_spec(T::add_spec(a, k), s[p - 1]) == T::add_spec(
                T::add_spec(a, s[p - 1]),
                k,
            )) by {
                assert(T::add_spec(T::add_spec(a, k), s[p - 1]) == T::add_spec(
                    a,
                    T::add_spec(k, s[p - 1]),
                ));
                assert(T::add_spec(k, s[p - 1]) == T::add_spec(s[p - 1], k));
            }
        }
    }
}

proof fn lemma_add_preserves_encoding<T: FenwickCompatible>(
    vals: Seq<T::E>,
    diff: Seq<T::E>,
    offset: Seq<T::E>,
    begin: int,
    end: int,
    val: T::E,
    p: int,
)
    requires
        0 <= begin < end <= vals.len(),
        diff.len() == vals.len(),
        offset.len() == vals.len(),
        0 <= p <= vals.len(),
        prefix_encoded::<T>(vals, diff, offset, p),
    ensures
        ({
            let n = vals.len() as int;
            let d1 = diff.update(begin, T::add_spec(diff[begin], val));
            let d2 = if end < n {
                d1.update(end, T::add_spec(d1[end], T::neg_spec(val)))
            } else {
                d1
            };
            let o1 = offset.update(
                begin,
                T::add_spec(offset[begin], scale_spec::<T>(begin as nat, T::neg_spec(val))),
            );
            let o2 = if end < n {
                o1.update(end, T::add_spec(o1[end], scale_spec::<T>(end as nat, val)))
            } else {
                o1
            };
            prefix_encoded::<T>(add_on_range::<T>(vals, begin, end, val), d2, o2, p)
        }),
{
    let n = vals.len() as int;
    let d1 = diff.update(begin, T::add_spec(diff[begin], val));
    let d2 = if end < n {
        d1.update(end, T::add_spec(d1[end], T::neg_spec(val)))
    } else {
        d1
    };
    let sb = scale_spec::<T>(begin as nat, T::neg_spec(val));
    let o1 = offset.update(begin, T::add_spec(offset[begin], sb));
    let o2 = if end < n {
        o1.update(end, T::add_spec(o1[end], scale_spec::<T>(end as nat, val)))
    } else {
        o1
    };
    lemma_range_sum_point::<T>(diff, begin, val, 0, p);
    lemma_range_sum_point::<T>(offset, begin, sb, 0, p);
    if end < n {
        lemma_range_sum_point::<T>(d1, end, T::neg_spec(val), 0, p);
        lemma_range_sum_point::<T>(o1, end, scale_spec::<T>(end as nat, val), 0, p);
    }
    lemma_range_sum_add_on_range::<T>(vals, begin, end, val, p);
    let rd = range_sum::<T>(diff, 0, p);
    let ro = range_sum::<T>(offset, 0, p);
    let sp = scale_spec::<T>(p as nat, rd);
    let s_b = scale_spec::<T>(begin as nat, val);
    lemma_scale_neg::<T>(begin as nat, val);
    if p <= begin {
        assert(scale_spec::<T>(0, val) == T::zero_spec());
        lemma_laws_at::<T>(range_sum::<T>(vals, 0, p), val, val);
    } else if p <= end {
        let s_pb = scale_spec::<T>((p - begin) as nat, val);
        lemma_scale_add_elem::<T>(p as nat, rd, val);
        lemma_scale_add_count::<T>((p - begin) as nat, begin as nat, val);
        assert(((p - begin) + begin) as nat == p as nat);
        lemma_rearrange_inner::<T>(sp, ro, s_pb, s_b);
    } else {
        let s_eb = scale_spec::<T>((end - begin) as nat, val);
        lemma_scale_add_count::<T>((end - begin) as nat, begin as nat, val);
        assert(((end - begin) + begin) as nat == end as nat);
        lemma_laws_at::<T>(rd, val, T::neg_spec(val));
        lemma_laws_at::<T>(val, val, val);
        lemma_laws_at::<T>(rd, T::zero_spec(), val);
        lemma_rearrange_outer::<T>(sp, ro, s_eb, s_b);
    }
}

proof fn lemma_laws_at<T: FenwickCompatible>(a: T::E, b: T::E, c: T::E)
    ensures
        T::add_spec(T::add_spec(a, b), c) == T::add_spec(a, T::add_spec(b, c)),
        T::add_spec(a, b) == T::add_spec(b, a),
        T::add_spec(a, T::zero_spec()) == a,
        T::add_spec(a, T::neg_spec(a)) == T::zero_spec(),
{
    T::group_laws();
}

proof fn lemma_rearrange_inner<T: FenwickCompatible>(x: T::E, w: T::E, y: T::E, z: T::E)
    ensures
        T::add_spec(T::add_spec(x, T::add_spec(y, z)), T::add_spec(w, T::neg_spec(z)))
            == T::add_spec(T::add_spec(x, w), y),
{
    let nz = T::neg_spec(z);
    lemma_laws_at::<T>(x, T::add_spec(y, z), T::add_spec(w, nz));
    lemma_laws_at::<T>(y, z, T::add_spec(w, nz));
    lemma_laws_at::<T>(z, w, nz);
    lemma_laws_at::<T>(w, z, nz);
    lemma_laws_at::<T>(y, w, y);
    lemma_laws_at::<T>(x, w, y);
}

proof fn lemma_rearrange_outer<T: FenwickCompatible>(x: T::E, w: T::E, y: T::E, z: T::E)
    ensures
        T::add_spec(x, T::add_spec(T::add_spec(w, T::neg_spec(z)), T::add_spec(y, z)))
            == T::add_spec(T::add_spec(x, w), y),
{
    let nz = T::neg_spec(z);
    lemma_laws_at::<T>(w, nz, T::add_spec(y, z));
    lemma_laws_at::<T>(nz, y, z);
    lemma_laws_at::<T>(y, nz, z);
    lemma_laws_at::<T>(nz, z, z);
    lemma_laws_at::<T>(z, z, z);
    lemma_laws_at::<T>(x, w, y);
}


/// Splitting a range at any point inside it splits its sum: the sum over
/// `[begin, end)` is the sum over `[begin, mid)` plus the sum over `[mid, end)`.
pub proof fn lemma_sum_additive<T: FenwickCompatible>(
    t: &FenwickTree<T>,
    begin: int,
    mid: int,
    end: int,
)
    requires
        t.wf(),
        0 <= begin <= mid <= end <= t@.len(),
    ensures
        range_sum::<T>(t@, begin, end) == T::add_spec(
            range_sum::<T>(t@, begin, mid),
            range_sum::<T>(t@, mid, end),
        ),
{
    lemma_range_sum_split::<T>(t@, begin, mid, end);
}

/// Adding over an empty range (`begin >= end`) leaves every value as it was,
/// so every later sum is unchanged.
pub proof fn lemma_empty_add_is_noop<T: FenwickCompatible>(
    s: Seq<T::E>,
    begin: int,
    end: int,
    val: T::E,
)
    requires
        begin >= end,
    ensures
        add_on_range::<T>(s, begin, end, val) == s,
{
    assert(add_on_range::<T>(s, begin, end, val) =~= s);
}

} // verus!
