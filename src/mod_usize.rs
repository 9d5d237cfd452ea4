use crate::mod_nat::lemma_square_step;
use vstd::arithmetic::div_mod::{lemma_mul_mod_noop_left, lemma_small_mod};
use vstd::arithmetic::power::{lemma_pow0, pow};
use vstd::prelude::*;

verus! {

/// An integer modulo `N`.
#[derive(Clone, Copy)]
pub struct Mod<const N: usize> {
    pub value: usize,
}

impl<const N: usize> Mod<N> {
    /// `value` reduced modulo `N`.
    pub fn new(value: usize) -> (r: Self)
        requires
            N > 0,
        ensures
            r.value == value % N,
    {
        Mod { value: value % N }
    }

    /// `self` raised to the power `nth`, modulo `N`.
    pub fn pow(self, nth: usize) -> (r: Self)
        requires
            N > 0,
        ensures
            r.value == pow(self.value as int, nth as nat) % (N as int),
    {
        let mut result = Self::new(1);
        let mut base = self;
        let mut m: usize = nth;
        proof {
            lemma_mul_mod_noop_left(1, pow(self.value as int, nth as nat), N as int);
            assert(1 * pow(self.value as int, nth as nat) == pow(self.value as int, nth as nat));
        }
        while m > 0
            invariant
                N > 0,
                result.value < N,
                (result.value as int) * pow(base.value as int, m as nat) % (N as int) == pow(
                    self.value as int,
                    nth as nat,
                ) % (N as int),
            decreases m,
        {
            proof {
                lemma_square_step(result.value as int, base.value as int, m as nat, N as int);
            }
            if m % 2 == 1 {
                result = result.times(base);
            }
            base = base.times(base);
            m = m / 2;
        }
        proof {
            lemma_pow0(base.value as int);
            lemma_small_mod(result.value as nat, N as nat);
        }
        result
    }

    /// The product of `self` and `rhs`, modulo `N`.
    fn times(self, rhs: Self) -> (r: Self)
        requires
            N > 0,
        ensures
            r.value == (self.value as int * rhs.value as int) % (N as int),
            r.value < N,
    {
        let a = self.value as u128;
        let b = rhs.value as u128;
        assert(a * b <= 0xffff_ffff_ffff_ffffu128 * 0xffff_ffff_ffff_ffffu128) by (nonlinear_arith)
            requires
                a <= 0xffff_ffff_ffff_ffffu128,
                b <= 0xffff_ffff_ffff_ffffu128,
        ;
        let p = a * b;
        let q = p % (N as u128);
        Mod { value: q as usize }
    }
}


impl<const N: usize> std::ops::Add for Mod<N> {
    type Output = Mod<N>;

    /// The sum modulo `N`.
    fn add(self, rhs: Self) -> (r: Self::Output) {
        let s = (self.value as u128) + (rhs.value as u128);
        Mod { value: (s % (N as u128)) as usize }
    }
}

impl<const N: usize> vstd::std_specs::ops::AddSpecImpl for Mod<N> {
    open spec fn obeys_add_spec() -> bool {
        true
    }

    open spec fn add_req(self, rhs: Self) -> bool {
        N > 0
    }

    open spec fn add_spec(self, rhs: Self) -> Self {
        Mod { value: ((self.value + rhs.value) % (N as int)) as usize }
    }
}

impl<const N: usize> std::ops::Mul for Mod<N> {
    type Output = Mod<N>;

    /// The product modulo `N`.
    fn mul(self, rhs: Self) -> (r: Self::Output) {
        self.times(rhs)
    }
}

impl<const N: usize> vstd::std_specs::ops::MulSpecImpl for Mod<N> {
    open spec fn obeys_mul_spec() -> bool {
        true
    }

    open spec fn mul_req(self, rhs: Self) -> bool {
        N > 0
    }

    open spec fn mul_spec(self, rhs: Self) -> Self {
        Mod { value: ((self.value * rhs.value) % (N as int)) as usize }
    }
}

/// `Mod<0>` has no residues to reduce into: there the compound assignments
/// leave `self` as it is.
impl<const N: usize> std::ops::AddAssign for Mod<N> {
    fn add_assign(&mut self, rhs: Self)
        ensures
            N > 0 ==> final(self).value == (old(self).value + rhs.value) % (N as int),
            N == 0 ==> *final(self) == *old(self),
    {
        if N > 0 {
            *self = *self + rhs;
        }
    }
}

impl<const N: usize> std::ops::MulAssign for Mod<N> {
    fn mul_assign(&mut self, rhs: Self)
        ensures
            N > 0 ==> final(self).value == (old(self).value * rhs.value) % (N as int),
            N == 0 ==> *final(self) == *old(self),
    {
        if N > 0 {
            *self = *self * rhs;
        }
    }
}

} // verus!
