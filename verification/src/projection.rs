//! Rational projection directions, kept in lowest terms, and the bins they
//! own.

use crate::element::{zero_vec, Element};
use crate::geometry::p_abs;
use vstd::arithmetic::div_mod::{
    lemma_add_mod_noop, lemma_div_multiples_vanish, lemma_div_nonincreasing,
    lemma_fundamental_div_mod, lemma_fundamental_div_mod_converse, lemma_mod_self_0,
    lemma_mul_mod_noop_left, lemma_small_mod,
};
use vstd::prelude::*;

verus! {

/// Greatest common divisor, by the Euclidean algorithm.
pub open spec fn gcd_nat(a: nat, b: nat) -> nat
    decreases b,
{
    if b == 0 {
        a
    } else {
        gcd_nat(b, a % b)
    }
}

/// The gcd of two naturals, not both zero, is positive.
pub proof fn lemma_gcd_pos(a: nat, b: nat)
    requires
        a > 0 || b > 0,
    ensures
        gcd_nat(a, b) > 0,
    decreases b,
{
    if b != 0 {
        lemma_gcd_pos(b, a % b);
    }
}

/// The gcd divides both of its arguments.
pub proof fn lemma_gcd_divides(a: nat, b: nat)
    requires
        a > 0 || b > 0,
    ensures
        gcd_nat(a, b) > 0,
        a % gcd_nat(a, b) == 0,
        b % gcd_nat(a, b) == 0,
    decreases b,
{
    lemma_gcd_pos(a, b);
    let g = gcd_nat(a, b);
    if b == 0 {
        lemma_mod_self_0(a as int);
        lemma_small_mod(0, g);
    } else {
        lemma_gcd_divides(b, a % b);
        let m = a as int / b as int;
        let r0 = a as int % b as int;
        lemma_fundamental_div_mod(a as int, b as int);
        assert(a as int == (b as int) * m + r0);
        lemma_mul_mod_noop_left(b as int, m, g as int);
        assert((b as int % g as int) * m % (g as int) == (b as int) * m % (g as int));
        assert((0int * m) == 0) by (nonlinear_arith);
        lemma_small_mod(0, g);
        lemma_add_mod_noop((b as int) * m, r0, g as int);
        assert((a as int) % (g as int) == ((0int + 0int) % (g as int)));
    }
}

/// The gcd scales with a common factor: `gcd(k*a, k*b) == k * gcd(a, b)`.
pub proof fn lemma_gcd_scale(k: nat, a: nat, b: nat)
    requires
        k > 0,
    ensures
        gcd_nat(k * a, k * b) == k * gcd_nat(a, b),
    decreases b,
{
    if b == 0 {
        assert(k * b == 0) by (nonlinear_arith)
            requires
                b == 0,
        ;
    } else {
        let m = a as int / b as int;
        let r0 = a % b;
        lemma_fundamental_div_mod(a as int, b as int);
        assert(0 <= m) by {
            vstd::arithmetic::div_mod::lemma_div_pos_is_pos(a as int, b as int);
        }
        assert(k * a == m * (k * b) + k * r0) by (nonlinear_arith)
            requires
                a == b * m + r0,
        ;
        assert(k * r0 < k * b) by (nonlinear_arith)
            requires
                r0 < b,
                k > 0,
        ;
        assert(k * b > 0) by (nonlinear_arith)
            requires
                k > 0,
                b > 0,
        ;
        lemma_fundamental_div_mod_converse(
            (k * a) as int,
            (k * b) as int,
            m,
            (k * r0) as int,
        );
        assert((k * a) % (k * b) == k * r0);
        lemma_gcd_scale(k, b, r0);
    }
}

/// Dividing two naturals, not both zero, by their gcd leaves a coprime
/// pair; the divisions are exact.
pub proof fn lemma_gcd_reduce(a: nat, b: nat)
    requires
        a > 0 || b > 0,
    ensures
        ({
            let g = gcd_nat(a, b);
            &&& g > 0
            &&& a % g == 0
            &&& b % g == 0
            &&& g * (a / g) == a
            &&& g * (b / g) == b
            &&& b > 0 ==> 1 <= b / g
            &&& b / g <= b
            &&& a / g <= a
            &&& gcd_nat(a / g, b / g) == 1
        }),
{
    lemma_gcd_divides(a, b);
    let g = gcd_nat(a, b);
    lemma_fundamental_div_mod(a as int, g as int);
    lemma_fundamental_div_mod(b as int, g as int);
    assert(g * (a / g) == a);
    assert(g * (b / g) == b);
    lemma_div_nonincreasing(a as int, g as int);
    lemma_div_nonincreasing(b as int, g as int);
    if b > 0 {
        assert(b / g >= 1) by {
            if b / g == 0 {
                assert(g * (b / g) == 0) by (nonlinear_arith)
                    requires
                        b / g == 0,
                ;
            }
        }
    }
    lemma_gcd_scale(g, a / g, b / g);
    assert(g * gcd_nat(a / g, b / g) == g);
    assert(gcd_nat(a / g, b / g) == 1) by (nonlinear_arith)
        requires
            g > 0,
            g * gcd_nat(a / g, b / g) == g,
    ;
}

/// The gcd a direction `(p, q)` is reduced by.
pub open spec fn direction_gcd(p: int, q: int) -> int {
    gcd_nat(p_abs(p) as nat, q as nat) as int
}

/// Numerator of `(p, q)` in lowest terms.
pub open spec fn reduced_p(p: int, q: int) -> int {
    p / direction_gcd(p, q)
}

/// Denominator of `(p, q)` in lowest terms.
pub open spec fn reduced_q(p: int, q: int) -> int {
    q / direction_gcd(p, q)
}

/// Reduction is idempotent: a pair already in lowest terms reduces to
/// itself, so setting a reduced direction's numerator or denominator to its
/// current value changes nothing.
pub proof fn lemma_reduce_idempotent(p: int, q: int)
    requires
        0 <= q,
        gcd_nat(p_abs(p) as nat, q as nat) == 1,
    ensures
        reduced_p(p, q) == p,
        reduced_q(p, q) == q,
{
    assert(direction_gcd(p, q) == 1);
    lemma_div_multiples_vanish(p, 1);
    lemma_div_multiples_vanish(q, 1);
    assert(1int * p == p) by (nonlinear_arith);
    assert(1int * q == q) by (nonlinear_arith);
}

fn gcd(a: u32, b: u32) -> (g: u32)
    ensures
        g == gcd_nat(a as nat, b as nat),
    decreases b,
{
    if b == 0 {
        a
    } else {
        gcd(b, a % b)
    }
}

/// A projection direction in lowest terms together with its ordered bin
/// values.  The direction invariant `wf` is established by `new` and kept by
/// `set_p` and `set_q`; the bins are replaced wholesale by the direct
/// transform and mutated bin by bin during reconstruction.
pub struct Projection<T> {
    p: i16,
    q: u16,
    bins: Vec<T>,
}

/// An ordered collection of projections sharing one support.
pub type Transform<T> = Vec<Projection<T>>;

impl<T> Projection<T> {
    /// The stored numerator.
    pub closed spec fn p_spec(&self) -> int {
        self.p as int
    }

    /// The stored denominator.
    pub closed spec fn q_spec(&self) -> int {
        self.q as int
    }

    /// The ordered bin values.
    pub closed spec fn bins_spec(&self) -> Seq<T> {
        self.bins@
    }

    /// Direction invariant: the fraction is in lowest terms.  This rules
    /// out the pair (0, 0) and forces the numerator to +1 or -1 whenever the
    /// denominator is zero (the row-sum direction).
    pub open spec fn wf(&self) -> bool {
        &&& 0 <= self.q_spec() <= u16::MAX
        &&& i16::MIN <= self.p_spec() <= i16::MAX
        &&& gcd_nat(p_abs(self.p_spec()) as nat, self.q_spec() as nat) == 1
    }

    /// The stored direction components always fit their machine widths.
    pub proof fn lemma_field_bounds(&self)
        ensures
            i16::MIN <= self.p_spec() <= i16::MAX,
            0 <= self.q_spec() <= u16::MAX,
    {
    }

    /// The bin values, for reading.
    pub fn bins(&self) -> (r: &Vec<T>)
        ensures
            r@ == self.bins_spec(),
    {
        &self.bins
    }

    /// Replace the bin values wholesale; the direction is untouched.
    pub fn set_bins(&mut self, bins: Vec<T>)
        ensures
            final(self).bins_spec() == bins@,
            final(self).p_spec() == old(self).p_spec(),
            final(self).q_spec() == old(self).q_spec(),
            final(self).wf() == old(self).wf(),
    {
        self.bins = bins;
    }

    /// Overwrite one bin in place; the direction is untouched.
    pub fn set_bin(&mut self, i: usize, value: T)
        requires
            i < old(self).bins_spec().len(),
        ensures
            final(self).bins_spec() == old(self).bins_spec().update(i as int, value),
            final(self).p_spec() == old(self).p_spec(),
            final(self).q_spec() == old(self).q_spec(),
            final(self).wf() == old(self).wf(),
    {
        self.bins[i] = value;
    }
}

impl<T: Element> Projection<T> {
    fn reduce(&mut self)
        requires
            old(self).p != 0 || 1 <= old(self).q,
        ensures
            final(self).p == reduced_p(old(self).p_spec(), old(self).q_spec()),
            final(self).q == reduced_q(old(self).p_spec(), old(self).q_spec()),
            final(self).bins@ == old(self).bins@,
            final(self).wf(),
    {
        let ghost p0: int = self.p as int;
        let ghost q0: int = self.q as int;
        proof {
            lemma_gcd_reduce(p_abs(p0) as nat, q0 as nat);
        }
        let pa: u32 = if self.p < 0 {
            (-(self.p as i32)) as u32
        } else {
            self.p as u32
        };
        assert(pa == p_abs(p0));
        let g: u32 = gcd(pa, self.q as u32);
        let par: u32 = pa / g;
        let qr: u32 = (self.q as u32) / g;
        proof {
            if p0 < 0 {
                assert(p0 == (g as int) * (-(par as int))) by (nonlinear_arith)
                    requires
                        p0 == -(pa as int),
                        (g as int) * (par as int) == pa as int,
                ;
                lemma_div_multiples_vanish(-(par as int), g as int);
            } else {
                assert(par == reduced_p(p0, q0));
            }
        }
        self.p = if self.p < 0 {
            (-(par as i32)) as i16
        } else {
            par as i16
        };
        self.q = qr as u16;
        assert(p_abs(self.p as int) == par as int);
    }

    /// A projection with the reduced form of direction `(p, q)` and `size`
    /// neutral bins.  The pair (0, 0) has no reduced form (the gcd is not
    /// defined on it) and is refused.
    pub fn new(p: i16, q: u16, size: usize) -> (r: Projection<T>)
        requires
            p != 0 || q != 0,
        ensures
            r.wf(),
            r.p_spec() == reduced_p(p as int, q as int),
            r.q_spec() == reduced_q(p as int, q as int),
            r.bins_spec().len() == size,
            forall|i: int| 0 <= i < size ==> r.bins_spec()[i] == T::zero_spec(),
    {
        let mut proj = Projection { p, q, bins: zero_vec::<T>(size) };
        proj.reduce();
        proj
    }

    /// The direction numerator (may be negative or zero).
    pub fn p(&self) -> (r: i16)
        ensures
            r == self.p_spec(),
    {
        self.p
    }

    /// The direction denominator.
    pub fn q(&self) -> (r: u16)
        ensures
            r == self.q_spec(),
    {
        self.q
    }

    /// Replace the numerator; the direction is reduced again at once.
    pub fn set_p(&mut self, p: i16)
        requires
            old(self).wf(),
            p != 0 || 1 <= old(self).q_spec(),
        ensures
            final(self).wf(),
            final(self).p_spec() == reduced_p(p as int, old(self).q_spec()),
            final(self).q_spec() == reduced_q(p as int, old(self).q_spec()),
            final(self).bins_spec() == old(self).bins_spec(),
    {
        self.p = p;
        self.reduce();
    }

    /// Replace the denominator; the direction is reduced again at once.
    pub fn set_q(&mut self, q: u16)
        requires
            old(self).wf(),
            q != 0 || old(self).p_spec() != 0,
        ensures
            final(self).wf(),
            final(self).p_spec() == reduced_p(old(self).p_spec(), q as int),
            final(self).q_spec() == reduced_q(old(self).p_spec(), q as int),
            final(self).bins_spec() == old(self).bins_spec(),
    {
        self.q = q;
        self.reduce();
    }
}

impl<T: Element> Default for Projection<T> {
    /// The neutral direction `(0, 1)` with no bins.
    fn default() -> (r: Self)
        ensures
            r.wf(),
            r.p_spec() == 0,
            r.q_spec() == 1,
            r.bins_spec().len() == 0,
    {
        proof {
            reveal_with_fuel(gcd_nat, 3);
        }
        Projection { p: 0, q: 1, bins: Vec::new() }
    }
}

impl<T: Element> Clone for Projection<T> {
    /// An independent copy with the same direction and the same bins.
    fn clone(&self) -> (r: Self)
        ensures
            r.p_spec() == self.p_spec(),
            r.q_spec() == self.q_spec(),
            r.bins_spec() == self.bins_spec(),
            r.wf() == self.wf(),
    {
        let mut bins: Vec<T> = Vec::new();
        let mut i: usize = 0;
        while i < self.bins.len()
            invariant
                i <= self.bins@.len(),
                bins@.len() == i,
                forall|j: int| 0 <= j < i ==> bins@[j] == self.bins@[j],
            decreases self.bins@.len() - i,
        {
            bins.push(self.bins[i]);
            i += 1;
        }
        assert(bins@ =~= self.bins@);
        Projection { p: self.p, q: self.q, bins }
    }
}

} // verus!
