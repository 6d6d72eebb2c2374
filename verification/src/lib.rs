//! Discrete Mojette transform: projection of a grid onto rational-direction
//! bin sequences and exact greedy reconstruction from them.
//!
//! A populated [`support::Support`] grid is projected along a set of reduced
//! rational directions ([`projection::Projection`]) into one bin sequence per
//! direction ([`mt::direct`], [`additive::direct`]); the grid is recovered
//! exactly from complete-enough bin sequences by greedy unique-contributor
//! decoding ([`mt::inverse`], [`additive::inverse`]).  [`katz_criterion`]
//! gives the classical sufficient condition for exact reconstruction, and the
//! Farey utilities below help pick well-spread direction sets.

pub mod additive;
pub mod decode;
pub mod element;
pub mod geometry;
pub mod mt;
pub mod projection;
pub mod support;

use crate::element::Element;
use crate::geometry::p_abs;
use crate::projection::{Projection, Transform};
use crate::support::Support;
use vstd::prelude::*;

verus! {

/// Sum of the numerator magnitudes of the first `n` projections.
pub open spec fn sum_abs_p<T>(projs: Seq<Projection<T>>, n: nat) -> int
    decreases n,
{
    if n == 0 {
        0
    } else {
        sum_abs_p(projs, (n - 1) as nat) + p_abs(projs[n - 1].p_spec())
    }
}

/// Sum of the denominators of the first `n` projections.
pub open spec fn sum_q<T>(projs: Seq<Projection<T>>, n: nat) -> int
    decreases n,
{
    if n == 0 {
        0
    } else {
        sum_q(projs, (n - 1) as nat) + projs[n - 1].q_spec()
    }
}

/// Both direction sums grow with the number of projections taken.
proof fn lemma_direction_sums_mono<T>(projs: Seq<Projection<T>>, m: nat, n: nat)
    requires
        m <= n <= projs.len(),
    ensures
        sum_abs_p(projs, m) <= sum_abs_p(projs, n),
        sum_q(projs, m) <= sum_q(projs, n),
    decreases n,
{
    if m < n {
        lemma_direction_sums_mono(projs, m, (n - 1) as nat);
        projs[n - 1].lemma_field_bounds();
    }
}

/// The Katz sufficient condition for exact reconstruction: the directions'
/// numerator magnitudes cover the width, or their denominators cover the
/// height.  A `false` result does not say reconstruction is impossible, only
/// that this criterion does not guarantee it.
pub fn katz_criterion<T: Element, S: Support<T>>(projections: &Transform<T>, support: &S) -> (r:
    bool)
    requires
        support.wf(),
        sum_abs_p(projections@, projections@.len()) <= usize::MAX,
        sum_q(projections@, projections@.len()) <= usize::MAX,
    ensures
        r == (sum_abs_p(projections@, projections@.len()) >= support.spec_width() || sum_q(
            projections@,
            projections@.len(),
        ) >= support.spec_height()),
{
    let ghost total: nat = projections@.len();
    let mut sp: usize = 0;
    let mut sq: usize = 0;
    let mut n: usize = 0;
    while n < projections.len()
        invariant
            n <= total,
            total == projections@.len(),
            sp == sum_abs_p(projections@, n as nat),
            sq == sum_q(projections@, n as nat),
            sum_abs_p(projections@, total) <= usize::MAX,
            sum_q(projections@, total) <= usize::MAX,
        decreases total - n,
    {
        let pr = &projections[n];
        let pv: i16 = pr.p();
        let pa: usize = if pv < 0 {
            (-(pv as i32)) as usize
        } else {
            pv as usize
        };
        proof {
            lemma_direction_sums_mono(projections@, (n + 1) as nat, total);
            projections@[n as int].lemma_field_bounds();
        }
        sp = sp + pa;
        sq = sq + pr.q() as usize;
        n = n + 1;
    }
    if sp >= support.width() || sq >= support.height() {
        true
    } else {
        false
    }
}

/// Heuristic count of the reduced directions a compact Farey angle set
/// offers at order `n`: the empirical density estimate `0.304 n^2`, plus one
/// half and floored.  It is evaluated here in exact rational arithmetic as
/// `(304 n^2 + 500) / 1000`; it is an estimate, not an exact combinatorial
/// count.
pub fn total_farey_angles(n: usize) -> (r: usize)
    requires
        304 * (n * n) + 500 <= usize::MAX,
    ensures
        r == (304 * (n as int * n as int) + 500) / 1000,
{
    let nn: usize = n * n;
    (304 * nn + 500) / 1000
}

/// Numerator of the mediant-style step `t * p2 - p1` with
/// `t = (q1 + p1 + n) / q2`, brought over the common denominator `q2`.
pub open spec fn farey_step_num(n: int, p1: int, q1: int, p2: int, q2: int) -> int {
    (q1 + p1 + n) * p2 - p1 * q2
}

/// The direction that follows two consecutive directions `angle1`, `angle2`
/// in a compact Farey enumeration of order `n`, by the mediant-style step
/// `floor(t * p2 - p1), floor(t * q2 - q1)` with `t = (q1 + p1 + n) / q2`.
/// The step is evaluated in exact rational arithmetic (multiply, then
/// floor); the enumeration itself is a heuristic, not an exact Farey
/// sequence.
pub fn next_farey_angle_compact(n: usize, angle1: (i16, u16), angle2: (i16, u16)) -> (r: (
    i16,
    u16,
))
    requires
        angle2.1 >= 1,
        i16::MIN <= farey_step_num(
            n as int,
            angle1.0 as int,
            angle1.1 as int,
            angle2.0 as int,
            angle2.1 as int,
        ) / (angle2.1 as int) <= i16::MAX,
        0 <= angle1.0 + n <= u16::MAX,
    ensures
        r.0 == farey_step_num(
            n as int,
            angle1.0 as int,
            angle1.1 as int,
            angle2.0 as int,
            angle2.1 as int,
        ) / (angle2.1 as int),
        r.1 == angle1.0 + n,
{
    let p1 = angle1.0;
    let q1 = angle1.1;
    let p2 = angle2.0;
    let q2 = angle2.1;
    let s: i128 = q1 as i128 + p1 as i128 + n as i128;
    proof {
        assert(-700000000000000000000000 <= s * (p2 as int) <= 700000000000000000000000)
            by (nonlinear_arith)
            requires
                -40000 <= s <= 20000000000000000000,
                -32768 <= p2 <= 32767,
        ;
        assert(-3000000000 <= (p1 as int) * (q2 as int) <= 3000000000) by (nonlinear_arith)
            requires
                -32768 <= p1 <= 32767,
                0 <= q2 <= 65535,
        ;
    }
    let num: i128 = s * (p2 as i128) - (p1 as i128) * (q2 as i128);
    let t: i128 = div_floor(num, q2 as i128);
    let r1: u16 = (p1 as i128 + n as i128) as u16;
    (t as i16, r1)
}

/// Floor division for a positive divisor: rounds toward negative infinity,
/// agreeing with mathematical integer division.
fn div_floor(num: i128, den: i128) -> (r: i128)
    requires
        1 <= den <= 0x10000,
        -0x10000000000000000000000000 <= num <= 0x10000000000000000000000000,
    ensures
        r == num as int / den as int,
{
    if num >= 0 {
        proof {
            vstd::arithmetic::div_mod::lemma_div_nonincreasing(num as int, den as int);
            vstd::arithmetic::div_mod::lemma_div_pos_is_pos(num as int, den as int);
        }
        ((num as u128) / (den as u128)) as i128
    } else {
        let m: u128 = (-num) as u128;
        let d: u128 = den as u128;
        let q0: u128 = m / d;
        let r0: u128 = m % d;
        proof {
            vstd::arithmetic::div_mod::lemma_fundamental_div_mod(m as int, d as int);
            vstd::arithmetic::div_mod::lemma_div_nonincreasing(m as int, d as int);
        }
        if r0 == 0 {
            proof {
                assert(num as int == (den as int) * (-(q0 as int))) by (nonlinear_arith)
                    requires
                        num == -(m as int),
                        m as int == (d as int) * (q0 as int),
                        den == d,
                ;
                vstd::arithmetic::div_mod::lemma_div_multiples_vanish(
                    -(q0 as int),
                    den as int,
                );
            }
            -(q0 as i128)
        } else {
            proof {
                assert(num as int == (-(q0 as int) - 1) * (den as int) + ((den as int) - (
                r0 as int))) by (nonlinear_arith)
                    requires
                        num == -(m as int),
                        m as int == (d as int) * (q0 as int) + (r0 as int),
                        den == d,
                ;
                vstd::arithmetic::div_mod::lemma_fundamental_div_mod_converse(
                    num as int,
                    den as int,
                    -(q0 as int) - 1,
                    (den as int) - (r0 as int),
                );
            }
            -(q0 as i128) - 1
        }
    }
}

} // verus!
