//! Exact rational numbers for executable code.
//!
//! A [`Frac`] holds an arbitrary-precision numerator and denominator and
//! views to a ghost [`Rat`]. The operations mirror the spec-level rational
//! arithmetic structurally: the result's view is the exact ghost pair the
//! corresponding spec operation produces, so executable computations can be
//! pinned to spec computations with plain equality.

use vstd::prelude::*;
use num_bigint::BigInt;
use crate::bigint::{bint, bi_from_i64, bi_add, bi_sub, bi_mul, bi_neg, bi_lt, bi_eq, bi_clone};
use crate::rat::{Rat, rat_wf, rat_zero, rat_one, rat_add, rat_sub, rat_mul, rat_div, rat_lt, rat_eqv};

verus! {

/// An exact rational number with a positive denominator.
pub struct Frac {
    num: BigInt,
    den: BigInt,
}

impl View for Frac {
    type V = Rat;

    closed spec fn view(&self) -> Rat {
        Rat { n: bint(self.num), d: bint(self.den) }
    }
}

impl Frac {
    /// The denominator is positive.
    pub open spec fn wf(&self) -> bool {
        rat_wf(self@)
    }

    /// The rational `v / 1`.
    pub fn from_int(v: i64) -> (r: Frac)
        ensures
            r@ == (Rat { n: v as int, d: 1 }),
            r.wf(),
    {
        Frac { num: bi_from_i64(v), den: bi_from_i64(1) }
    }

    /// The rational `num / den`, with the sign moved to the numerator.
    pub fn new(num: i64, den: i64) -> (r: Frac)
        requires
            den != 0,
        ensures
            r@ == (if den > 0 {
                Rat { n: num as int, d: den as int }
            } else {
                Rat { n: -(num as int), d: -(den as int) }
            }),
            r.wf(),
    {
        let n = bi_from_i64(num);
        let d = bi_from_i64(den);
        if den < 0 {
            Frac { num: bi_neg(&n), den: bi_neg(&d) }
        } else {
            Frac { num: n, den: d }
        }
    }

    pub fn zero() -> (r: Frac)
        ensures
            r@ == rat_zero(),
            r.wf(),
    {
        Frac::from_int(0)
    }

    pub fn one() -> (r: Frac)
        ensures
            r@ == rat_one(),
            r.wf(),
    {
        Frac::from_int(1)
    }

    /// An exact copy.
    pub fn clone_frac(&self) -> (r: Frac)
        ensures
            r@ == self@,
    {
        Frac { num: bi_clone(&self.num), den: bi_clone(&self.den) }
    }

    pub fn add(&self, other: &Frac) -> (r: Frac)
        requires
            self.wf(),
            other.wf(),
        ensures
            r@ == rat_add(self@, other@),
            r.wf(),
    {
        proof {
            lemma_pos_mul(self@.d, other@.d);
        }
        Frac {
            num: bi_add(&bi_mul(&self.num, &other.den), &bi_mul(&other.num, &self.den)),
            den: bi_mul(&self.den, &other.den),
        }
    }

    pub fn sub(&self, other: &Frac) -> (r: Frac)
        requires
            self.wf(),
            other.wf(),
        ensures
            r@ == rat_sub(self@, other@),
            r.wf(),
    {
        proof {
            lemma_pos_mul(self@.d, other@.d);
        }
        Frac {
            num: bi_sub(&bi_mul(&self.num, &other.den), &bi_mul(&other.num, &self.den)),
            den: bi_mul(&self.den, &other.den),
        }
    }

    pub fn mul(&self, other: &Frac) -> (r: Frac)
        requires
            self.wf(),
            other.wf(),
        ensures
            r@ == rat_mul(self@, other@),
            r.wf(),
    {
        proof {
            lemma_pos_mul(self@.d, other@.d);
        }
        Frac {
            num: bi_mul(&self.num, &other.num),
            den: bi_mul(&self.den, &other.den),
        }
    }

    pub fn div(&self, other: &Frac) -> (r: Frac)
        requires
            self.wf(),
            other.wf(),
            other@.n != 0,
        ensures
            r@ == rat_div(self@, other@),
            r.wf(),
    {
        let zero = bi_from_i64(0);
        if bi_lt(&other.num, &zero) {
            proof {
                assert(self@.d * other@.n < 0) by (nonlinear_arith)
                    requires
                        self@.d > 0,
                        other@.n < 0,
                ;
            }
            Frac {
                num: bi_neg(&bi_mul(&self.num, &other.den)),
                den: bi_neg(&bi_mul(&self.den, &other.num)),
            }
        } else {
            proof {
                lemma_pos_mul(self@.d, other@.n);
            }
            Frac {
                num: bi_mul(&self.num, &other.den),
                den: bi_mul(&self.den, &other.num),
            }
        }
    }

    pub fn lt(&self, other: &Frac) -> (r: bool)
        ensures
            r == rat_lt(self@, other@),
    {
        bi_lt(&bi_mul(&self.num, &other.den), &bi_mul(&other.num, &self.den))
    }

    pub fn gt(&self, other: &Frac) -> (r: bool)
        ensures
            r == rat_lt(other@, self@),
    {
        other.lt(self)
    }

    /// Value equality: `self` and `other` denote the same rational.
    pub fn eq_frac(&self, other: &Frac) -> (r: bool)
        ensures
            r == rat_eqv(self@, other@),
    {
        bi_eq(&bi_mul(&self.num, &other.den), &bi_mul(&other.num, &self.den))
    }

    /// The numerator is zero, i.e. the value is zero.
    pub fn is_zero(&self) -> (r: bool)
        ensures
            r == (self@.n == 0),
    {
        let zero = bi_from_i64(0);
        bi_eq(&self.num, &zero)
    }
}

/// The product of two positive integers is positive.
pub proof fn lemma_pos_mul(a: int, b: int)
    by (nonlinear_arith)
    requires
        a > 0,
        b > 0,
    ensures
        a * b > 0,
{
}

} // verus!
