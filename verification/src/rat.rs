//! Mathematical rationals for specifications.
//!
//! A [`Rat`] is a ghost pair of a numerator and a denominator. A well-formed
//! rational has a positive denominator; two rationals denote the same value
//! exactly when they are cross-multiplication equal ([`rat_eqv`]). The
//! arithmetic below is kept structural (no normalisation), so an executable
//! computation can be mirrored step for step.

use vstd::prelude::*;

verus! {

/// A rational number `n / d`, for use in specifications.
pub ghost struct Rat {
    pub n: int,
    pub d: int,
}

/// A rational is well formed when its denominator is positive.
pub open spec fn rat_wf(a: Rat) -> bool {
    a.d > 0
}

pub open spec fn rat_zero() -> Rat {
    Rat { n: 0, d: 1 }
}

pub open spec fn rat_one() -> Rat {
    Rat { n: 1, d: 1 }
}

pub open spec fn rat_add(a: Rat, b: Rat) -> Rat {
    Rat { n: a.n * b.d + b.n * a.d, d: a.d * b.d }
}

pub open spec fn rat_sub(a: Rat, b: Rat) -> Rat {
    Rat { n: a.n * b.d - b.n * a.d, d: a.d * b.d }
}

pub open spec fn rat_mul(a: Rat, b: Rat) -> Rat {
    Rat { n: a.n * b.n, d: a.d * b.d }
}

/// Division keeps the denominator positive by flipping both signs when the
/// divisor is negative. Only meaningful when `b.n != 0`.
pub open spec fn rat_div(a: Rat, b: Rat) -> Rat {
    if b.n >= 0 {
        Rat { n: a.n * b.d, d: a.d * b.n }
    } else {
        Rat { n: -(a.n * b.d), d: -(a.d * b.n) }
    }
}

/// `a <= b` by cross multiplication; meaningful for well-formed rationals.
pub open spec fn rat_le(a: Rat, b: Rat) -> bool {
    a.n * b.d <= b.n * a.d
}

/// `a < b` by cross multiplication; meaningful for well-formed rationals.
pub open spec fn rat_lt(a: Rat, b: Rat) -> bool {
    a.n * b.d < b.n * a.d
}

/// `a` and `b` denote the same value; meaningful for well-formed rationals.
pub open spec fn rat_eqv(a: Rat, b: Rat) -> bool {
    a.n * b.d == b.n * a.d
}

/// The quotient of a non-negative by a positive rational is non-negative
/// and well formed.
pub proof fn lemma_rat_div_nonneg(s: Rat, t: Rat)
    by (nonlinear_arith)
    requires
        rat_wf(s),
        rat_wf(t),
        rat_le(rat_zero(), s),
        rat_lt(rat_zero(), t),
    ensures
        rat_wf(rat_div(s, t)),
        rat_le(rat_zero(), rat_div(s, t)),
{
}

/// Adding a non-negative rational to a positive one stays positive.
pub proof fn lemma_rat_add_pos(b: Rat, q: Rat)
    by (nonlinear_arith)
    requires
        rat_wf(b),
        rat_wf(q),
        rat_lt(rat_zero(), b),
        rat_le(rat_zero(), q),
    ensures
        rat_wf(rat_add(b, q)),
        rat_lt(rat_zero(), rat_add(b, q)),
{
}

/// `<=` on well-formed rationals is transitive.
pub proof fn lemma_rat_le_trans(a: Rat, b: Rat, c: Rat)
    by (nonlinear_arith)
    requires
        rat_wf(a),
        rat_wf(b),
        rat_wf(c),
        rat_le(a, b),
        rat_le(b, c),
    ensures
        rat_le(a, c),
{
}

/// Value equality of well-formed rationals is transitive.
pub proof fn lemma_rat_eqv_trans(a: Rat, b: Rat, c: Rat)
    by (nonlinear_arith)
    requires
        rat_wf(a),
        rat_wf(b),
        rat_wf(c),
        rat_eqv(a, b),
        rat_eqv(b, c),
    ensures
        rat_eqv(a, c),
{
}

/// Addition respects value equality.
pub proof fn lemma_rat_add_congruence(a: Rat, a2: Rat, b: Rat, b2: Rat)
    by (nonlinear_arith)
    requires
        rat_wf(a),
        rat_wf(a2),
        rat_wf(b),
        rat_wf(b2),
        rat_eqv(a, a2),
        rat_eqv(b, b2),
    ensures
        rat_eqv(rat_add(a, b), rat_add(a2, b2)),
        rat_wf(rat_add(a, b)),
        rat_wf(rat_add(a2, b2)),
{
}

/// Multiplication respects value equality.
pub proof fn lemma_rat_mul_congruence(a: Rat, a2: Rat, b: Rat, b2: Rat)
    by (nonlinear_arith)
    requires
        rat_wf(a),
        rat_wf(a2),
        rat_wf(b),
        rat_wf(b2),
        rat_eqv(a, a2),
        rat_eqv(b, b2),
    ensures
        rat_eqv(rat_mul(a, b), rat_mul(a2, b2)),
        rat_wf(rat_mul(a, b)),
        rat_wf(rat_mul(a2, b2)),
{
}

/// Addition of rationals is associative, representation included.
pub proof fn lemma_rat_add_assoc(a: Rat, b: Rat, c: Rat)
    ensures
        rat_add(rat_add(a, b), c) == rat_add(a, rat_add(b, c)),
{
    assert((a.n * b.d + b.n * a.d) * c.d + c.n * (a.d * b.d) == a.n * (b.d * c.d) + (b.n * c.d + c.n
        * b.d) * a.d) by (nonlinear_arith);
    assert((a.d * b.d) * c.d == a.d * (b.d * c.d)) by (nonlinear_arith);
}

/// Multiplication of rationals is associative, representation included.
pub proof fn lemma_rat_mul_assoc(a: Rat, b: Rat, c: Rat)
    ensures
        rat_mul(rat_mul(a, b), c) == rat_mul(a, rat_mul(b, c)),
{
    assert((a.n * b.n) * c.n == a.n * (b.n * c.n)) by (nonlinear_arith);
    assert((a.d * b.d) * c.d == a.d * (b.d * c.d)) by (nonlinear_arith);
}

/// Addition of rationals is commutative, representation included.
pub proof fn lemma_rat_add_comm(a: Rat, b: Rat)
    ensures
        rat_add(a, b) == rat_add(b, a),
{
    assert(a.n * b.d + b.n * a.d == b.n * a.d + a.n * b.d);
    assert(a.d * b.d == b.d * a.d) by (nonlinear_arith);
}

/// `<` then `<=` chains to `<` on well-formed rationals.
pub proof fn lemma_rat_lt_le_trans(a: Rat, b: Rat, c: Rat)
    by (nonlinear_arith)
    requires
        rat_wf(a),
        rat_wf(b),
        rat_wf(c),
        rat_lt(a, b),
        rat_le(b, c),
    ensures
        rat_lt(a, c),
{
}

/// `<=` respects value equality on both sides.
pub proof fn lemma_rat_le_eqv(a: Rat, a2: Rat, b: Rat, b2: Rat)
    by (nonlinear_arith)
    requires
        rat_wf(a),
        rat_wf(a2),
        rat_wf(b),
        rat_wf(b2),
        rat_eqv(a, a2),
        rat_eqv(b, b2),
        rat_le(a, b),
    ensures
        rat_le(a2, b2),
{
}

/// Adding a non-negative rational does not decrease the value.
pub proof fn lemma_rat_add_mono(a: Rat, b: Rat, c: Rat)
    by (nonlinear_arith)
    requires
        rat_wf(a),
        rat_wf(b),
        rat_wf(c),
        rat_le(a, b),
        rat_le(rat_zero(), c),
    ensures
        rat_le(rat_add(a, c), rat_add(b, c)),
        rat_le(a, rat_add(b, c)),
        rat_wf(rat_add(a, c)),
        rat_wf(rat_add(b, c)),
{
}

/// Multiplication of rationals is commutative, representation included.
pub proof fn lemma_rat_mul_comm(a: Rat, b: Rat)
    ensures
        rat_mul(a, b) == rat_mul(b, a),
{
    assert(a.n * b.n == b.n * a.n) by (nonlinear_arith);
    assert(a.d * b.d == b.d * a.d) by (nonlinear_arith);
}

/// Quotients with a common positive divisor add like their dividends.
pub proof fn lemma_rat_div_add_distrib(x: Rat, y: Rat, t: Rat)
    requires
        rat_wf(x),
        rat_wf(y),
        rat_wf(t),
        rat_lt(rat_zero(), t),
    ensures
        rat_eqv(rat_add(rat_div(x, t), rat_div(y, t)), rat_div(rat_add(x, y), t)),
        rat_wf(rat_div(x, t)),
        rat_wf(rat_div(y, t)),
        rat_wf(rat_div(rat_add(x, y), t)),
{
    assert(t.n > 0);
    let l = rat_add(rat_div(x, t), rat_div(y, t));
    let r = rat_div(rat_add(x, y), t);
    assert(l.n == x.n * t.d * (y.d * t.n) + y.n * t.d * (x.d * t.n) && l.d == (x.d * t.n) * (y.d
        * t.n) && r.n == (x.n * y.d + y.n * x.d) * t.d && r.d == (x.d * y.d) * t.n);
    let u = x.n * y.d + y.n * x.d;
    assert(x.n * t.d * (y.d * t.n) == (x.n * y.d) * (t.d * t.n)) by (nonlinear_arith);
    assert(y.n * t.d * (x.d * t.n) == (y.n * x.d) * (t.d * t.n)) by (nonlinear_arith);
    assert((x.n * y.d) * (t.d * t.n) + (y.n * x.d) * (t.d * t.n) == u * (t.d * t.n))
        by (nonlinear_arith)
        requires
            u == x.n * y.d + y.n * x.d,
    ;
    assert((u * (t.d * t.n)) * ((x.d * y.d) * t.n) == (u * t.d) * ((x.d * t.n) * (y.d * t.n)))
        by (nonlinear_arith);
    assert((x.d * t.n) * (y.d * t.n) > 0 && (x.d * y.d) * t.n > 0) by (nonlinear_arith)
        requires
            x.d > 0,
            y.d > 0,
            t.n > 0,
    ;
}

/// A positive rational divided by itself is one.
pub proof fn lemma_rat_div_self(t: Rat)
    by (nonlinear_arith)
    requires
        rat_wf(t),
        rat_lt(rat_zero(), t),
    ensures
        rat_eqv(rat_div(t, t), rat_one()),
        rat_wf(rat_div(t, t)),
{
}

/// Multiplication distributes over addition up to value equality.
pub proof fn lemma_rat_mul_distrib(c: Rat, a: Rat, b: Rat)
    requires
        rat_wf(c),
        rat_wf(a),
        rat_wf(b),
    ensures
        rat_eqv(rat_mul(c, rat_add(a, b)), rat_add(rat_mul(c, a), rat_mul(c, b))),
        rat_wf(rat_mul(c, rat_add(a, b))),
        rat_wf(rat_add(rat_mul(c, a), rat_mul(c, b))),
{
    let l = rat_mul(c, rat_add(a, b));
    let r = rat_add(rat_mul(c, a), rat_mul(c, b));
    assert(l.n == c.n * (a.n * b.d + b.n * a.d) && l.d == c.d * (a.d * b.d) && r.n == c.n * a.n * (c.d
        * b.d) + c.n * b.n * (c.d * a.d) && r.d == (c.d * a.d) * (c.d * b.d));
    let u = a.n * b.d + b.n * a.d;
    assert(c.n * a.n * (c.d * b.d) == (c.n * c.d) * (a.n * b.d)) by (nonlinear_arith);
    assert(c.n * b.n * (c.d * a.d) == (c.n * c.d) * (b.n * a.d)) by (nonlinear_arith);
    assert((c.n * c.d) * (a.n * b.d) + (c.n * c.d) * (b.n * a.d) == (c.n * c.d) * u)
        by (nonlinear_arith)
        requires
            u == a.n * b.d + b.n * a.d,
    ;
    assert((c.n * u) * ((c.d * a.d) * (c.d * b.d)) == ((c.n * c.d) * u) * (c.d * (a.d * b.d)))
        by (nonlinear_arith);
    assert(c.d * (a.d * b.d) > 0 && (c.d * a.d) * (c.d * b.d) > 0) by (nonlinear_arith)
        requires
            a.d > 0,
            b.d > 0,
            c.d > 0,
    ;
}

/// Multiplying by one keeps the representation.
pub proof fn lemma_rat_mul_one(a: Rat)
    ensures
        rat_mul(a, rat_one()) == a,
{
    assert(rat_mul(a, rat_one()).n == a.n && rat_mul(a, rat_one()).d == a.d);
    assert(a == Rat { n: a.n, d: a.d });
}

} // verus!
