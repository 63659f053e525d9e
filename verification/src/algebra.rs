//! Residue-arithmetic laws for the field operations: the small algebra of
//! `add_f`, `sub_f` and `mul_f` that the polynomial and protocol proofs
//! are built from.

use vstd::prelude::*;
use vstd::arithmetic::div_mod::{
    lemma_add_mod_noop, lemma_mod_bound, lemma_mod_twice, lemma_mul_mod_noop_general,
    lemma_small_mod,
};
use vstd::arithmetic::mul::{
    lemma_mul_is_associative, lemma_mul_is_commutative, lemma_mul_is_distributive_add,
};
use crate::field::{add_f, mul_f, p, sub_f};

verus! {

/// Every field operation returns a canonical representative.
pub proof fn lemma_f_bound(a: nat, b: nat)
    ensures
        add_f(a, b) < p(),
        sub_f(a, b) < p(),
        mul_f(a, b) < p(),
{
    lemma_mod_bound((a + b) as int, p() as int);
    lemma_mod_bound((a + p() - b) as int, p() as int);
    lemma_mod_bound((a * b) as int, p() as int);
}

/// Reducing a value below the field order changes nothing.
pub proof fn lemma_f_small(a: nat)
    requires
        a < p(),
    ensures
        a % p() == a,
{
    lemma_small_mod(a, p());
}

/// Addition is commutative.
pub proof fn lemma_add_f_comm(a: nat, b: nat)
    ensures
        add_f(a, b) == add_f(b, a),
{
}

/// Addition folds through an already-reduced left operand.
pub proof fn lemma_add_f_left(a: nat, b: nat)
    ensures
        add_f(a % p(), b) == add_f(a, b),
{
    lemma_add_mod_noop(a as int, b as int, p() as int);
    lemma_add_mod_noop((a % p()) as int, b as int, p() as int);
    lemma_mod_twice(a as int, p() as int);
}

/// Addition folds through an already-reduced right operand.
pub proof fn lemma_add_f_right(a: nat, b: nat)
    ensures
        add_f(a, b % p()) == add_f(a, b),
{
    lemma_add_f_left(b, a);
    lemma_add_f_comm(a, b);
    lemma_add_f_comm(a, b % p());
}

/// Addition is associative.
pub proof fn lemma_add_f_assoc(a: nat, b: nat, c: nat)
    ensures
        add_f(add_f(a, b), c) == add_f(a, add_f(b, c)),
{
    lemma_add_f_left((a + b) as nat, c);
    lemma_add_f_right(a, (b + c) as nat);
    assert(a + (b + c) == (a + b) + c);
}

/// Zero is the additive identity on canonical representatives.
pub proof fn lemma_add_f_zero(a: nat)
    requires
        a < p(),
    ensures
        add_f(a, 0) == a,
        add_f(0, a) == a,
{
    lemma_small_mod(a, p());
}

/// Multiplication is commutative.
pub proof fn lemma_mul_f_comm(a: nat, b: nat)
    ensures
        mul_f(a, b) == mul_f(b, a),
{
    lemma_mul_is_commutative(a as int, b as int);
}

/// Multiplication folds through an already-reduced left operand.
pub proof fn lemma_mul_f_left(a: nat, b: nat)
    ensures
        mul_f(a % p(), b) == mul_f(a, b),
{
    lemma_mul_mod_noop_general(a as int, b as int, p() as int);
}

/// Multiplication folds through an already-reduced right operand.
pub proof fn lemma_mul_f_right(a: nat, b: nat)
    ensures
        mul_f(a, b % p()) == mul_f(a, b),
{
    lemma_mul_mod_noop_general(a as int, b as int, p() as int);
}

/// Multiplication is associative.
pub proof fn lemma_mul_f_assoc(a: nat, b: nat, c: nat)
    ensures
        mul_f(mul_f(a, b), c) == mul_f(a, mul_f(b, c)),
{
    lemma_mul_f_left((a * b) as nat, c);
    lemma_mul_f_right(a, (b * c) as nat);
    lemma_mul_is_associative(a as int, b as int, c as int);
}

/// One is the multiplicative identity on canonical representatives.
pub proof fn lemma_mul_f_one(a: nat)
    requires
        a < p(),
    ensures
        mul_f(1, a) == a,
        mul_f(a, 1) == a,
{
    lemma_small_mod(a, p());
}

/// Zero annihilates.
pub proof fn lemma_mul_f_zero(a: nat)
    ensures
        mul_f(0, a) == 0,
        mul_f(a, 0) == 0,
{
}

/// Multiplication distributes over addition.
pub proof fn lemma_mul_f_distrib(c: nat, a: nat, b: nat)
    ensures
        mul_f(c, add_f(a, b)) == add_f(mul_f(c, a), mul_f(c, b)),
{
    lemma_mul_f_right(c, (a + b) as nat);
    lemma_mul_is_distributive_add(c as int, a as int, b as int);
    assert(c * (a + b) == c * a + c * b);
    lemma_add_mod_noop((c * a) as int, (c * b) as int, p() as int);
}

/// The multiplicative inverse of a residue, where one exists; zero
/// otherwise.
pub open spec fn inv_f(a: nat) -> nat {
    if a % p() == 0 {
        0
    } else {
        choose|r: nat| r < p() && mul_f(a, r) == 1
    }
}

/// A residue has at most one inverse.
pub proof fn lemma_inv_unique(a: nat, r1: nat, r2: nat)
    requires
        r1 < p(),
        r2 < p(),
        mul_f(a, r1) == 1,
        mul_f(a, r2) == 1,
    ensures
        r1 == r2,
{
    lemma_mul_f_assoc(r1, a, r2);
    lemma_mul_f_comm(r1, a);
    lemma_mul_f_comm(a, r2);
    lemma_mul_f_comm(r1, mul_f(a, r2));
    assert(mul_f(1, r2) == mul_f(mul_f(r1, a), r2));
    lemma_mul_f_one(r1);
    lemma_mul_f_one(r2);
    assert(mul_f(mul_f(a, r2), r1) == mul_f(1, r1));
}

/// The inverse an exec computation produced is the inverse the
/// specification names.
pub proof fn lemma_inv_is_inv_f(a: nat, r: nat)
    requires
        a != 0,
        a < p(),
        r < p(),
        mul_f(a, r) == 1,
    ensures
        inv_f(a) == r,
{
    lemma_small_mod(a, p());
    assert(a % p() != 0);
    assert(exists|c: nat| c < p() && mul_f(a, c) == 1) by {
        assert(r < p() && mul_f(a, r) == 1);
    }
    let c = choose|c: nat| c < p() && mul_f(a, c) == 1;
    lemma_inv_unique(a, r, c);
}

/// The multiplicative inverse, total on the field: zero maps to zero.
pub fn fe_invert(a: crate::field::Fe) -> (r: crate::field::Fe)
    requires
        a.wf(),
    ensures
        r.wf(),
        r.val() == inv_f(a.val()),
{
    let z = crate::field::Fe::zero();
    if crate::field::fe_eq(a, z) {
        proof {
            lemma_small_mod(0, p());
        }
        z
    } else {
        let r = crate::field::fe_inv(a);
        proof {
            lemma_inv_is_inv_f(a.val(), r.val());
        }
        r
    }
}

/// Adding the same value on the right preserves and reflects equality:
/// the additive group cancels.
pub proof fn lemma_add_f_cancel(a: nat, b: nat, c: nat)
    requires
        a < p(),
        b < p(),
        add_f(a, c) == add_f(b, c),
    ensures
        a == b,
{
    let pi = p() as int;
    let d = (p() - c % p()) as nat;
    lemma_mod_bound(c as int, pi);
    lemma_add_f_right(a, c);
    lemma_add_f_right(b, c);
    lemma_add_f_assoc(a, c % p(), d);
    lemma_add_f_assoc(b, c % p(), d);
    assert(add_f(c % p(), d) == 0) by {
        assert(c % p() + d == p());
        assert(p() % p() == 0) by {
            vstd::arithmetic::div_mod::lemma_mod_self_0(pi);
        }
    }
    lemma_add_f_zero(a);
    lemma_add_f_zero(b);
}

/// The field sum of a sequence of residues, folded left to right.
pub open spec fn sum_vals(s: Seq<nat>) -> nat
    decreases s.len(),
{
    if s.len() == 0 {
        0
    } else {
        add_f(sum_vals(s.drop_last()), s.last())
    }
}

/// A fold of `add_f` stays canonical.
pub proof fn lemma_sum_vals_bound(s: Seq<nat>)
    ensures
        sum_vals(s) < p(),
    decreases s.len(),
{
    if s.len() == 0 {
    } else {
        lemma_sum_vals_bound(s.drop_last());
        lemma_f_bound(sum_vals(s.drop_last()), s.last());
    }
}

/// Summing a concatenation sums the parts.
pub proof fn lemma_sum_vals_concat(a: Seq<nat>, b: Seq<nat>)
    ensures
        sum_vals(a + b) == add_f(sum_vals(a), sum_vals(b)),
    decreases b.len(),
{
    if b.len() == 0 {
        assert(a + b =~= a);
        lemma_sum_vals_bound(a);
        lemma_add_f_zero(sum_vals(a));
    } else {
        assert((a + b).drop_last() =~= a + b.drop_last());
        assert((a + b).last() == b.last());
        lemma_sum_vals_concat(a, b.drop_last());
        lemma_add_f_assoc(sum_vals(a), sum_vals(b.drop_last()), b.last());
    }
}

/// Summing a pointwise field sum of two equal-length sequences sums each
/// and adds.
pub proof fn lemma_sum_vals_pointwise_add(x: Seq<nat>, y: Seq<nat>, z: Seq<nat>)
    requires
        x.len() == y.len(),
        z.len() == x.len(),
        forall|k: int| 0 <= k < z.len() ==> z[k] == add_f(x[k], y[k]),
    ensures
        sum_vals(z) == add_f(sum_vals(x), sum_vals(y)),
    decreases z.len(),
{
    if z.len() == 0 {
        lemma_add_f_zero(0);
    } else {
        let n = z.len() as int;
        assert(forall|k: int| 0 <= k < n - 1 ==> z.drop_last()[k] == z[k]);
        lemma_sum_vals_pointwise_add(x.drop_last(), y.drop_last(), z.drop_last());
        let sx = sum_vals(x.drop_last());
        let sy = sum_vals(y.drop_last());
        let xl = x.last();
        let yl = y.last();
        assert(sum_vals(z) == add_f(add_f(sx, sy), add_f(xl, yl)));
        lemma_add_f_assoc(add_f(sx, sy), xl, yl);
        lemma_add_f_assoc(sx, sy, xl);
        lemma_add_f_comm(sy, xl);
        lemma_add_f_assoc(sx, xl, sy);
        lemma_add_f_assoc(add_f(sx, xl), sy, yl);
    }
}

/// Summing a common multiple multiplies the sum.
pub proof fn lemma_sum_vals_scale(c: nat, x: Seq<nat>, z: Seq<nat>)
    requires
        z.len() == x.len(),
        forall|k: int| 0 <= k < z.len() ==> z[k] == mul_f(c, x[k]),
    ensures
        sum_vals(z) == mul_f(c, sum_vals(x)),
    decreases z.len(),
{
    if z.len() == 0 {
        lemma_mul_f_zero(c);
    } else {
        assert(forall|k: int| 0 <= k < z.len() - 1 ==> z.drop_last()[k] == z[k]);
        lemma_sum_vals_scale(c, x.drop_last(), z.drop_last());
        lemma_mul_f_distrib(c, sum_vals(x.drop_last()), x.last());
        lemma_mul_f_comm(c, sum_vals(x.drop_last()));
        lemma_mul_f_comm(c, add_f(sum_vals(x.drop_last()), x.last()));
        lemma_mul_f_right(c, (sum_vals(x.drop_last()) + x.last()) as nat);
        lemma_mul_f_comm(c, x.last());
        assert(sum_vals(z) == add_f(mul_f(c, sum_vals(x.drop_last())), mul_f(c, x.last())));
        assert(mul_f(c, sum_vals(x)) == mul_f(c, add_f(sum_vals(x.drop_last()), x.last())));
    }
}

} // verus!
