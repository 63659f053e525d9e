//! Univariate polynomials as lists of monomials, with exact-point Lagrange
//! interpolation: the round check of the sumcheck verifier interpolates the
//! prover's message through small integers and evaluates it at the
//! challenge.

use vstd::prelude::*;
use crate::algebra::inv_f;
use crate::field::{add_f, mul_f, sub_f, Fe};

verus! {

/// Iterated field multiplication: `x` to the power `e`.
pub open spec fn pow_f(x: nat, e: nat) -> nat
    decreases e,
{
    if e == 0 {
        1
    } else {
        mul_f(x, pow_f(x, (e - 1) as nat))
    }
}

/// The view of a monomial: its exponent and its coefficient's residue.
pub open spec fn mono_view(m: Monomial) -> (nat, nat) {
    (m.exponent as nat, m.coefficients.val())
}

/// The view of a monomial list.
pub open spec fn mons_view(s: Seq<Monomial>) -> Seq<(nat, nat)> {
    s.map_values(|m: Monomial| mono_view(m))
}

/// Every coefficient is a canonical representative.
pub open spec fn mons_wf(s: Seq<Monomial>) -> bool {
    forall|j: int| 0 <= j < s.len() ==> (#[trigger] s[j]).coefficients.wf()
}

/// The value of a monomial list at `x`: the sum of its terms, in order.
pub open spec fn eval_pairs(s: Seq<(nat, nat)>, x: nat) -> nat
    decreases s.len(),
{
    if s.len() == 0 {
        0
    } else {
        add_f(eval_pairs(s.drop_last(), x), mul_f(s.last().1, pow_f(x, s.last().0)))
    }
}

/// Whether some term of the list carries the exponent.
pub open spec fn has_exp(s: Seq<(nat, nat)>, e: nat) -> bool {
    exists|j: int| 0 <= j < s.len() && s[j].0 == e
}

/// The slot carrying the exponent, where one does.
pub open spec fn exp_index(s: Seq<(nat, nat)>, e: nat) -> int {
    choose|j: int| 0 <= j < s.len() && s[j].0 == e
}

/// Folding one term into a list of collected terms: an existing slot with
/// the same exponent absorbs the coefficient, a new exponent is appended.
pub open spec fn merge_step(acc: Seq<(nat, nat)>, m: (nat, nat)) -> Seq<(nat, nat)> {
    if has_exp(acc, m.0) {
        let j = exp_index(acc, m.0);
        acc.update(j, (m.0, add_f(acc[j].1, m.1)))
    } else {
        acc.push(m)
    }
}

/// Collecting a term list: exponents in first-occurrence order, each with
/// the sum of its coefficients.
pub open spec fn merged(s: Seq<(nat, nat)>) -> Seq<(nat, nat)>
    decreases s.len(),
{
    if s.len() == 0 {
        Seq::<(nat, nat)>::empty()
    } else {
        merge_step(merged(s.drop_last()), s.last())
    }
}

/// No two slots carry the same exponent.
pub open spec fn distinct_exps(s: Seq<(nat, nat)>) -> bool {
    forall|i: int, j: int| 0 <= i < j < s.len() ==> s[i].0 != s[j].0
}

/// One folding step keeps the exponents distinct.
pub proof fn lemma_merge_step_distinct(acc: Seq<(nat, nat)>, m: (nat, nat))
    requires
        distinct_exps(acc),
    ensures
        distinct_exps(merge_step(acc, m)),
        merge_step(acc, m).len() >= acc.len(),
{
    if has_exp(acc, m.0) {
        let j = exp_index(acc, m.0);
        assert(0 <= j < acc.len() && acc[j].0 == m.0);
        let out = acc.update(j, (m.0, add_f(acc[j].1, m.1)));
        assert forall|a: int, b: int| 0 <= a < b < out.len() implies out[a].0 != out[b].0 by {
            assert(out[a].0 == acc[a].0);
            assert(out[b].0 == acc[b].0);
        }
    } else {
        let out = acc.push(m);
        assert forall|a: int, b: int| 0 <= a < b < out.len() implies out[a].0 != out[b].0 by {
            if b < acc.len() {
            } else {
                assert(out[b] == m);
                assert(out[a] == acc[a]);
                assert(!(acc[a].0 == m.0));
            }
        }
    }
}

/// A single term of a polynomial: a coefficient on a power of the variable.
#[derive(Debug, Clone, Copy, PartialEq, Eq, Structural)]
pub struct Monomial {
    /// The exponent of the monomial.
    pub exponent: usize,
    /// The coefficient of the monomial.
    pub coefficients: Fe,
}

impl Monomial {
    /// A monomial with the given exponent and coefficient.
    pub fn new(exponent: usize, coefficients: Fe) -> (r: Monomial)
        ensures
            r.exponent == exponent,
            r.coefficients == coefficients,
    {
        Monomial { exponent, coefficients }
    }

    /// The zero constant term.
    pub fn default() -> (r: Monomial)
        ensures
            r.exponent == 0,
            r.coefficients.val() == 0,
            r.coefficients.wf(),
    {
        Monomial { exponent: 0, coefficients: Fe::zero() }
    }
}

/// A polynomial in one variable: a list of monomials and a cached degree.
#[derive(Debug, Clone, PartialEq)]
pub struct UnivariatePolynomial {
    /// The terms of the polynomial.
    pub monomials: Vec<Monomial>,
    /// The degree of the polynomial, once it has been asked for.
    pub degree: Option<u32>,
}

/// The largest exponent of a term list, or zero for none.
pub open spec fn max_exp(s: Seq<Monomial>) -> nat
    decreases s.len(),
{
    if s.len() == 0 {
        0
    } else if s.last().exponent as nat > max_exp(s.drop_last()) {
        s.last().exponent as nat
    } else {
        max_exp(s.drop_last())
    }
}

impl UnivariatePolynomial {
    /// Every coefficient is canonical.
    pub open spec fn wf(self) -> bool {
        mons_wf(self.monomials@)
    }

    /// The view of the term list.
    pub open spec fn view(self) -> Seq<(nat, nat)> {
        mons_view(self.monomials@)
    }

    /// Wraps a list of monomials, with the degree not yet computed.
    pub fn new(monomials: Vec<Monomial>) -> (r: UnivariatePolynomial)
        ensures
            r.monomials == monomials,
            r.degree == Option::<u32>::None,
    {
        UnivariatePolynomial { monomials, degree: None }
    }

    /// The polynomial with no terms.
    pub fn default() -> (r: UnivariatePolynomial)
        ensures
            r.monomials@.len() == 0,
            r.degree == Option::<u32>::None,
    {
        UnivariatePolynomial { monomials: Vec::new(), degree: None }
    }

    /// Evaluates the polynomial at `x`, term by term.
    pub fn evaluate(&self, x: Fe) -> (r: Fe)
        requires
            self.wf(),
            x.wf(),
        ensures
            r.wf(),
            r.val() == eval_pairs(self.view(), x.val()),
    {
        let mut result = Fe::zero();
        let mut i: usize = 0;
        while i < self.monomials.len()
            invariant
                i <= self.monomials@.len(),
                self.wf(),
                x.wf(),
                result.wf(),
                result.val() == eval_pairs(self.view().take(i as int), x.val()),
            decreases self.monomials@.len() - i,
        {
            let m = self.monomials[i];
            let term = crate::field::fe_mul(m.coefficients, fe_pow(x, m.exponent));
            result = crate::field::fe_add(result, term);
            proof {
                assert(self.view().take(i + 1).drop_last() =~= self.view().take(i as int));
                assert(self.view().take(i + 1).last() == self.view()[i as int]);
                assert(self.view()[i as int] == mono_view(self.monomials@[i as int]));
            }
            i = i + 1;
        }
        proof {
            assert(self.view().take(self.view().len() as int) =~= self.view());
        }
        result
    }

    /// The degree: the largest exponent, when one term has a positive
    /// exponent; computed once and then served from the cache.
    pub fn degree(&mut self) -> (r: Option<u32>)
        requires
            forall|j: int|
                0 <= j < old(self).monomials@.len() ==> (
                #[trigger] old(self).monomials@[j]).exponent <= u32::MAX,
        ensures
            final(self).monomials@ == old(self).monomials@,
            final(self).degree == r,
            match old(self).degree {
                Some(d) => r == Some(d),
                None => {
                    &&& max_exp(old(self).monomials@) <= u32::MAX
                    &&& r == if max_exp(old(self).monomials@) > 0 {
                        Some(max_exp(old(self).monomials@) as u32)
                    } else {
                        Option::<u32>::None
                    }
                },
            },
    {
        if self.degree.is_none() {
            let ghost mons = self.monomials@;
            let mut i: usize = 0;
            while i < self.monomials.len()
                invariant
                    i <= self.monomials@.len(),
                    self.monomials@ == mons,
                    forall|j: int|
                        0 <= j < mons.len() ==> (#[trigger] mons[j]).exponent <= u32::MAX,
                    max_exp(mons.take(i as int)) <= u32::MAX,
                    self.degree == if max_exp(mons.take(i as int)) > 0 {
                        Some(max_exp(mons.take(i as int)) as u32)
                    } else {
                        Option::<u32>::None
                    },
                decreases self.monomials@.len() - i,
            {
                let cur: u32 = match self.degree {
                    Some(d) => d,
                    None => 0,
                };
                if self.monomials[i].exponent as u32 > cur {
                    self.degree = Some(self.monomials[i].exponent as u32);
                }
                proof {
                    assert(mons.take(i + 1).drop_last() =~= mons.take(i as int));
                    assert(mons.take(i + 1).last() == mons[i as int]);
                }
                i = i + 1;
            }
            proof {
                assert(mons.take(mons.len() as int) =~= mons);
            }
            return self.degree;
        } else {
            return self.degree;
        }
    }
}

/// The term-by-term cross product of two term lists, first list major.
pub open spec fn cross(s1: Seq<(nat, nat)>, s2: Seq<(nat, nat)>) -> Seq<(nat, nat)> {
    Seq::new(
        s1.len() * s2.len(),
        |t: int|
            (
                (s1[t / s2.len() as int].0 + s2[t % s2.len() as int].0) as nat,
                mul_f(s1[t / s2.len() as int].1, s2[t % s2.len() as int].1),
            ),
    )
}

/// Every exponent of the list stays at or under the bound.
pub open spec fn exps_below(s: Seq<(nat, nat)>, b: nat) -> bool {
    forall|j: int| 0 <= j < s.len() ==> (#[trigger] s[j]).0 <= b
}

/// Folding keeps the exponent bound.
pub proof fn lemma_merge_step_exps_below(acc: Seq<(nat, nat)>, m: (nat, nat), b: nat)
    requires
        exps_below(acc, b),
        m.0 <= b,
    ensures
        exps_below(merge_step(acc, m), b),
{
    let out = merge_step(acc, m);
    assert forall|j: int| 0 <= j < out.len() implies (#[trigger] out[j]).0 <= b by {
        if has_exp(acc, m.0) {
            if j != exp_index(acc, m.0) {
                assert(out[j] == acc[j]);
            }
        } else {
            if j < acc.len() {
                assert(out[j] == acc[j]);
            }
        }
    }
}

/// A cross product bounds its exponents by the sum of the bounds.
pub proof fn lemma_cross_exps_below(s1: Seq<(nat, nat)>, s2: Seq<(nat, nat)>, b1: nat, b2: nat)
    requires
        exps_below(s1, b1),
        exps_below(s2, b2),
    ensures
        exps_below(cross(s1, s2), (b1 + b2) as nat),
        exps_below(merged(cross(s1, s2)), (b1 + b2) as nat),
{
    assert forall|t: int|
        0 <= t < cross(s1, s2).len() implies (#[trigger] cross(s1, s2)[t]).0 <= b1 + b2 by {
        let l2 = s2.len() as int;
        vstd::arithmetic::div_mod::lemma_mod_bound(t, l2);
        vstd::arithmetic::div_mod::lemma_div_pos_is_pos(t, l2);
        assert(0 <= t / l2 < s1.len()) by (nonlinear_arith)
            requires
                0 <= t < s1.len() * l2,
                l2 > 0,
        ;
    }
    lemma_merged_exps_below(cross(s1, s2), (b1 + b2) as nat);
}

/// Collecting keeps the exponent bound.
pub proof fn lemma_merged_exps_below(s: Seq<(nat, nat)>, b: nat)
    requires
        exps_below(s, b),
    ensures
        exps_below(merged(s), b),
    decreases s.len(),
{
    if s.len() > 0 {
        assert(exps_below(s.drop_last(), b)) by {
            assert(forall|j: int| 0 <= j < s.len() - 1 ==> s.drop_last()[j] == s[j]);
        }
        lemma_merged_exps_below(s.drop_last(), b);
        lemma_merge_step_exps_below(merged(s.drop_last()), s.last(), b);
    }
}

impl UnivariatePolynomial {
    /// Multiplies two polynomials: the cross product of their terms, with
    /// equal exponents collected in first-occurrence order.
    pub fn multiply(&self, p2: &UnivariatePolynomial) -> (r: UnivariatePolynomial)
        requires
            self.wf(),
            p2.wf(),
            forall|a: int, b: int|
                0 <= a < self@.len() && 0 <= b < p2@.len() ==> (#[trigger] self@[a]).0 + (
                #[trigger] p2@[b]).0 <= usize::MAX,
        ensures
            r.wf(),
            r@ == merged(cross(self@, p2@)),
            distinct_exps(r@),
            r.degree == Option::<u32>::None,
    {
        let ghost target = cross(self@, p2@);
        let l1 = self.monomials.len();
        let l2 = p2.monomials.len();
        proof {
            assert(target.len() == l1 * l2);
        }
        let mut out: Vec<Monomial> = Vec::new();
        let mut i: usize = 0;
        while i < l1
            invariant
                i <= l1,
                l1 == self.monomials@.len(),
                l2 == p2.monomials@.len(),
                self.wf(),
                p2.wf(),
                forall|a: int, b: int|
                    0 <= a < self@.len() && 0 <= b < p2@.len() ==> (#[trigger] self@[a]).0 + (
                    #[trigger] p2@[b]).0 <= usize::MAX,
                target == cross(self@, p2@),
                target.len() == l1 * l2,
                mons_wf(out@),
                distinct_exps(mons_view(out@)),
                mons_view(out@) == merged(target.take((i * l2) as int)),
            decreases l1 - i,
        {
            let mut j: usize = 0;
            proof {
                crate::product_poly::lemma_mul_ordered_pub(i as int, l1 as int, l2 as int);
            }
            while j < l2
                invariant
                    j <= l2,
                    i < l1,
                    l1 == self.monomials@.len(),
                    l2 == p2.monomials@.len(),
                    self.wf(),
                    p2.wf(),
                    forall|a: int, b: int|
                        0 <= a < self@.len() && 0 <= b < p2@.len() ==> (#[trigger] self@[a]).0 + (
                        #[trigger] p2@[b]).0 <= usize::MAX,
                    target == cross(self@, p2@),
                    target.len() == l1 * l2,
                    i * l2 + l2 <= l1 * l2,
                    mons_wf(out@),
                    distinct_exps(mons_view(out@)),
                    mons_view(out@) == merged(target.take((i * l2 + j) as int)),
                decreases l2 - j,
            {
                let m1 = self.monomials[i];
                let m2 = p2.monomials[j];
                proof {
                    assert(self@[i as int] == mono_view(self.monomials@[i as int]));
                    assert(p2@[j as int] == mono_view(p2.monomials@[j as int]));
                }
                let term = Monomial {
                    exponent: m1.exponent + m2.exponent,
                    coefficients: crate::field::fe_mul(m1.coefficients, m2.coefficients),
                };
                proof {
                    let t = (i * l2 + j) as int;
                    vstd::arithmetic::div_mod::lemma_fundamental_div_mod_converse(
                        t,
                        l2 as int,
                        i as int,
                        j as int,
                    );
                    assert(0 <= t < target.len());
                    assert(self@[i as int] == mono_view(self.monomials@[i as int]));
                    assert(p2@[j as int] == mono_view(p2.monomials@[j as int]));
                    assert(target[t] == mono_view(term));
                    assert(target.take(t + 1).drop_last() =~= target.take(t));
                    assert(target.take(t + 1).last() == target[t]);
                }
                merge_push(&mut out, term);
                j = j + 1;
            }
            i = i + 1;
            proof {
                assert(i * l2 == (i - 1) * l2 + l2) by (nonlinear_arith);
            }
        }
        proof {
            assert(target.take(target.len() as int) =~= target);
        }
        UnivariatePolynomial { monomials: out, degree: None }
    }

    /// Adds two polynomials: their terms concatenated, with equal exponents
    /// collected in first-occurrence order.
    pub fn plus(&self, p2: &UnivariatePolynomial) -> (r: UnivariatePolynomial)
        requires
            self.wf(),
            p2.wf(),
        ensures
            r.wf(),
            r@ == merged(self@ + p2@),
            distinct_exps(r@),
            r.degree == Option::<u32>::None,
    {
        let ghost target = self@ + p2@;
        let mut out: Vec<Monomial> = Vec::new();
        let mut i: usize = 0;
        while i < self.monomials.len()
            invariant
                i <= self.monomials@.len(),
                self.wf(),
                p2.wf(),
                target == self@ + p2@,
                mons_wf(out@),
                distinct_exps(mons_view(out@)),
                mons_view(out@) == merged(target.take(i as int)),
            decreases self.monomials@.len() - i,
        {
            let term = self.monomials[i];
            proof {
                assert(target[i as int] == mono_view(term));
                assert(target.take(i + 1).drop_last() =~= target.take(i as int));
                assert(target.take(i + 1).last() == target[i as int]);
            }
            merge_push(&mut out, term);
            i = i + 1;
        }
        let offset = self.monomials.len();
        let mut j: usize = 0;
        while j < p2.monomials.len()
            invariant
                j <= p2.monomials@.len(),
                offset == self.monomials@.len(),
                self.wf(),
                p2.wf(),
                target == self@ + p2@,
                mons_wf(out@),
                distinct_exps(mons_view(out@)),
                mons_view(out@) == merged(target.take(offset + j)),
            decreases p2.monomials@.len() - j,
        {
            let term = p2.monomials[j];
            proof {
                assert(target[offset + j] == mono_view(term));
                assert(target.take(offset + j + 1).drop_last() =~= target.take(offset + j));
                assert(target.take(offset + j + 1).last() == target[offset + j]);
            }
            merge_push(&mut out, term);
            j = j + 1;
        }
        proof {
            assert(target.take(target.len() as int) =~= target);
        }
        UnivariatePolynomial { monomials: out, degree: None }
    }
}

/// The line `x - xj` as a term list.
pub open spec fn line_pair(xj: nat) -> Seq<(nat, nat)> {
    seq![(1nat, 1nat), (0nat, sub_f(0, xj))]
}

/// The Lagrange basis numerator for node `i`, built from the first `j`
/// nodes: the product of the lines through every other node.
pub open spec fn basis_numer(xs: Seq<nat>, i: int, j: int) -> Seq<(nat, nat)>
    decreases j,
{
    if j <= 0 {
        seq![(0nat, 1nat)]
    } else if i == j - 1 {
        basis_numer(xs, i, j - 1)
    } else {
        merged(cross(basis_numer(xs, i, j - 1), line_pair(xs[j - 1])))
    }
}

/// The matching denominator: the product of the node differences.
pub open spec fn basis_denom(xs: Seq<nat>, i: int, j: int) -> nat
    decreases j,
{
    if j <= 0 {
        1
    } else if i == j - 1 {
        basis_denom(xs, i, j - 1)
    } else {
        mul_f(basis_denom(xs, i, j - 1), sub_f(xs[i], xs[j - 1]))
    }
}

/// Every coefficient multiplied by a constant.
pub open spec fn scale_pairs(s: Seq<(nat, nat)>, a: nat) -> Seq<(nat, nat)> {
    s.map_values(|m: (nat, nat)| (m.0, mul_f(m.1, a)))
}

/// The Lagrange interpolation polynomial through the first `n` points:
/// the sum of each scaled basis numerator.
pub open spec fn interp_spec(xs: Seq<nat>, ys: Seq<nat>, n: int) -> Seq<(nat, nat)>
    decreases n,
{
    if n <= 0 {
        Seq::<(nat, nat)>::empty()
    } else {
        let num = basis_numer(xs, n - 1, xs.len() as int);
        let den = basis_denom(xs, n - 1, xs.len() as int);
        let a = mul_f(ys[n - 1], inv_f(den));
        merged(interp_spec(xs, ys, n - 1) + scale_pairs(num, a))
    }
}

/// Multiplies a polynomial by the line through one node.
fn multiply_by_line(numer: &UnivariatePolynomial, xj: Fe, Ghost(bound): Ghost<nat>) -> (r:
    UnivariatePolynomial)
    requires
        numer.wf(),
        xj.wf(),
        exps_below(numer@, bound),
        bound + 1 <= usize::MAX,
    ensures
        r.wf(),
        r@ == merged(cross(numer@, line_pair(xj.val()))),
        exps_below(r@, bound + 1),
        r.degree == Option::<u32>::None,
{
    let x_n = Monomial { exponent: 1, coefficients: Fe::one() };
    let x_j = Monomial { exponent: 0, coefficients: crate::field::fe_sub(Fe::zero(), xj) };
    let temp_poly = UnivariatePolynomial { monomials: vec![x_n, x_j], degree: None };
    proof {
        assert(temp_poly@ =~= line_pair(xj.val()));
        assert(exps_below(temp_poly@, 1));
        lemma_cross_exps_below(numer@, temp_poly@, bound, 1);
    }
    numer.multiply(&temp_poly)
}

/// The Lagrange basis numerator and denominator for one node.
#[verifier::rlimit(100)]
fn lagrange_basis(x: &Vec<Fe>, i: usize) -> (r: (UnivariatePolynomial, Fe))
    requires
        i < x@.len(),
        forall|j: int| 0 <= j < x@.len() ==> (#[trigger] x@[j]).wf(),
    ensures
        r.0.wf(),
        r.0@ == basis_numer(x@.map_values(|f: Fe| f.val()), i as int, x@.len() as int),
        exps_below(r.0@, x@.len() as nat),
        r.1.wf(),
        r.1.val() == basis_denom(x@.map_values(|f: Fe| f.val()), i as int, x@.len() as int),
{
    let ghost xs = x@.map_values(|f: Fe| f.val());
    let n = x.len();
    let mut denominator = Fe::one();
    let one_term = Monomial { exponent: 0, coefficients: Fe::one() };
    let mut numerator = UnivariatePolynomial { monomials: vec![one_term], degree: None };
    proof {
        assert(numerator@ =~= basis_numer(xs, i as int, 0));
    }
    let mut j: usize = 0;
    while j < n
        invariant
            j <= n,
            i < n,
            n == x@.len(),
            xs == x@.map_values(|f: Fe| f.val()),
            forall|t: int| 0 <= t < x@.len() ==> (#[trigger] x@[t]).wf(),
            numerator.wf(),
            numerator@ == basis_numer(xs, i as int, j as int),
            exps_below(numerator@, j as nat),
            denominator.wf(),
            denominator.val() == basis_denom(xs, i as int, j as int),
        decreases n - j,
    {
        if i != j {
            proof {
                assert(x@[j as int].val() == xs[j as int]);
                assert(x@[i as int].val() == xs[i as int]);
            }
            numerator = multiply_by_line(&numerator, x[j], Ghost(j as nat));
            denominator = crate::field::fe_mul(denominator, crate::field::fe_sub(x[i], x[j]));
        } else {
            proof {
                assert(exps_below(numerator@, j as nat + 1)) by {
                    assert(forall|t: int|
                        0 <= t < numerator@.len() ==> (#[trigger] numerator@[t]).0 <= j as nat);
                }
            }
        }
        j = j + 1;
    }
    proof {
        assert(exps_below(numerator@, n as nat)) by {
            assert(forall|t: int|
                0 <= t < numerator@.len() ==> (#[trigger] numerator@[t]).0 <= n as nat);
        }
    }
    (numerator, denominator)
}

/// Multiplies every coefficient by a constant.
fn scale_poly(poly: &UnivariatePolynomial, a: Fe) -> (r: UnivariatePolynomial)
    requires
        poly.wf(),
        a.wf(),
    ensures
        r.wf(),
        r@ == scale_pairs(poly@, a.val()),
        r.degree == Option::<u32>::None,
{
    let ghost target = scale_pairs(poly@, a.val());
    let mut scaled: Vec<Monomial> = Vec::new();
    let mut t: usize = 0;
    while t < poly.monomials.len()
        invariant
            t <= poly.monomials@.len(),
            poly.wf(),
            a.wf(),
            target == scale_pairs(poly@, a.val()),
            mons_wf(scaled@),
            scaled@.len() == t,
            mons_view(scaled@) == target.take(t as int),
        decreases poly.monomials@.len() - t,
    {
        let m = poly.monomials[t];
        let entry = Monomial {
            exponent: m.exponent,
            coefficients: crate::field::fe_mul(m.coefficients, a),
        };
        let ghost prev = scaled@;
        scaled.push(entry);
        proof {
            assert(poly@[t as int] == mono_view(poly.monomials@[t as int]));
            assert forall|u: int| 0 <= u < t + 1 implies mons_view(scaled@)[u] == target[u] by {
                assert(mons_view(scaled@)[u] == mono_view(scaled@[u]));
                assert(target[u] == (poly@[u].0, mul_f(poly@[u].1, a.val())));
                if u < t {
                    assert(scaled@[u] == prev[u]);
                    assert(mons_view(prev)[u] == mono_view(prev[u]));
                    assert(mons_view(prev)[u] == target.take(t as int)[u]);
                }
            }
            assert(mons_view(scaled@) =~= target.take(t + 1));
        }
        t = t + 1;
    }
    proof {
        assert(target.take(target.len() as int) =~= target);
    }
    UnivariatePolynomial { monomials: scaled, degree: None }
}

impl UnivariatePolynomial {
    /// Exact-point Lagrange interpolation in the field: the unique
    /// polynomial of degree under the number of nodes through the given
    /// points, built as the sum of scaled basis numerators.
    pub fn interpolate(x: Vec<Fe>, y: Vec<Fe>) -> (r: UnivariatePolynomial)
        requires
            x@.len() == y@.len(),
            forall|j: int| 0 <= j < x@.len() ==> (#[trigger] x@[j]).wf(),
            forall|j: int| 0 <= j < y@.len() ==> (#[trigger] y@[j]).wf(),
        ensures
            r.wf(),
            r@ == interp_spec(
                x@.map_values(|f: Fe| f.val()),
                y@.map_values(|f: Fe| f.val()),
                x@.len() as int,
            ),
            r.degree == Option::<u32>::None,
    {
        let ghost xs = x@.map_values(|f: Fe| f.val());
        let ghost ys = y@.map_values(|f: Fe| f.val());
        let n = x.len();
        let mut result = UnivariatePolynomial::default();
        proof {
            assert(result@ =~= interp_spec(xs, ys, 0));
        }
        let mut i: usize = 0;
        while i < n
            invariant
                i <= n,
                n == x@.len(),
                n == y@.len(),
                xs == x@.map_values(|f: Fe| f.val()),
                ys == y@.map_values(|f: Fe| f.val()),
                forall|j: int| 0 <= j < x@.len() ==> (#[trigger] x@[j]).wf(),
                forall|j: int| 0 <= j < y@.len() ==> (#[trigger] y@[j]).wf(),
                result.wf(),
                result@ == interp_spec(xs, ys, i as int),
                result.degree == Option::<u32>::None,
            decreases n - i,
        {
            let (numerator, denominator) = lagrange_basis(&x, i);
            let a = crate::field::fe_mul(y[i], crate::algebra::fe_invert(denominator));
            proof {
                assert(y@[i as int].val() == ys[i as int]);
            }
            let scaled_poly = scale_poly(&numerator, a);
            result = result.plus(&scaled_poly);
            i = i + 1;
        }
        result
    }
}

/// Raises a field element to a machine-integer power.
pub fn fe_pow(x: Fe, e: usize) -> (r: Fe)
    requires
        x.wf(),
    ensures
        r.wf(),
        r.val() == pow_f(x.val(), e as nat),
{
    let mut r = Fe::one();
    let mut i: usize = 0;
    while i < e
        invariant
            i <= e,
            x.wf(),
            r.wf(),
            r.val() == pow_f(x.val(), i as nat),
        decreases e - i,
    {
        r = crate::field::fe_mul(x, r);
        proof {
            crate::algebra::lemma_mul_f_comm(x.val(), pow_f(x.val(), i as nat));
        }
        i = i + 1;
    }
    r
}

/// Folds one term into collected terms, in place.
fn merge_push(acc: &mut Vec<Monomial>, m: Monomial)
    requires
        mons_wf(old(acc)@),
        m.coefficients.wf(),
        distinct_exps(mons_view(old(acc)@)),
    ensures
        mons_wf(final(acc)@),
        distinct_exps(mons_view(final(acc)@)),
        mons_view(final(acc)@) == merge_step(mons_view(old(acc)@), mono_view(m)),
{
    proof {
        lemma_merge_step_distinct(mons_view(acc@), mono_view(m));
    }
    let mut j: usize = 0;
    while j < acc.len()
        invariant
            j <= acc@.len(),
            acc@ == old(acc)@,
            mons_wf(acc@),
            m.coefficients.wf(),
            distinct_exps(mons_view(acc@)),
            forall|t: int| 0 <= t < j ==> (#[trigger] acc@[t]).exponent != m.exponent,
        decreases acc@.len() - j,
    {
        if acc[j].exponent == m.exponent {
            let summed = crate::field::fe_add(acc[j].coefficients, m.coefficients);
            let entry = Monomial { exponent: m.exponent, coefficients: summed };
            acc.set(j, entry);
            proof {
                let view0 = mons_view(old(acc)@);
                assert(view0[j as int].0 == mono_view(m).0);
                assert(has_exp(view0, mono_view(m).0));
                let w = exp_index(view0, mono_view(m).0);
                assert(0 <= w < view0.len() && view0[w].0 == mono_view(m).0);
                assert(w == j as int) by {
                    if w < j as int {
                        assert(view0[w].0 == old(acc)@[w].exponent as nat);
                        assert(old(acc)@[w].exponent != m.exponent);
                    } else if w > j as int {
                        assert(view0[j as int].0 == view0[w].0);
                    }
                }
                assert(mons_view(acc@) =~= merge_step(view0, mono_view(m)));
            }
            return ;
        }
        j = j + 1;
    }
    proof {
        assert(!has_exp(mons_view(acc@), mono_view(m).0)) by {
            if has_exp(mons_view(acc@), mono_view(m).0) {
                let w = exp_index(mons_view(acc@), mono_view(m).0);
                assert(0 <= w < acc@.len() && mons_view(acc@)[w].0 == mono_view(m).0);
                assert(acc@[w].exponent == m.exponent);
            }
        }
    }
    acc.push(m);
    proof {
        assert(mons_view(acc@) =~= merge_step(mons_view(old(acc)@), mono_view(m)));
    }
}

} // verus!
