//! Algebraic composition over evaluation-form polynomials: a product of
//! factor tables, and a sum of such products.  These are the shapes the
//! sumcheck engine works on.

use vstd::prelude::*;
use vstd::arithmetic::power2::pow2;
use crate::field::{add_f, mul_f, Fe};
use crate::evaluation_form::{
    all_wf, lemma_pe_iter_snoc, pe0, pe_iter, pe_seq, vals_of, EvaluationFormPolynomial,
};
use crate::hypercube::{boolean_hypercube, is_pow2, lemma_lg_pow2, lemma_pow2_lg, lg, table_vars};
use crate::PolyError;

verus! {

/// The pointwise product `fold(1, *)` of one table slot across a product's
/// factors, taken over the first two factors as the reduction does.
pub open spec fn product_entry(p: ProductPolynomial, i: int) -> nat {
    mul_f(p.factors()[0][i], p.factors()[1][i])
}

/// The full evaluation of a product at a point: each factor is partially
/// evaluated coordinate by coordinate and the resulting scalars multiplied.
pub open spec fn product_eval(fs: Seq<Seq<nat>>, point: Seq<nat>) -> nat
    decreases fs.len(),
{
    if fs.len() == 0 {
        1
    } else {
        mul_f(product_eval(fs.drop_last(), point), pe_iter(fs.last(), point)[0])
    }
}

/// An ordered list of evaluation-form factors, standing for their pointwise
/// product.
#[derive(Debug, Clone, PartialEq)]
pub struct ProductPolynomial {
    /// The factors.
    pub polyomials: Vec<EvaluationFormPolynomial>,
}

impl ProductPolynomial {
    /// The value tables of the factors.
    pub open spec fn factors(self) -> Seq<Seq<nat>> {
        self.polyomials@.map_values(|q: EvaluationFormPolynomial| q.vals())
    }

    /// Well-formed: every factor is.
    pub open spec fn wf(self) -> bool {
        forall|j: int| 0 <= j < self.polyomials@.len() ==> (#[trigger] self.polyomials@[j]).wf()
    }

    /// Wraps a list of factors.
    pub fn new(polyomials: Vec<EvaluationFormPolynomial>) -> (r: ProductPolynomial)
        ensures
            r.polyomials == polyomials,
    {
        ProductPolynomial { polyomials }
    }

    /// Appends one factor.
    pub fn add_polynomial(&mut self, poly: EvaluationFormPolynomial)
        ensures
            final(self).polyomials@ == old(self).polyomials@.push(poly),
    {
        self.polyomials.push(poly);
    }

    /// Appends a list of factors, in order.
    pub fn add_polynomials(&mut self, polys: Vec<EvaluationFormPolynomial>)
        ensures
            final(self).polyomials@ == old(self).polyomials@ + polys@,
    {
        let mut rest = polys;
        while rest.len() > 0
            invariant
                old(self).polyomials@ + polys@ == self.polyomials@ + rest@,
            decreases rest@.len(),
        {
            let p = rest.remove(0);
            self.polyomials.push(p);
            proof {
                assert(self.polyomials@ + rest@ =~= old(self).polyomials@ + polys@);
            }
        }
        proof {
            assert(final(self).polyomials@ =~= old(self).polyomials@ + polys@);
        }
    }

    /// The number of factors, which bounds the degree of the product in each
    /// variable.
    pub fn degree(&self) -> (r: usize)
        ensures
            r == self.polyomials@.len(),
    {
        self.polyomials.len()
    }

    /// Fixes the variable at `position` to `value` in every factor
    /// independently; rejects a position out of range for any factor.
    pub fn partial_evaluate(&self, value: Fe, position: usize) -> (r: Result<
        ProductPolynomial,
        PolyError,
    >)
        requires
            self.wf(),
            value.wf(),
        ensures
            match r {
                Ok(q) => {
                    &&& forall|j: int|
                        0 <= j < self.polyomials@.len() ==> position < (
                        #[trigger] self.polyomials@[j]).n_vars()
                    &&& q.wf()
                    &&& q.polyomials@.len() == self.polyomials@.len()
                    &&& forall|j: int|
                        0 <= j < q.polyomials@.len() ==> (#[trigger] q.factors()[j]) == pe_seq(
                            self.factors()[j],
                            value.val(),
                            pow2((self.polyomials@[j].n_vars() - 1 - position) as nat),
                        )
                    &&& forall|j: int|
                        0 <= j < q.polyomials@.len() ==> (#[trigger] q.polyomials@[j]).n_vars()
                            == self.polyomials@[j].n_vars() - 1
                },
                Err(e) => {
                    &&& e == PolyError::IndexOutOfRange
                    &&& exists|j: int|
                        0 <= j < self.polyomials@.len() && position >= (
                        #[trigger] self.polyomials@[j]).n_vars()
                },
            },
    {
        let mut result: Vec<EvaluationFormPolynomial> = Vec::new();
        let mut i: usize = 0;
        while i < self.polyomials.len()
            invariant
                i <= self.polyomials@.len(),
                self.wf(),
                value.wf(),
                result@.len() == i,
                forall|j: int|
                    0 <= j < i ==> position < (#[trigger] self.polyomials@[j]).n_vars(),
                forall|j: int| 0 <= j < i ==> (#[trigger] result@[j]).wf(),
                forall|j: int|
                    0 <= j < i ==> (#[trigger] result@[j]).vals() == pe_seq(
                        self.polyomials@[j].vals(),
                        value.val(),
                        pow2((self.polyomials@[j].n_vars() - 1 - position) as nat),
                    ),
                forall|j: int|
                    0 <= j < i ==> (#[trigger] result@[j]).n_vars() == self.polyomials@[j].n_vars()
                        - 1,
            decreases self.polyomials@.len() - i,
        {
            let poly = match self.polyomials[i].partial_evaluate(value, position) {
                Ok(q) => q,
                Err(_) => {
                    return Err(PolyError::IndexOutOfRange);
                },
            };
            result.push(poly);
            i = i + 1;
        }
        let q = ProductPolynomial { polyomials: result };
        proof {
            assert(forall|j: int|
                0 <= j < q.polyomials@.len() ==> (#[trigger] q.factors()[j]) == q.polyomials@[j].vals());
            assert(forall|j: int|
                0 <= j < q.polyomials@.len() ==> (#[trigger] self.factors()[j])
                    == self.polyomials@[j].vals());
        }
        Ok(q)
    }

    /// Evaluates the product at a full point: every factor is partially
    /// evaluated at each coordinate in turn, and the resulting scalars are
    /// multiplied; rejects a point longer than any factor's variable count.
    pub fn evaluate(&self, values: &Vec<Fe>) -> (r: Result<Fe, PolyError>)
        requires
            self.wf(),
            all_wf(values@),
        ensures
            match r {
                Ok(x) => {
                    &&& forall|j: int|
                        0 <= j < self.polyomials@.len() ==> (
                        #[trigger] self.polyomials@[j]).n_vars() >= values@.len()
                    &&& x.wf()
                    &&& x.val() == product_eval(self.factors(), vals_of(values@))
                },
                Err(e) => {
                    &&& e == PolyError::IndexOutOfRange
                    &&& exists|j: int|
                        0 <= j < self.polyomials@.len() && (#[trigger] self.polyomials@[j]).n_vars()
                            < values@.len()
                },
            },
    {
        let ghost point = vals_of(values@);
        let mut result = Fe::one();
        let mut i: usize = 0;
        while i < self.polyomials.len()
            invariant
                i <= self.polyomials@.len(),
                self.wf(),
                all_wf(values@),
                point == vals_of(values@),
                result.wf(),
                result.val() == product_eval(self.factors().take(i as int), point),
                forall|j: int|
                    0 <= j < i ==> (#[trigger] self.polyomials@[j]).n_vars() >= values@.len(),
            decreases self.polyomials@.len() - i,
        {
            let mut poly = self.polyomials[i].duplicate();
            let mut t: usize = 0;
            while t < values.len()
                invariant
                    t <= values@.len(),
                    all_wf(values@),
                    point == vals_of(values@),
                    i < self.polyomials@.len(),
                    self.wf(),
                    poly.wf(),
                    poly.vals() == pe_iter(self.polyomials@[i as int].vals(), point.take(t as int)),
                    poly.n_vars() == self.polyomials@[i as int].n_vars() - t,
                decreases values@.len() - t,
            {
                let next = match poly.partial_evaluate(values[t], 0) {
                    Ok(q) => q,
                    Err(_) => {
                        proof {
                            assert(self.polyomials@[i as int].n_vars() < values@.len());
                        }
                        return Err(PolyError::IndexOutOfRange);
                    },
                };
                proof {
                    assert(next.vals() == pe0(poly.vals(), point[t as int])) by {
                        assert(vals_of(values@)[t as int] == values@[t as int].val());
                    }
                    lemma_pe_iter_snoc(
                        self.polyomials@[i as int].vals(),
                        point.take(t as int),
                        point[t as int],
                    );
                    assert(point.take(t + 1) =~= point.take(t as int).push(point[t as int]));
                }
                poly = next;
                t = t + 1;
            }
            proof {
                assert(point.take(point.len() as int) =~= point);
                crate::hypercube::lemma_pow2_lg(poly.representation@.len() as nat);
            }
            let entry = poly.representation[0];
            result = crate::field::fe_mul(result, entry);
            proof {
                assert(vals_of(poly.representation@)[0] == poly.representation@[0].val());
                assert(self.factors().take(i + 1).drop_last() =~= self.factors().take(i as int));
                assert(self.factors().take(i + 1).last() == self.polyomials@[i as int].vals());
            }
            i = i + 1;
        }
        proof {
            assert(self.factors().take(self.factors().len() as int) =~= self.factors());
        }
        Ok(result)
    }

    /// Multiplies the first two factor tables slot by slot into a single
    /// factor; a single factor passes through unchanged; any other factor
    /// count, or disagreeing factor lengths, is rejected.
    pub fn reduce(&self) -> (r: Result<ProductPolynomial, PolyError>)
        requires
            self.wf(),
        ensures
            match r {
                Ok(q) => {
                    &&& q.wf()
                    &&& if self.polyomials@.len() == 1 {
                        &&& q.polyomials@.len() == 1
                        &&& q.factors() == self.factors()
                    } else {
                        &&& self.polyomials@.len() == 2
                        &&& self.factors()[0].len() == self.factors()[1].len()
                        &&& q.polyomials@.len() == 1
                        &&& q.factors()[0] == Seq::new(
                            self.factors()[0].len(),
                            |i: int| product_entry(*self, i),
                        )
                    }
                },
                Err(e) => {
                    &&& e == PolyError::ArityMismatch
                    &&& self.polyomials@.len() != 1
                    &&& (self.polyomials@.len() != 2 || self.factors()[0].len()
                        != self.factors()[1].len())
                },
            },
    {
        if self.polyomials.len() == 1 {
            let q = ProductPolynomial { polyomials: vec![self.polyomials[0].duplicate()] };
            proof {
                assert(q.factors() =~= self.factors());
            }
            return Ok(q);
        }
        if self.polyomials.len() != 2 {
            return Err(PolyError::ArityMismatch);
        }
        if self.polyomials[0].representation.len() != self.polyomials[1].representation.len() {
            return Err(PolyError::ArityMismatch);
        }
        let f0 = &self.polyomials[0];
        let f1 = &self.polyomials[1];
        let mut rep: Vec<Fe> = Vec::new();
        let mut i: usize = 0;
        while i < f0.representation.len()
            invariant
                i <= f0.representation@.len(),
                f0 == self.polyomials@[0],
                f1 == self.polyomials@[1],
                self.wf(),
                self.polyomials@.len() == 2,
                f0.representation@.len() == f1.representation@.len(),
                rep@.len() == i,
                all_wf(rep@),
                forall|j: int|
                    0 <= j < i ==> vals_of(rep@)[j] == mul_f(f0.vals()[j], f1.vals()[j]),
            decreases f0.representation@.len() - i,
        {
            let v = crate::field::fe_mul(f0.representation[i], f1.representation[i]);
            let ghost prev = rep@;
            rep.push(v);
            proof {
                assert forall|j: int| 0 <= j < i + 1 implies vals_of(rep@)[j] == mul_f(
                    f0.vals()[j],
                    f1.vals()[j],
                ) by {
                    assert(vals_of(rep@)[j] == rep@[j].val());
                    if j < i {
                        assert(rep@[j] == prev[j]);
                        assert(vals_of(prev)[j] == prev[j].val());
                    }
                }
            }
            i = i + 1;
        }
        proof {
            lemma_pow2_lg(f0.representation@.len() as nat);
        }
        let n = table_vars(rep.len());
        let hypercube = boolean_hypercube(n);
        let factor = EvaluationFormPolynomial { representation: rep, hypercube };
        let q = ProductPolynomial { polyomials: vec![factor] };
        proof {
            assert(q.factors()[0] =~= Seq::new(
                self.factors()[0].len(),
                |i: int| product_entry(*self, i),
            ));
        }
        Ok(q)
    }
    /// The outer sum over the concatenation of the first two factors'
    /// hypercubes: slot `i * len1 + j` holds `f0[i] + f1[j]`; rejects fewer
    /// than two factors.
    pub fn sum_poly(&self) -> (r: Result<EvaluationFormPolynomial, PolyError>)
        requires
            self.wf(),
            self.polyomials@.len() >= 2 ==> self.factors()[0].len() * self.factors()[1].len()
                <= usize::MAX,
        ensures
            match r {
                Ok(q) => {
                    &&& self.polyomials@.len() >= 2
                    &&& q.wf()
                    &&& q.vals() == outer_table(self.factors()[0], self.factors()[1], false)
                },
                Err(e) => {
                    &&& e == PolyError::ArityMismatch
                    &&& self.polyomials@.len() < 2
                },
            },
    {
        if self.polyomials.len() < 2 {
            return Err(PolyError::ArityMismatch);
        }
        Ok(outer_combine(&self.polyomials[0], &self.polyomials[1], false))
    }

    /// The outer product over the concatenation of the first two factors'
    /// hypercubes: slot `i * len1 + j` holds `f0[i] * f1[j]`; rejects fewer
    /// than two factors.
    pub fn mul_poly(&self) -> (r: Result<EvaluationFormPolynomial, PolyError>)
        requires
            self.wf(),
            self.polyomials@.len() >= 2 ==> self.factors()[0].len() * self.factors()[1].len()
                <= usize::MAX,
        ensures
            match r {
                Ok(q) => {
                    &&& self.polyomials@.len() >= 2
                    &&& q.wf()
                    &&& q.vals() == outer_table(self.factors()[0], self.factors()[1], true)
                },
                Err(e) => {
                    &&& e == PolyError::ArityMismatch
                    &&& self.polyomials@.len() < 2
                },
            },
    {
        if self.polyomials.len() < 2 {
            return Err(PolyError::ArityMismatch);
        }
        Ok(outer_combine(&self.polyomials[0], &self.polyomials[1], true))
    }
}

/// The table of an outer combination: slot `t` combines `a[t / b.len()]`
/// with `b[t % b.len()]`, by product or by sum.
pub open spec fn outer_table(a: Seq<nat>, b: Seq<nat>, mul: bool) -> Seq<nat> {
    Seq::new(
        a.len() * b.len(),
        |t: int|
            if mul {
                mul_f(a[t / b.len() as int], b[t % b.len() as int])
            } else {
                add_f(a[t / b.len() as int], b[t % b.len() as int])
            },
    )
}

/// Builds the outer combination of two evaluation-form polynomials over the
/// concatenation of their hypercubes.
#[verifier::loop_isolation(false)]
fn outer_combine(f0: &EvaluationFormPolynomial, f1: &EvaluationFormPolynomial, mul: bool) -> (q:
    EvaluationFormPolynomial)
    requires
        f0.wf(),
        f1.wf(),
        f0.vals().len() * f1.vals().len() <= usize::MAX,
    ensures
        q.wf(),
        q.vals() == outer_table(f0.vals(), f1.vals(), mul),
        q.n_vars() == f0.n_vars() + f1.n_vars(),
{
    let l0 = f0.representation.len();
    let l1 = f1.representation.len();
    proof {
        lemma_pow2_lg(l0 as nat);
        lemma_pow2_lg(l1 as nat);
        vstd::arithmetic::power2::lemma_pow2_adds(f0.n_vars(), f1.n_vars());
        assert(l0 * l1 == pow2(f0.n_vars() + f1.n_vars())) by (nonlinear_arith)
            requires
                l0 == pow2(f0.n_vars()),
                l1 == pow2(f1.n_vars()),
                pow2(f0.n_vars() + f1.n_vars()) == pow2(f0.n_vars()) * pow2(f1.n_vars()),
        ;
        vstd::arithmetic::power2::lemma_pow2_pos(f1.n_vars());
    }
    let ghost target = outer_table(f0.vals(), f1.vals(), mul);
    let mut rep: Vec<Fe> = Vec::new();
    let mut i: usize = 0;
    while i < l0
        invariant
            i <= l0,
            rep@.len() == i * l1,
            all_wf(rep@),
            forall|t: int| 0 <= t < i * l1 ==> vals_of(rep@)[t] == target[t],
        decreases l0 - i,
    {
        let mut j: usize = 0;
        proof {
            lemma_mul_ordered(i as int, l0 as int, l1 as int);
        }
        while j < l1
            invariant
                j <= l1,
                i < l0,
                rep@.len() == i * l1 + j,
                i * l1 + l1 <= l0 * l1,
                all_wf(rep@),
                forall|t: int| 0 <= t < i * l1 + j ==> vals_of(rep@)[t] == target[t],
            decreases l1 - j,
        {
            let first = f0.representation[i];
            let second = f1.representation[j];
            let v = if mul {
                crate::field::fe_mul(first, second)
            } else {
                crate::field::fe_add(first, second)
            };
            let ghost prev = rep@;
            rep.push(v);
            proof {
                let t = (i * l1 + j) as int;
                vstd::arithmetic::div_mod::lemma_fundamental_div_mod_converse(
                    t,
                    l1 as int,
                    i as int,
                    j as int,
                );
                assert(0 <= t < target.len());
                assert(vals_of(rep@)[t] == rep@[t].val());
                assert(f0.vals()[i as int] == f0.representation@[i as int].val());
                assert(f1.vals()[j as int] == f1.representation@[j as int].val());
                assert(vals_of(rep@)[t] == target[t]);
                assert forall|u: int| 0 <= u < t + 1 implies vals_of(rep@)[u] == target[u] by {
                    assert(vals_of(rep@)[u] == rep@[u].val());
                    if u < t {
                        assert(rep@[u] == prev[u]);
                        assert(vals_of(prev)[u] == prev[u].val());
                    }
                }
            }
            j = j + 1;
        }
        i = i + 1;
        proof {
            assert(i * l1 == (i - 1) * l1 + l1) by (nonlinear_arith);
        }
    }
    proof {
        assert(rep@.len() == l0 * l1);
        assert(vals_of(rep@) =~= target);
        crate::hypercube::lemma_lg_pow2(f0.n_vars() + f1.n_vars());
    }
    let n = table_vars_of_product(f0, f1);
    let hypercube = boolean_hypercube(n);
    EvaluationFormPolynomial { representation: rep, hypercube }
}

/// The variable count of a power-of-two table is under the word size.
proof fn lemma_n_vars_small(len: nat)
    requires
        is_pow2(len),
        len <= usize::MAX,
    ensures
        lg(len) < 64,
{
    lemma_pow2_lg(len);
    vstd::arithmetic::power2::lemma2_to64();
    if lg(len) >= 64 {
        if lg(len) > 64 {
            vstd::arithmetic::power2::lemma_pow2_strictly_increases(64, lg(len));
        }
        assert(pow2(lg(len)) >= pow2(64));
        assert(false);
    }
}

/// The variable count of an outer combination.
fn table_vars_of_product(f0: &EvaluationFormPolynomial, f1: &EvaluationFormPolynomial) -> (n:
    usize)
    requires
        f0.wf(),
        f1.wf(),
    ensures
        n as nat == f0.n_vars() + f1.n_vars(),
{
    let l0 = f0.representation.len();
    let l1 = f1.representation.len();
    proof {
        lemma_n_vars_small(l0 as nat);
        lemma_n_vars_small(l1 as nat);
        lemma_pow2_lg(l0 as nat);
        lemma_pow2_lg(l1 as nat);
    }
    let n0 = table_vars(l0);
    let n1 = table_vars(l1);
    n0 + n1
}

/// The slotwise reduction of a sum of two-factor products: slot `i` sums,
/// across the products, the product of the first two factors at that slot.
pub open spec fn reduce_entry(prods: Seq<ProductPolynomial>, i: int) -> nat
    decreases prods.len(),
{
    if prods.len() == 0 {
        0
    } else {
        add_f(reduce_entry(prods.drop_last(), i), product_entry(prods.last(), i))
    }
}

/// The shape the reduction needs: every product brings at least two
/// factors, the first two of the common length.
pub open spec fn reduce_shape(prods: Seq<ProductPolynomial>, len: nat) -> bool {
    forall|j: int|
        0 <= j < prods.len() ==> {
            &&& (#[trigger] prods[j]).polyomials@.len() >= 2
            &&& prods[j].factors()[0].len() == len
            &&& prods[j].factors()[1].len() == len
        }
}

/// Every factor of the product has the fixed position in range.
pub open spec fn pp_position_ok(pp: ProductPolynomial, position: nat) -> bool {
    forall|k: int|
        0 <= k < pp.polyomials@.len() ==> position < (#[trigger] pp.polyomials@[k]).n_vars()
}

/// What partial evaluation does to one product: each factor's table is
/// blended pairwise and loses one variable.
pub open spec fn pp_pe_post(
    orig: ProductPolynomial,
    new: ProductPolynomial,
    r: nat,
    position: nat,
) -> bool {
    &&& new.polyomials@.len() == orig.polyomials@.len()
    &&& forall|k: int|
        0 <= k < new.polyomials@.len() ==> (#[trigger] new.factors()[k]) == pe_seq(
            orig.factors()[k],
            r,
            pow2((orig.polyomials@[k].n_vars() - 1 - position) as nat),
        )
    &&& forall|k: int|
        0 <= k < new.polyomials@.len() ==> (#[trigger] new.polyomials@[k]).n_vars()
            == orig.polyomials@[k].n_vars() - 1
}

/// An ordered list of products, standing for their pointwise sum.
#[derive(Debug, Clone, PartialEq)]
pub struct SumPolynomial {
    /// The summed products.
    pub polyomials: Vec<ProductPolynomial>,
}

impl SumPolynomial {
    /// Well-formed: every product is.
    pub open spec fn wf(self) -> bool {
        forall|j: int| 0 <= j < self.polyomials@.len() ==> (#[trigger] self.polyomials@[j]).wf()
    }

    /// Wraps a list of products.
    pub fn new(polyomials: Vec<ProductPolynomial>) -> (r: SumPolynomial)
        ensures
            r.polyomials == polyomials,
    {
        SumPolynomial { polyomials }
    }

    /// Appends one product.
    pub fn add_polynomial(&mut self, poly: ProductPolynomial)
        ensures
            final(self).polyomials@ == old(self).polyomials@.push(poly),
    {
        self.polyomials.push(poly);
    }

    /// Appends a list of products, in order.
    pub fn add_polynomials(&mut self, polys: Vec<ProductPolynomial>)
        ensures
            final(self).polyomials@ == old(self).polyomials@ + polys@,
    {
        let mut rest = polys;
        while rest.len() > 0
            invariant
                old(self).polyomials@ + polys@ == self.polyomials@ + rest@,
            decreases rest@.len(),
        {
            let p = rest.remove(0);
            self.polyomials.push(p);
            proof {
                assert(self.polyomials@ + rest@ =~= old(self).polyomials@ + polys@);
            }
        }
        proof {
            assert(final(self).polyomials@ =~= old(self).polyomials@ + polys@);
        }
    }

    /// Fixes the variable at `position` to `value` in every product;
    /// rejects a position out of range anywhere.
    pub fn partial_evaluate(&self, value: Fe, position: usize) -> (r: Result<
        SumPolynomial,
        PolyError,
    >)
        requires
            self.wf(),
            value.wf(),
        ensures
            match r {
                Ok(q) => {
                    &&& forall|j: int|
                        0 <= j < self.polyomials@.len() ==> pp_position_ok(
                            #[trigger] self.polyomials@[j],
                            position as nat,
                        )
                    &&& q.wf()
                    &&& q.polyomials@.len() == self.polyomials@.len()
                    &&& forall|j: int|
                        0 <= j < q.polyomials@.len() ==> pp_pe_post(
                            self.polyomials@[j],
                            #[trigger] q.polyomials@[j],
                            value.val(),
                            position as nat,
                        )
                },
                Err(e) => {
                    &&& e == PolyError::IndexOutOfRange
                    &&& exists|j: int|
                        0 <= j < self.polyomials@.len() && !pp_position_ok(
                            #[trigger] self.polyomials@[j],
                            position as nat,
                        )
                },
            },
    {
        let mut result: Vec<ProductPolynomial> = Vec::new();
        let mut i: usize = 0;
        while i < self.polyomials.len()
            invariant
                i <= self.polyomials@.len(),
                self.wf(),
                value.wf(),
                result@.len() == i,
                forall|j: int|
                    0 <= j < i ==> pp_position_ok(#[trigger] self.polyomials@[j], position as nat),
                forall|j: int| 0 <= j < i ==> (#[trigger] result@[j]).wf(),
                forall|j: int|
                    0 <= j < i ==> pp_pe_post(
                        self.polyomials@[j],
                        #[trigger] result@[j],
                        value.val(),
                        position as nat,
                    ),
            decreases self.polyomials@.len() - i,
        {
            let evaluated = match self.polyomials[i].partial_evaluate(value, position) {
                Ok(q) => q,
                Err(_) => {
                    proof {
                        assert(!pp_position_ok(self.polyomials@[i as int], position as nat));
                    }
                    return Err(PolyError::IndexOutOfRange);
                },
            };
            result.push(evaluated);
            i = i + 1;
        }
        Ok(SumPolynomial { polyomials: result })
    }

    /// Reduces the sum of two-factor products to a single one-factor
    /// product: slot by slot, the first two factors of every product are
    /// multiplied and the results summed across the products.  Rejects an
    /// empty sum, a product with fewer than two factors, and factor lengths
    /// that disagree.
    pub fn reduce(&self) -> (r: Result<SumPolynomial, PolyError>)
        requires
            self.wf(),
        ensures
            match r {
                Ok(q) => {
                    &&& self.polyomials@.len() >= 1
                    &&& reduce_shape(self.polyomials@, self.polyomials@[0].factors()[0].len())
                    &&& q.wf()
                    &&& q.polyomials@.len() == 1
                    &&& q.polyomials@[0].polyomials@.len() == 1
                    &&& q.polyomials@[0].factors()[0] == Seq::new(
                        self.polyomials@[0].factors()[0].len(),
                        |i: int| reduce_entry(self.polyomials@, i),
                    )
                },
                Err(e) => {
                    &&& e == PolyError::ArityMismatch
                    &&& (self.polyomials@.len() == 0 || !reduce_shape(
                        self.polyomials@,
                        self.polyomials@[0].factors()[0].len(),
                    ))
                },
            },
    {
        if self.polyomials.len() == 0 {
            return Err(PolyError::ArityMismatch);
        }
        if self.polyomials[0].polyomials.len() < 2 {
            return Err(PolyError::ArityMismatch);
        }
        let expected_len = self.polyomials[0].polyomials[0].representation.len();
        let mut j: usize = 0;
        while j < self.polyomials.len()
            invariant
                j <= self.polyomials@.len(),
                self.wf(),
                expected_len as nat == self.polyomials@[0].factors()[0].len(),
                forall|t: int|
                    0 <= t < j ==> {
                        &&& (#[trigger] self.polyomials@[t]).polyomials@.len() >= 2
                        &&& self.polyomials@[t].factors()[0].len() == expected_len
                        &&& self.polyomials@[t].factors()[1].len() == expected_len
                    },
            decreases self.polyomials@.len() - j,
        {
            if self.polyomials[j].polyomials.len() < 2 {
                proof {
                    assert(!reduce_shape(self.polyomials@, expected_len as nat));
                }
                return Err(PolyError::ArityMismatch);
            }
            if self.polyomials[j].polyomials[0].representation.len() != expected_len
                || self.polyomials[j].polyomials[1].representation.len() != expected_len {
                proof {
                    assert(!reduce_shape(self.polyomials@, expected_len as nat));
                }
                return Err(PolyError::ArityMismatch);
            }
            j = j + 1;
        }
        let ghost prods = self.polyomials@;
        let mut rep: Vec<Fe> = Vec::new();
        let mut i: usize = 0;
        while i < expected_len
            invariant
                i <= expected_len,
                self.wf(),
                reduce_shape(prods, expected_len as nat),
                prods == self.polyomials@,
                prods.len() >= 1,
                expected_len as nat == self.polyomials@[0].factors()[0].len(),
                rep@.len() == i,
                all_wf(rep@),
                forall|t: int| 0 <= t < i ==> vals_of(rep@)[t] == reduce_entry(prods, t),
            decreases expected_len - i,
        {
            let mut sum = Fe::zero();
            let mut t: usize = 0;
            while t < self.polyomials.len()
                invariant
                    t <= self.polyomials@.len(),
                    self.wf(),
                    reduce_shape(prods, expected_len as nat),
                    prods == self.polyomials@,
                    i < expected_len,
                    expected_len as nat == self.polyomials@[0].factors()[0].len(),
                    sum.wf(),
                    sum.val() == reduce_entry(prods.take(t as int), i as int),
                decreases self.polyomials@.len() - t,
            {
                proof {
                    assert(self.polyomials@[t as int].wf());
                    assert(self.polyomials@[t as int].factors()[0]
                        == self.polyomials@[t as int].polyomials@[0].vals());
                    assert(self.polyomials@[t as int].factors()[1]
                        == self.polyomials@[t as int].polyomials@[1].vals());
                }
                let eval = crate::field::fe_mul(
                    self.polyomials[t].polyomials[0].representation[i],
                    self.polyomials[t].polyomials[1].representation[i],
                );
                sum = crate::field::fe_add(sum, eval);
                proof {
                    let pp = prods[t as int];
                    assert(pp.polyomials@[0].vals()[i as int]
                        == pp.polyomials@[0].representation@[i as int].val());
                    assert(pp.polyomials@[1].vals()[i as int]
                        == pp.polyomials@[1].representation@[i as int].val());
                    assert(prods.take(t + 1).drop_last() =~= prods.take(t as int));
                    assert(prods.take(t + 1).last() == pp);
                    assert(eval.val() == product_entry(pp, i as int));
                }
                t = t + 1;
            }
            proof {
                assert(prods.take(prods.len() as int) =~= prods);
            }
            let ghost prev = rep@;
            rep.push(sum);
            proof {
                assert forall|u: int| 0 <= u < i + 1 implies vals_of(rep@)[u] == reduce_entry(
                    prods,
                    u,
                ) by {
                    assert(vals_of(rep@)[u] == rep@[u].val());
                    if u < i {
                        assert(rep@[u] == prev[u]);
                        assert(vals_of(prev)[u] == prev[u].val());
                    }
                }
            }
            i = i + 1;
        }
        proof {
            assert(is_pow2(expected_len as nat)) by {
                assert(self.polyomials@[0].polyomials@[0].wf());
            }
            lemma_pow2_lg(expected_len as nat);
        }
        let n = table_vars(expected_len);
        let hypercube = boolean_hypercube(n);
        let factor = EvaluationFormPolynomial { representation: rep, hypercube };
        let product = ProductPolynomial { polyomials: vec![factor] };
        let q = SumPolynomial { polyomials: vec![product] };
        proof {
            assert(q.polyomials@[0].factors()[0] =~= Seq::new(
                self.polyomials@[0].factors()[0].len(),
                |i: int| reduce_entry(self.polyomials@, i),
            ));
        }
        Ok(q)
    }
}

/// Products stay ordered under multiplication by a common positive factor.
pub proof fn lemma_mul_ordered_pub(i: int, l0: int, l1: int)
    requires
        0 <= i < l0,
        l1 >= 0,
    ensures
        i * l1 + l1 <= l0 * l1,
{
    lemma_mul_ordered(i, l0, l1);
}

/// Products stay ordered under multiplication by a common positive factor.
proof fn lemma_mul_ordered(i: int, l0: int, l1: int)
    requires
        0 <= i < l0,
        l1 >= 0,
    ensures
        i * l1 + l1 <= l0 * l1,
{
    assert(i * l1 + l1 <= l0 * l1) by (nonlinear_arith)
        requires
            0 <= i < l0,
            l1 >= 0,
    ;
}

} // verus!
