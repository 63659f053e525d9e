//! Dense multilinear polynomials in evaluation form: a table of field values
//! over the boolean hypercube, index-aligned with the hypercube's labels.
//! Partial evaluation fixes one variable by the multilinear affine identity
//! `(1 - r) * v0 + r * v1` and halves the table.

use vstd::prelude::*;
use vstd::arithmetic::power2::{lemma_pow2_adds, pow2};
use vstd::arithmetic::div_mod::lemma_fundamental_div_mod_converse;
use vstd::arithmetic::mul::lemma_mul_inequality;
use crate::field::{add_f, mul_f, sub_f, Fe};
use crate::hypercube::{
    bits_string, boolean_hypercube, is_pow2, is_power_of_two, lemma_pow2_lg, lg, pow2_exec,
    table_vars,
};
use crate::PolyError;

verus! {

/// The canonical representatives of a table of field elements.
pub open spec fn vals_of(s: Seq<Fe>) -> Seq<nat> {
    s.map_values(|f: Fe| f.val())
}

/// Every element of the table is a canonical representative.
pub open spec fn all_wf(s: Seq<Fe>) -> bool {
    forall|k: int| 0 <= k < s.len() ==> #[trigger] s[k].wf()
}

/// The table slot holding the 0-branch of result slot `k` when the fixed
/// variable separates partners by a stride of `s` slots.
pub open spec fn pair_index(k: int, s: nat) -> int {
    2 * (k / s as int) * (s as int) + k % (s as int)
}

/// One step of partial evaluation on the value table: result slot `k` blends
/// the two table slots that differ only in the fixed variable.
pub open spec fn pe_seq(v: Seq<nat>, r: nat, s: nat) -> Seq<nat> {
    Seq::new(
        v.len() / 2,
        |k: int|
            add_f(
                mul_f(sub_f(1, r), v[pair_index(k, s)]),
                mul_f(r, v[pair_index(k, s) + s]),
            ),
    )
}

/// A multilinear polynomial over `n` free variables, given by its values on
/// the `2^n` points of the boolean hypercube, with the matching labels.
#[derive(Debug, Clone, PartialEq)]
pub struct EvaluationFormPolynomial {
    /// The value table, indexed by the hypercube point read as an integer.
    pub representation: Vec<Fe>,
    /// The binary label of each index, most significant bit first.
    pub hypercube: Vec<String>,
}

impl EvaluationFormPolynomial {
    /// The canonical representatives of the value table.
    pub open spec fn vals(self) -> Seq<nat> {
        vals_of(self.representation@)
    }

    /// The number of free variables.
    pub open spec fn n_vars(self) -> nat {
        lg(self.representation@.len() as nat)
    }

    /// Well-formed: a power-of-two table of canonical values, labelled by
    /// the hypercube of the matching dimension in ascending order.
    pub open spec fn wf(self) -> bool {
        &&& is_pow2(self.representation@.len() as nat)
        &&& all_wf(self.representation@)
        &&& self.hypercube@.len() == self.representation@.len()
        &&& forall|k: int|
            0 <= k < self.hypercube@.len() ==> self.hypercube@[k]@ == bits_string(
                k as nat,
                self.n_vars(),
            )
    }

    /// The empty polynomial, a seed for accumulation.
    pub fn default() -> (r: EvaluationFormPolynomial)
        ensures
            r.representation@.len() == 0,
            r.hypercube@.len() == 0,
    {
        EvaluationFormPolynomial { representation: Vec::new(), hypercube: Vec::new() }
    }

    /// Wraps a value table whose length is a power of two, labelling it with
    /// the boolean hypercube; rejects any other length.
    pub fn new(values: &Vec<Fe>) -> (r: Result<EvaluationFormPolynomial, PolyError>)
        requires
            all_wf(values@),
        ensures
            match r {
                Ok(p) => {
                    &&& is_pow2(values@.len() as nat)
                    &&& p.wf()
                    &&& p.representation@ == values@
                },
                Err(e) => {
                    &&& e == PolyError::InvalidLength
                    &&& !is_pow2(values@.len() as nat)
                },
            },
    {
        if !is_power_of_two(values.len()) {
            return Err(PolyError::InvalidLength);
        }
        proof {
            lemma_pow2_lg(values@.len() as nat);
        }
        let n = table_vars(values.len());
        let hypercube = boolean_hypercube(n);
        Ok(EvaluationFormPolynomial { representation: copy_fe_vec(values), hypercube })
    }

    /// Fixes the variable at `position` to the field value `values`,
    /// returning the polynomial of half the length on the remaining
    /// variables; rejects a position at or past the number of variables.
    pub fn partial_evaluate(&self, values: Fe, position: usize) -> (r: Result<
        EvaluationFormPolynomial,
        PolyError,
    >)
        requires
            self.wf(),
            values.wf(),
        ensures
            match r {
                Ok(q) => {
                    &&& position < self.n_vars()
                    &&& q.wf()
                    &&& q.n_vars() == self.n_vars() - 1
                    &&& q.vals() == pe_seq(
                        self.vals(),
                        values.val(),
                        pow2((self.n_vars() - 1 - position) as nat),
                    )
                },
                Err(e) => {
                    &&& e == PolyError::IndexOutOfRange
                    &&& position >= self.n_vars()
                },
            },
    {
        let n = table_vars(self.representation.len());
        if position >= n {
            return Err(PolyError::IndexOutOfRange);
        }
        proof {
            lemma_pow2_lg(self.representation@.len() as nat);
        }
        let rep = pe_table(&self.representation, values, n - 1 - position, n);
        proof {
            crate::hypercube::lemma_lg_pow2((n - 1) as nat);
            vstd::arithmetic::power2::lemma_pow2_strictly_increases((n - 1) as nat, n as nat);
            lemma_pow2_lg(rep@.len() as nat);
        }
        let hypercube = boolean_hypercube(n - 1);
        Ok(EvaluationFormPolynomial { representation: rep, hypercube })
    }

    /// A fresh polynomial with the same values and labels.
    pub fn duplicate(&self) -> (r: EvaluationFormPolynomial)
        ensures
            r.representation@ == self.representation@,
            r.hypercube@.len() == self.hypercube@.len(),
            forall|k: int| 0 <= k < r.hypercube@.len() ==> r.hypercube@[k]@ == self.hypercube@[k]@,
            self.wf() ==> r.wf(),
    {
        EvaluationFormPolynomial {
            representation: copy_fe_vec(&self.representation),
            hypercube: copy_string_vec(&self.hypercube),
        }
    }

    /// Pointwise sum with a table of the same length; rejects other lengths.
    pub fn add(&self, other: &EvaluationFormPolynomial) -> (r: Result<
        EvaluationFormPolynomial,
        PolyError,
    >)
        requires
            self.wf(),
            other.wf(),
        ensures
            match r {
                Ok(q) => {
                    &&& self.vals().len() == other.vals().len()
                    &&& q.wf()
                    &&& q.n_vars() == self.n_vars()
                    &&& q.vals() == Seq::new(
                        self.vals().len(),
                        |k: int| add_f(self.vals()[k], other.vals()[k]),
                    )
                },
                Err(e) => {
                    &&& e == PolyError::LengthMismatch
                    &&& self.vals().len() != other.vals().len()
                },
            },
    {
        if self.representation.len() != other.representation.len() {
            return Err(PolyError::LengthMismatch);
        }
        let mut rep: Vec<Fe> = Vec::new();
        let mut k: usize = 0;
        while k < self.representation.len()
            invariant
                k <= self.representation@.len(),
                self.representation@.len() == other.representation@.len(),
                all_wf(self.representation@),
                all_wf(other.representation@),
                rep@.len() == k,
                all_wf(rep@),
                forall|j: int|
                    0 <= j < k ==> vals_of(rep@)[j] == add_f(self.vals()[j], other.vals()[j]),
            decreases self.representation@.len() - k,
        {
            let v = crate::field::fe_add(self.representation[k], other.representation[k]);
            let ghost prev = rep@;
            rep.push(v);
            proof {
                assert forall|j: int| 0 <= j < k + 1 implies vals_of(rep@)[j] == add_f(
                    self.vals()[j],
                    other.vals()[j],
                ) by {
                    assert(vals_of(rep@)[j] == rep@[j].val());
                    if j < k {
                        assert(rep@[j] == prev[j]);
                        assert(vals_of(prev)[j] == prev[j].val());
                    }
                }
            }
            k = k + 1;
        }
        proof {
            lemma_pow2_lg(self.representation@.len() as nat);
        }
        let n = table_vars(self.representation.len());
        let hypercube = boolean_hypercube(n);
        proof {
            assert(vals_of(rep@) =~= Seq::new(
                self.vals().len(),
                |k: int| add_f(self.vals()[k], other.vals()[k]),
            ));
        }
        Ok(EvaluationFormPolynomial { representation: rep, hypercube })
    }
}

/// A fresh vector holding the same label strings.
pub fn copy_string_vec(labels: &Vec<String>) -> (r: Vec<String>)
    ensures
        r@.len() == labels@.len(),
        forall|k: int| 0 <= k < r@.len() ==> r@[k]@ == labels@[k]@,
{
    let mut r: Vec<String> = Vec::new();
    let mut i: usize = 0;
    while i < labels.len()
        invariant
            i <= labels@.len(),
            r@.len() == i,
            forall|k: int| 0 <= k < i ==> r@[k]@ == labels@[k]@,
        decreases labels@.len() - i,
    {
        r.push(labels[i].clone());
        i = i + 1;
    }
    r
}

/// A fresh table with the same field elements.
pub fn copy_fe_vec(values: &Vec<Fe>) -> (r: Vec<Fe>)
    ensures
        r@ == values@,
{
    let mut r: Vec<Fe> = Vec::new();
    let mut i: usize = 0;
    while i < values.len()
        invariant
            i <= values@.len(),
            r@ == values@.subrange(0, i as int),
        decreases values@.len() - i,
    {
        r.push(values[i]);
        i = i + 1;
        proof {
            assert(values@.subrange(0, i as int) =~= values@.subrange(0, i - 1).push(
                values@[i - 1],
            ));
        }
    }
    proof {
        assert(values@.subrange(0, values@.len() as int) =~= values@);
    }
    r
}

/// Partial evaluation of the first variable: the pair of result slot `k`
/// is `(k, k + half)`.
pub open spec fn pe0(v: Seq<nat>, r: nat) -> Seq<nat> {
    pe_seq(v, r, pow2((lg(v.len() as nat) - 1) as nat))
}

/// Iterated partial evaluation of the first variable, one coordinate of the
/// point after the other.
pub open spec fn pe_iter(v: Seq<nat>, point: Seq<nat>) -> Seq<nat>
    decreases point.len(),
{
    if point.len() == 0 {
        v
    } else {
        pe_iter(pe0(v, point[0]), point.drop_first())
    }
}

/// Iterated partial evaluation peels coordinates off the front, so fixing
/// one more coordinate at the back is one more `pe0` after the rest.
pub proof fn lemma_pe_iter_snoc(v: Seq<nat>, s: Seq<nat>, r: nat)
    ensures
        pe_iter(v, s.push(r)) == pe0(pe_iter(v, s), r),
    decreases s.len(),
{
    if s.len() == 0 {
        assert(s.push(r)[0] == r);
        assert(s.push(r).drop_first() =~= Seq::<nat>::empty());
        assert(pe_iter(pe0(v, r), Seq::<nat>::empty()) == pe0(v, r));
        assert(pe_iter(v, s) == v);
    } else {
        assert(s.push(r)[0] == s[0]);
        assert(s.push(r).drop_first() =~= s.drop_first().push(r));
        lemma_pe_iter_snoc(pe0(v, s[0]), s.drop_first(), r);
    }
}

/// Slotwise reading of `pe0`: result slot `k` blends slots `k` and
/// `k + half` of the table.
pub proof fn lemma_pe0_index(v: Seq<nat>, r: nat, k: int)
    requires
        is_pow2(v.len()),
        v.len() >= 2,
        0 <= k < v.len() / 2,
    ensures
        pe0(v, r).len() == v.len() / 2,
        pe0(v, r)[k] == add_f(
            mul_f(sub_f(1, r), v[k]),
            mul_f(r, v[k + v.len() / 2]),
        ),
{
    let n = lg(v.len());
    lemma_pow2_lg(v.len());
    crate::hypercube::lemma_pow2_halves(v.len());
    let s = pow2((n - 1) as nat);
    assert(s == v.len() / 2);
    assert(k / s as int == 0) by {
        vstd::arithmetic::div_mod::lemma_basic_div_specific_divisor(s as int);
    }
    assert(k % s as int == k) by {
        vstd::arithmetic::div_mod::lemma_small_mod(k as nat, s);
    }
    assert(pair_index(k, s) == k) by (nonlinear_arith)
        requires
            k / s as int == 0,
            k % s as int == k,
            pair_index(k, s) == 2 * (k / s as int) * (s as int) + k % (s as int),
    ;
}

/// Partial-evaluate linearity at the last variable, where the hypercube
/// pairs slots evenly and oddly: slot `k` of the result blends slots `2k`
/// and `2k + 1` of the table as `(1 - r) * v0 + r * v1`.  This is the
/// stride-one case of what `partial_evaluate` returns for the position
/// `n_vars() - 1`.
pub proof fn lemma_partial_evaluate_even_odd(v: Seq<nat>, r: nat, k: int)
    requires
        0 <= k < v.len() / 2,
    ensures
        pe_seq(v, r, 1)[k] == add_f(mul_f(sub_f(1, r), v[2 * k]), mul_f(r, v[2 * k + 1])),
{
    assert(k / 1int == k) by {
        vstd::arithmetic::div_mod::lemma_div_basics(k);
    }
    assert(k % 1int == 0) by {
        vstd::arithmetic::div_mod::lemma_mod_self_0(1);
        vstd::arithmetic::div_mod::lemma_mod_multiples_basic(k, 1);
    }
    assert(pair_index(k, 1) == 2 * k);
}

/// The first-variable case of partial evaluation on a raw table.
pub fn pe_table0(rep: &Vec<Fe>, r: Fe) -> (out: Vec<Fe>)
    requires
        is_pow2(rep@.len() as nat),
        rep@.len() >= 2,
        all_wf(rep@),
        r.wf(),
    ensures
        out@.len() == rep@.len() / 2,
        all_wf(out@),
        vals_of(out@) == pe0(vals_of(rep@), r.val()),
        is_pow2(out@.len() as nat),
        lg(out@.len() as nat) == lg(rep@.len() as nat) - 1,
{
    proof {
        lemma_pow2_lg(rep@.len() as nat);
        crate::hypercube::lemma_pow2_halves(rep@.len() as nat);
    }
    let n = table_vars(rep.len());
    let out = pe_table(rep, r, n - 1, n);
    out
}

/// Partially evaluates a raw table at the variable whose partner stride is
/// `pow2(h)`, blending each pair of slots that differ only there.
#[verifier::loop_isolation(false)]
pub fn pe_table(rep: &Vec<Fe>, r: Fe, h: usize, n: usize) -> (out: Vec<Fe>)
    requires
        rep@.len() == pow2(n as nat),
        all_wf(rep@),
        r.wf(),
        h < n,
    ensures
        out@.len() == rep@.len() / 2,
        all_wf(out@),
        vals_of(out@) == pe_seq(vals_of(rep@), r.val(), pow2(h as nat)),
        is_pow2(out@.len() as nat),
        lg(out@.len() as nat) == n - 1,
{
    let table_len = rep.len();
    proof {
        assert(rep@.len() <= usize::MAX);
        lemma_pow2_adds(h as nat, (n - 1 - h) as nat);
        lemma_pow2_adds((n - 1) as nat, 1);
        vstd::arithmetic::power2::lemma2_to64();
        vstd::arithmetic::power2::lemma_pow2_pos(h as nat);
        vstd::arithmetic::power2::lemma_pow2_pos((n - 1 - h) as nat);
        vstd::arithmetic::power2::lemma_pow2_pos((n - 1) as nat);
        if (h as nat) < n as nat {
            vstd::arithmetic::power2::lemma_pow2_strictly_increases(h as nat, n as nat);
        }
        if ((n - 1 - h) as nat) < n as nat {
            vstd::arithmetic::power2::lemma_pow2_strictly_increases((n - 1 - h) as nat, n as nat);
        }
    }
    let s = pow2_exec(h);
    let blocks = pow2_exec(n - 1 - h);
    let one = Fe::one();
    let one_minus_r = crate::field::fe_sub(one, r);
    let ghost target = pe_seq(vals_of(rep@), r.val(), pow2(h as nat));
    assert(pow2((n - 1) as nat) == blocks * s) by (nonlinear_arith)
        requires
            pow2((n - 1) as nat) == pow2(h as nat) * pow2((n - 1 - h) as nat),
            s == pow2(h as nat),
            blocks == pow2((n - 1 - h) as nat),
    ;
    assert(rep@.len() == 2 * (blocks * s)) by (nonlinear_arith)
        requires
            rep@.len() == pow2(n as nat),
            pow2(n as nat) == pow2((n - 1) as nat) * 2,
            pow2((n - 1) as nat) == blocks * s,
    ;
    let mut out: Vec<Fe> = Vec::new();
    let mut q: usize = 0;
    while q < blocks
        invariant
            q <= blocks,
            s == pow2(h as nat),
            blocks == pow2((n - 1 - h) as nat),
            s >= 1,
            rep@.len() == 2 * (blocks * s),
            rep@.len() == pow2(n as nat),
            all_wf(rep@),
            r.wf(),
            one_minus_r.wf(),
            one_minus_r.val() == sub_f(1, r.val()),
            out@.len() == q * s,
            all_wf(out@),
            target.len() == blocks * s,
            forall|j: int| 0 <= j < q * s ==> vals_of(out@)[j] == target[j],
        decreases blocks - q,
    {
        let mut m: usize = 0;
        proof {
            lemma_mul_inequality(q as int + 1, blocks as int, s as int);
            assert((q + 1) * s == q * s + s) by (nonlinear_arith);
        }
        while m < s
            invariant
                m <= s,
                q < blocks,
                s >= 1,
                s == pow2(h as nat),
                blocks == pow2((n - 1 - h) as nat),
                rep@.len() == 2 * (blocks * s),
                rep@.len() == pow2(n as nat),
                all_wf(rep@),
                r.wf(),
                one_minus_r.wf(),
                one_minus_r.val() == sub_f(1, r.val()),
                out@.len() == q * s + m,
                q * s + s <= blocks * s,
                all_wf(out@),
                target.len() == blocks * s,
                forall|j: int| 0 <= j < q * s + m ==> vals_of(out@)[j] == target[j],
            decreases s - m,
        {
            proof {
                assert(2 * ((q * s + m) / s as int) * (s as int) + (q * s + m) % (s as int) == 2
                    * (q as int) * (s as int) + m) by {
                    lemma_fundamental_div_mod_converse(
                        (q * s + m) as int,
                        s as int,
                        q as int,
                        m as int,
                    );
                };
                assert(2 * (q as int) * (s as int) + m + s < rep@.len() && 2 * (q as int)
                    <= rep@.len()) by (nonlinear_arith)
                    requires
                        rep@.len() == 2 * (blocks * s),
                        q < blocks,
                        m < s,
                        s >= 1,
                ;
            }
            let base = 2 * q * s + m;
            let v0 = rep[base];
            let v1 = rep[base + s];
            let v = crate::field::fe_add(
                crate::field::fe_mul(one_minus_r, v0),
                crate::field::fe_mul(r, v1),
            );
            out.push(v);
            proof {
                let k = (q * s + m) as int;
                assert(0 <= k < target.len()) by (nonlinear_arith)
                    requires
                        target.len() == blocks * s,
                        q < blocks,
                        m < s,
                        k == q * s + m,
                ;
                assert(target[k] == add_f(
                    mul_f(sub_f(1, r.val()), vals_of(rep@)[pair_index(k, s as nat)]),
                    mul_f(r.val(), vals_of(rep@)[pair_index(k, s as nat) + s]),
                ));
                assert(pair_index(k, s as nat) == 2 * (q as int) * (s as int) + m);
                assert(vals_of(out@)[k] == target[k]);
            }
            m = m + 1;
        }
        q = q + 1;
        proof {
            assert(q * s == (q - 1) * s + s) by (nonlinear_arith);
        }
    }
    proof {
        assert(out@.len() == blocks * s);
        assert(rep@.len() / 2 == blocks * s);
        assert(vals_of(out@) =~= target);
        crate::hypercube::lemma_lg_pow2((n - 1) as nat);
    }
    out
}

} // verus!
