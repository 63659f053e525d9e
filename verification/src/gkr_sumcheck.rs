//! The sumcheck protocol for a sum of two-factor products: the GKR layer
//! polynomial `f(b,c)` has exactly this shape, so each round message holds
//! the three values of a quadratic, and the verifier's round check
//! interpolates that quadratic through `0, 1, 2` and evaluates it at the
//! squeezed challenge.

use vstd::prelude::*;
use crate::algebra::{lemma_f_small, sum_vals};
use crate::evaluation_form::{all_wf, pe0, vals_of};
use crate::field::{add_f, mul_f, p, sub_f, Fe};
use crate::hypercube::{is_pow2, lemma_pow2_halves, lemma_pow2_lg, lg};
use crate::product_poly::{
    pp_pe_post, reduce_entry, reduce_shape, ProductPolynomial, SumPolynomial,
};
use crate::sumcheck::{msgs_vals, msgs_wf, vals_bytes};
use crate::transcript::{fe_seq_bytes, fe_slice_bytes, fe_to_bytes_be, sha3_of, squeeze_val,
    FiatShamir};

verus! {

/// The residue of the inverse of two.
pub open spec fn inv2() -> nat {
    10944121435919637611123202872628637544348155578648911831344518947322613104292nat
}

/// The inverse of two, as an element.
pub fn fe_inv2() -> (r: Fe)
    ensures
        r.wf(),
        r.val() == inv2(),
        mul_f(2, inv2()) == 1,
{
    let r = Fe {
        l0: 0x9e10460b6c3e7ea4,
        l1: 0xcbc0b548b438e546,
        l2: 0xdc2822db40c0ac2e,
        l3: 0x183227397098d014,
    };
    proof {
        assert(r.val() == inv2());
        assert(mul_f(2, inv2()) == 1) by (nonlinear_arith);
    }
    r
}

/// The factor-table pairs of a sum of two-factor products.
pub open spec fn prods_pairs(prods: Seq<ProductPolynomial>) -> Seq<(Seq<nat>, Seq<nat>)> {
    prods.map_values(|pp: ProductPolynomial| (pp.factors()[0], pp.factors()[1]))
}

/// Blending every factor of every pair at `r`.
pub open spec fn pairs_pe0(ps: Seq<(Seq<nat>, Seq<nat>)>, r: nat) -> Seq<(Seq<nat>, Seq<nat>)> {
    ps.map_values(|pq: (Seq<nat>, Seq<nat>)| (pe0(pq.0, r), pe0(pq.1, r)))
}

/// One slot of the reduction of the pairs: the sum across the pairs of the
/// product of their two tables at that slot.
pub open spec fn pair_entry(ps: Seq<(Seq<nat>, Seq<nat>)>, i: int) -> nat
    decreases ps.len(),
{
    if ps.len() == 0 {
        0
    } else {
        add_f(pair_entry(ps.drop_last(), i), mul_f(ps.last().0[i], ps.last().1[i]))
    }
}

/// The full reduction table of the pairs.
pub open spec fn pairs_table(ps: Seq<(Seq<nat>, Seq<nat>)>, len: nat) -> Seq<nat> {
    Seq::new(len, |i: int| pair_entry(ps, i))
}

/// One point of a round message: the sum over the remaining hypercube of
/// the pairs blended at the small integer `t`.
pub open spec fn round_point(ps: Seq<(Seq<nat>, Seq<nat>)>, len2: nat, t: nat) -> nat {
    sum_vals(pairs_table(pairs_pe0(ps, t), len2))
}

/// The three-point round message of the quadratic engine.
pub open spec fn round_msg3(ps: Seq<(Seq<nat>, Seq<nat>)>, len2: nat) -> Seq<nat> {
    seq![round_point(ps, len2, 0), round_point(ps, len2, 1), round_point(ps, len2, 2)]
}

/// The whole run of the quadratic prover over tables of length `len`.
pub open spec fn gsc_rounds(
    ps: Seq<(Seq<nat>, Seq<nat>)>,
    len: nat,
    ts: Seq<u8>,
    k: nat,
) -> (Seq<Seq<nat>>, Seq<nat>, Seq<u8>)
    decreases k,
{
    if k == 0 {
        (Seq::<Seq<nat>>::empty(), Seq::<nat>::empty(), ts)
    } else {
        let m = round_msg3(ps, len / 2);
        let ts1 = ts + vals_bytes(m);
        let r = squeeze_val(ts1);
        let ts2 = ts1 + sha3_of(ts1);
        let rec = gsc_rounds(pairs_pe0(ps, r), len / 2, ts2, (k - 1) as nat);
        (seq![m] + rec.0, seq![r] + rec.1, rec.2)
    }
}

/// The Lagrange interpolation through `(0, m[0])`, `(1, m[1])`, `(2, m[2])`
/// evaluated at `x`: the verifier's round polynomial.
pub open spec fn lagrange3_at(m: Seq<nat>, x: nat) -> nat {
    add_f(
        add_f(
            mul_f(mul_f(mul_f(sub_f(x, 1), sub_f(x, 2)), inv2()), m[0]),
            mul_f(mul_f(mul_f(x, sub_f(x, 2)), sub_f(0, 1)), m[1]),
        ),
        mul_f(mul_f(mul_f(x, sub_f(x, 1)), inv2()), m[2]),
    )
}

/// The verifier's replay of the quadratic rounds.
#[verifier::opaque]
pub open spec fn gsc_verify_rec(claimed: nat, msgs: Seq<Seq<nat>>, ts: Seq<u8>) -> Option<
    (nat, Seq<nat>, Seq<u8>),
>
    decreases msgs.len(),
{
    if msgs.len() == 0 {
        Some((claimed, Seq::<nat>::empty(), ts))
    } else {
        let m = msgs[0];
        if m.len() != 3 {
            None
        } else if add_f(m[0], m[1]) != claimed {
            None
        } else {
            let ts1 = ts + vals_bytes(m);
            let r = squeeze_val(ts1);
            let ts2 = ts1 + sha3_of(ts1);
            let c = lagrange3_at(m, r);
            match gsc_verify_rec(c, msgs.drop_first(), ts2) {
                None => None,
                Some((fin, chals, tsf)) => Some((fin, seq![r] + chals, tsf)),
            }
        }
    }
}

/// The shape the quadratic engine works on: at least one product, each of
/// exactly two factor tables of the common power-of-two length.
pub open spec fn sp_shape(s: SumPolynomial, len: nat) -> bool {
    &&& s.wf()
    &&& is_pow2(len)
    &&& s.polyomials@.len() >= 1
    &&& forall|j: int|
        0 <= j < s.polyomials@.len() ==> (#[trigger] s.polyomials@[j]).polyomials@.len() == 2
    &&& forall|j: int|
        0 <= j < s.polyomials@.len() ==> (#[trigger] s.polyomials@[j]).factors()[0].len() == len
            && s.polyomials@[j].factors()[1].len() == len
}

/// Iterated blending of the pairs, one coordinate after the other.
pub open spec fn pairs_iter(ps: Seq<(Seq<nat>, Seq<nat>)>, point: Seq<nat>) -> Seq<
    (Seq<nat>, Seq<nat>),
>
    decreases point.len(),
{
    if point.len() == 0 {
        ps
    } else {
        pairs_iter(pairs_pe0(ps, point[0]), point.drop_first())
    }
}

/// Fixing one more coordinate at the back is one more blend after the rest.
pub proof fn lemma_pairs_iter_snoc(ps: Seq<(Seq<nat>, Seq<nat>)>, s: Seq<nat>, r: nat)
    ensures
        pairs_iter(ps, s.push(r)) == pairs_pe0(pairs_iter(ps, s), r),
    decreases s.len(),
{
    if s.len() == 0 {
        assert(s.push(r)[0] == r);
        assert(s.push(r).drop_first() =~= Seq::<nat>::empty());
        assert(pairs_iter(pairs_pe0(ps, r), Seq::<nat>::empty()) == pairs_pe0(ps, r));
    } else {
        assert(s.push(r)[0] == s[0]);
        assert(s.push(r).drop_first() =~= s.drop_first().push(r));
        lemma_pairs_iter_snoc(pairs_pe0(ps, s[0]), s.drop_first(), r);
    }
}

/// The byte stream of a product's factor tables, in order.
pub open spec fn factor_bytes(fs: Seq<crate::evaluation_form::EvaluationFormPolynomial>) -> Seq<
    u8,
>
    decreases fs.len(),
{
    if fs.len() == 0 {
        Seq::<u8>::empty()
    } else {
        factor_bytes(fs.drop_last()) + fe_seq_bytes(fs.last().representation@)
    }
}

/// The byte stream of a whole sum of products, in order.
pub open spec fn sp_bytes(prods: Seq<ProductPolynomial>) -> Seq<u8>
    decreases prods.len(),
{
    if prods.len() == 0 {
        Seq::<u8>::empty()
    } else {
        sp_bytes(prods.drop_last()) + factor_bytes(prods.last().polyomials@)
    }
}

/// The transcript seed of one standalone run over a sum of products: every
/// factor table in order, then the claimed sum.
pub open spec fn gsc_seed(s: SumPolynomial, claimed: Fe) -> Seq<u8> {
    sp_bytes(s.polyomials@) + crate::transcript::fe_bytes(claimed)
}

/// The whole quadratic verifier: the round count must match, the replay
/// must check out, and the sum of products itself, blended at all the
/// challenges and reduced, must equal the final claim.
pub open spec fn gsc_verify_spec(
    ps: Seq<(Seq<nat>, Seq<nat>)>,
    len: nat,
    claimed: nat,
    msgs: Seq<Seq<nat>>,
    ts: Seq<u8>,
) -> Option<(nat, Seq<nat>)> {
    if msgs.len() != lg(len) {
        None
    } else {
        match gsc_verify_rec(claimed, msgs, ts) {
            None => None,
            Some((fin, chals, _)) => if pair_entry(pairs_iter(ps, chals), 0) == fin {
                Some((fin, chals))
            } else {
                None
            },
        }
    }
}

/// Every table of every pair has the given length and canonical entries.
pub open spec fn pairs_wf(ps: Seq<(Seq<nat>, Seq<nat>)>, len: nat) -> bool {
    forall|j: int|
        0 <= j < ps.len() ==> {
            &&& (#[trigger] ps[j]).0.len() == len
            &&& ps[j].1.len() == len
            &&& forall|k: int| 0 <= k < len ==> (#[trigger] ps[j].0[k]) < p() && ps[j].1[k] < p()
        }
}

/// Two pair lists whose tables agree at one slot reduce equally there.
pub proof fn lemma_pair_entry_pointwise(
    ps1: Seq<(Seq<nat>, Seq<nat>)>,
    ps2: Seq<(Seq<nat>, Seq<nat>)>,
    k1: int,
    k2: int,
)
    requires
        ps1.len() == ps2.len(),
        forall|j: int|
            0 <= j < ps1.len() ==> (#[trigger] ps1[j]).0[k1] == ps2[j].0[k2] && ps1[j].1[k1]
                == ps2[j].1[k2],
    ensures
        pair_entry(ps1, k1) == pair_entry(ps2, k2),
    decreases ps1.len(),
{
    if ps1.len() > 0 {
        assert(forall|j: int| 0 <= j < ps1.len() - 1 ==> ps1.drop_last()[j] == ps1[j]);
        assert(forall|j: int| 0 <= j < ps2.len() - 1 ==> ps2.drop_last()[j] == ps2[j]);
        lemma_pair_entry_pointwise(ps1.drop_last(), ps2.drop_last(), k1, k2);
        assert(ps1.last() == ps1[ps1.len() - 1]);
        assert(ps2.last() == ps2[ps2.len() - 1]);
    }
}

/// Blending at zero keeps a table's first half; blending at one keeps its
/// second half.
pub proof fn lemma_pe0_endpoints(v: Seq<nat>, k: int)
    requires
        is_pow2(v.len()),
        v.len() >= 2,
        0 <= k < v.len() / 2,
        forall|t: int| 0 <= t < v.len() ==> (#[trigger] v[t]) < p(),
    ensures
        pe0(v, 0)[k] == v[k],
        pe0(v, 1)[k] == v[k + v.len() / 2],
{
    crate::evaluation_form::lemma_pe0_index(v, 0, k);
    crate::evaluation_form::lemma_pe0_index(v, 1, k);
    let half = v.len() as int / 2;
    assert(sub_f(1, 0) == 1) by {
        crate::algebra::lemma_f_small(1);
        assert((1 + p()) % p() == 1) by {
            vstd::arithmetic::div_mod::lemma_mod_add_multiples_vanish(1, p() as int);
            crate::algebra::lemma_f_small(1);
        }
    }
    assert(sub_f(1, 1) == 0) by {
        vstd::arithmetic::div_mod::lemma_mod_multiples_basic(1, p() as int);
    }
    crate::algebra::lemma_mul_f_one(v[k]);
    crate::algebra::lemma_mul_f_one(v[k + half]);
    crate::algebra::lemma_mul_f_zero(v[k]);
    crate::algebra::lemma_mul_f_zero(v[k + half]);
    crate::algebra::lemma_add_f_zero(v[k]);
    crate::algebra::lemma_add_f_zero(v[k + half]);
}

/// One round of completeness for the quadratic engine: against the true
/// sum of the reduced table, the round check of the verifier,
/// `m[0] + m[1] == claim`, holds of the prover's message, exactly.
pub proof fn lemma_round_msg_total(ps: Seq<(Seq<nat>, Seq<nat>)>, len: nat)
    requires
        pairs_wf(ps, len),
        is_pow2(len),
        len >= 2,
    ensures
        add_f(round_msg3(ps, len / 2)[0], round_msg3(ps, len / 2)[1]) == sum_vals(
            pairs_table(ps, len),
        ),
{
    let half = len / 2;
    let full = pairs_table(ps, len);
    let t0 = pairs_table(pairs_pe0(ps, 0), half);
    let t1 = pairs_table(pairs_pe0(ps, 1), half);
    assert forall|k: int| 0 <= k < half implies t0[k] == full[k] by {
        assert forall|j: int|
            0 <= j < ps.len() implies (#[trigger] pairs_pe0(ps, 0)[j]).0[k] == ps[j].0[k]
            && pairs_pe0(ps, 0)[j].1[k] == ps[j].1[k] by {
            assert(pairs_pe0(ps, 0)[j] == (pe0(ps[j].0, 0), pe0(ps[j].1, 0)));
            assert(ps[j].0.len() == len && ps[j].1.len() == len);
            assert(forall|t: int| 0 <= t < len ==> (#[trigger] ps[j].0[t]) < p() && ps[j].1[t]
                < p());
            assert forall|t: int| 0 <= t < len implies (#[trigger] ps[j].1[t]) < p() by {
                assert(ps[j].0[t] < p());
            }
            lemma_pe0_endpoints(ps[j].0, k);
            lemma_pe0_endpoints(ps[j].1, k);
        }
        lemma_pair_entry_pointwise(pairs_pe0(ps, 0), ps, k, k);
    }
    assert forall|k: int| 0 <= k < half implies t1[k] == full[k + half] by {
        assert forall|j: int|
            0 <= j < ps.len() implies (#[trigger] pairs_pe0(ps, 1)[j]).0[k] == ps[j].0[k + half]
            && pairs_pe0(ps, 1)[j].1[k] == ps[j].1[k + half] by {
            assert(pairs_pe0(ps, 1)[j] == (pe0(ps[j].0, 1), pe0(ps[j].1, 1)));
            assert(ps[j].0.len() == len && ps[j].1.len() == len);
            assert(forall|t: int| 0 <= t < len ==> (#[trigger] ps[j].0[t]) < p() && ps[j].1[t]
                < p());
            assert forall|t: int| 0 <= t < len implies (#[trigger] ps[j].1[t]) < p() by {
                assert(ps[j].0[t] < p());
            }
            lemma_pe0_endpoints(ps[j].0, k);
            lemma_pe0_endpoints(ps[j].1, k);
        }
        lemma_pair_entry_pointwise(pairs_pe0(ps, 1), ps, k, k + half);
    }
    assert(full.take(half as int) =~= t0);
    assert(full.skip(half as int) =~= t1);
    assert(full =~= full.take(half as int) + full.skip(half as int));
    crate::algebra::lemma_sum_vals_concat(full.take(half as int), full.skip(half as int));
}

/// The reduction over products equals the reduction over their pair views.
pub proof fn lemma_reduce_entry_pairs(prods: Seq<ProductPolynomial>, i: int)
    ensures
        reduce_entry(prods, i) == pair_entry(prods_pairs(prods), i),
    decreases prods.len(),
{
    if prods.len() > 0 {
        lemma_reduce_entry_pairs(prods.drop_last(), i);
        assert(prods_pairs(prods.drop_last()) =~= prods_pairs(prods).drop_last());
        assert(prods_pairs(prods).last() == (prods.last().factors()[0], prods.last().factors()[1]));
    }
}

/// The common factor-table length of a shaped sum of products.
pub open spec fn sp_len(s: SumPolynomial) -> nat {
    s.polyomials@[0].factors()[0].len()
}

/// Blends every factor of every product at `r`, halving the tables.
pub fn sp_blend(poly: &SumPolynomial, r: Fe) -> (q: SumPolynomial)
    requires
        sp_shape(*poly, sp_len(*poly)),
        sp_len(*poly) >= 2,
        r.wf(),
    ensures
        sp_shape(q, sp_len(*poly) / 2),
        sp_len(q) == sp_len(*poly) / 2,
        q.polyomials@.len() == poly.polyomials@.len(),
        prods_pairs(q.polyomials@) == pairs_pe0(prods_pairs(poly.polyomials@), r.val()),
{
    let ghost len = sp_len(*poly);
    proof {
        lemma_pow2_lg(len);
        lemma_pow2_halves(len);
        assert forall|j: int|
            0 <= j < poly.polyomials@.len() implies crate::product_poly::pp_position_ok(
            #[trigger] poly.polyomials@[j],
            0,
        ) by {
            let pp = poly.polyomials@[j];
            assert forall|k: int| 0 <= k < pp.polyomials@.len() implies 0 < (
            #[trigger] pp.polyomials@[k]).n_vars() by {
                assert(pp.factors()[k] == pp.polyomials@[k].vals());
                assert(pp.polyomials@[k].vals().len() == len);
                assert(pp.polyomials@[k].wf());
                lemma_pow2_lg(pp.polyomials@[k].representation@.len() as nat);
            }
        }
    }
    let q = match poly.partial_evaluate(r, 0) {
        Ok(q) => q,
        Err(_) => {
            proof {
                assert(false);
            }
            SumPolynomial { polyomials: Vec::new() }
        },
    };
    proof {
        assert forall|j: int|
            0 <= j < q.polyomials@.len() implies (#[trigger] prods_pairs(q.polyomials@)[j])
            == pairs_pe0(prods_pairs(poly.polyomials@), r.val())[j] by {
            let orig = poly.polyomials@[j];
            let new = q.polyomials@[j];
            assert(pp_pe_post(orig, new, r.val(), 0));
            assert(orig.factors()[0] == orig.polyomials@[0].vals());
            assert(orig.factors()[1] == orig.polyomials@[1].vals());
            assert(orig.polyomials@[0].wf());
            lemma_pow2_lg(orig.polyomials@[0].representation@.len() as nat);
            lemma_pow2_lg(orig.polyomials@[1].representation@.len() as nat);
            assert(new.factors()[0] == pe0(orig.factors()[0], r.val()));
            assert(new.factors()[1] == pe0(orig.factors()[1], r.val()));
        }
        assert(prods_pairs(q.polyomials@) =~= pairs_pe0(prods_pairs(poly.polyomials@), r.val()));
        assert forall|j: int|
            0 <= j < q.polyomials@.len() implies (#[trigger] q.polyomials@[j]).factors()[0].len()
            == len / 2 && q.polyomials@[j].factors()[1].len() == len / 2 by {
            assert(prods_pairs(q.polyomials@)[j] == (
                q.polyomials@[j].factors()[0],
                q.polyomials@[j].factors()[1],
            ));
            assert(pairs_pe0(prods_pairs(poly.polyomials@), r.val())[j] == (
                pe0(prods_pairs(poly.polyomials@)[j].0, r.val()),
                pe0(prods_pairs(poly.polyomials@)[j].1, r.val()),
            ));
            assert(prods_pairs(poly.polyomials@)[j].0.len() == len);
            assert(prods_pairs(poly.polyomials@)[j].1.len() == len);
        }
        assert(sp_len(q) == len / 2) by {
            assert(prods_pairs(q.polyomials@)[0].0 == q.polyomials@[0].factors()[0]);
        }
    }
    q
}

/// One message point: the sum over the halved hypercube of the reduction
/// of the blend at `t`.
fn sp_round_point(poly: &SumPolynomial, t: Fe) -> (r: Fe)
    requires
        sp_shape(*poly, sp_len(*poly)),
        sp_len(*poly) >= 2,
        t.wf(),
    ensures
        r.wf(),
        r.val() == round_point(prods_pairs(poly.polyomials@), sp_len(*poly) / 2, t.val()),
{
    let ghost len = sp_len(*poly);
    let blended = sp_blend(poly, t);
    let reduced = match blended.reduce() {
        Ok(q) => q,
        Err(_) => {
            proof {
                assert(blended.polyomials@.len() >= 1);
                assert(crate::product_poly::reduce_shape(
                    blended.polyomials@,
                    blended.polyomials@[0].factors()[0].len(),
                ));
                assert(false);
            }
            SumPolynomial { polyomials: Vec::new() }
        },
    };
    let table = &reduced.polyomials[0].polyomials[0];
    proof {
        assert(reduced.polyomials@[0].factors()[0] == reduced.polyomials@[0].polyomials@[0].vals());
        assert forall|i: int| 0 <= i < len / 2 implies vals_of(table.representation@)[i]
            == pair_entry(prods_pairs(blended.polyomials@), i) by {
            lemma_reduce_entry_pairs(blended.polyomials@, i);
        }
        assert(vals_of(table.representation@) =~= pairs_table(
            pairs_pe0(prods_pairs(poly.polyomials@), t.val()),
            len / 2,
        ));
    }
    let mut sum = Fe::zero();
    let mut i: usize = 0;
    let ghost tvals = vals_of(table.representation@);
    while i < table.representation.len()
        invariant
            i <= table.representation@.len(),
            tvals == vals_of(table.representation@),
            all_wf(table.representation@),
            sum.wf(),
            sum.val() == sum_vals(tvals.take(i as int)),
        decreases table.representation@.len() - i,
    {
        sum = crate::field::fe_add(sum, table.representation[i]);
        proof {
            assert(tvals.take(i + 1).drop_last() =~= tvals.take(i as int));
            assert(tvals.take(i + 1).last() == tvals[i as int]);
            assert(tvals[i as int] == table.representation@[i as int].val());
        }
        i = i + 1;
    }
    proof {
        assert(tvals.take(tvals.len() as int) =~= tvals);
    }
    sum
}

/// The three-point round message of the quadratic prover.
fn sp_round_message(poly: &SumPolynomial) -> (r: Vec<Fe>)
    requires
        sp_shape(*poly, sp_len(*poly)),
        sp_len(*poly) >= 2,
    ensures
        r@.len() == 3,
        all_wf(r@),
        vals_of(r@) == round_msg3(prods_pairs(poly.polyomials@), sp_len(*poly) / 2),
{
    let p0 = sp_round_point(poly, Fe::from_u64(0));
    let p1 = sp_round_point(poly, Fe::from_u64(1));
    let p2 = sp_round_point(poly, Fe::from_u64(2));
    let r: Vec<Fe> = vec![p0, p1, p2];
    proof {
        assert(vals_of(r@) =~= round_msg3(prods_pairs(poly.polyomials@), sp_len(*poly) / 2));
    }
    r
}

/// Absorbs every factor table of the sum, in order.
fn absorb_sp(fiat_shamir: &mut FiatShamir, poly: &SumPolynomial)
    ensures
        final(fiat_shamir)@ == old(fiat_shamir)@ + sp_bytes(poly.polyomials@),
{
    let mut i: usize = 0;
    while i < poly.polyomials.len()
        invariant
            i <= poly.polyomials@.len(),
            fiat_shamir@ == old(fiat_shamir)@ + sp_bytes(poly.polyomials@.take(i as int)),
        decreases poly.polyomials@.len() - i,
    {
        let pp = &poly.polyomials[i];
        let mut j: usize = 0;
        while j < pp.polyomials.len()
            invariant
                j <= pp.polyomials@.len(),
                i < poly.polyomials@.len(),
                pp == poly.polyomials@[i as int],
                fiat_shamir@ == old(fiat_shamir)@ + sp_bytes(poly.polyomials@.take(i as int))
                    + factor_bytes(pp.polyomials@.take(j as int)),
            decreases pp.polyomials@.len() - j,
        {
            let bytes = fe_slice_bytes(&pp.polyomials[j].representation);
            fiat_shamir.absorb(bytes.as_slice());
            proof {
                assert(pp.polyomials@.take(j + 1).drop_last() =~= pp.polyomials@.take(j as int));
                assert(pp.polyomials@.take(j + 1).last() == pp.polyomials@[j as int]);
                assert(fiat_shamir@ =~= old(fiat_shamir)@ + sp_bytes(
                    poly.polyomials@.take(i as int),
                ) + factor_bytes(pp.polyomials@.take(j + 1)));
            }
            j = j + 1;
        }
        proof {
            assert(pp.polyomials@.take(pp.polyomials@.len() as int) =~= pp.polyomials@);
            assert(poly.polyomials@.take(i + 1).drop_last() =~= poly.polyomials@.take(i as int));
            assert(poly.polyomials@.take(i + 1).last() == poly.polyomials@[i as int]);
            assert(fiat_shamir@ =~= old(fiat_shamir)@ + sp_bytes(poly.polyomials@.take(i + 1)));
        }
        i = i + 1;
    }
    proof {
        assert(poly.polyomials@.take(poly.polyomials@.len() as int) =~= poly.polyomials@);
    }
}

/// Runs the quadratic prover's rounds on the given transcript: per round
/// the three-point message is absorbed, a challenge squeezed, and the sum
/// of products blended at it.
pub fn gsc_prove_rounds(init_poly: &SumPolynomial, fiat_shamir: &mut FiatShamir) -> (r: (
    Vec<Vec<Fe>>,
    Vec<Fe>,
))
    requires
        sp_shape(*init_poly, sp_len(*init_poly)),
    ensures
        msgs_wf(r.0@),
        all_wf(r.1@),
        r.1@.len() == lg(sp_len(*init_poly)),
        (msgs_vals(r.0@), vals_of(r.1@), final(fiat_shamir)@) == gsc_rounds(
            prods_pairs(init_poly.polyomials@),
            sp_len(*init_poly),
            old(fiat_shamir)@,
            lg(sp_len(*init_poly)),
        ),
{
    let ghost ps0 = prods_pairs(init_poly.polyomials@);
    let ghost len0 = sp_len(*init_poly);
    let ghost seed = old(fiat_shamir)@;
    proof {
        lemma_pow2_lg(len0);
    }
    let no_of_variables = crate::hypercube::table_vars(
        init_poly.polyomials[0].polyomials[0].representation.len(),
    );
    proof {
        assert(init_poly.polyomials@[0].factors()[0] == init_poly.polyomials@[0].polyomials@[0].vals());
    }
    let mut unipoly_vec: Vec<Vec<Fe>> = Vec::new();
    let mut challenge_vec: Vec<Fe> = Vec::new();
    let mut i: usize = 0;
    let mut current = sp_clone_shaped(init_poly);
    let ghost rounds_all = gsc_rounds(ps0, len0, seed, no_of_variables as nat);
    while i < no_of_variables
        invariant
            i <= no_of_variables,
            no_of_variables as nat == lg(len0),
            sp_shape(current, sp_len(current)),
            lg(sp_len(current)) == no_of_variables - i,
            msgs_wf(unipoly_vec@),
            all_wf(challenge_vec@),
            challenge_vec@.len() == i,
            unipoly_vec@.len() == i,
            rounds_all == gsc_rounds(ps0, len0, seed, no_of_variables as nat),
            rounds_all.0 == msgs_vals(unipoly_vec@) + gsc_rounds(
                prods_pairs(current.polyomials@),
                sp_len(current),
                fiat_shamir@,
                (no_of_variables - i) as nat,
            ).0,
            rounds_all.1 == vals_of(challenge_vec@) + gsc_rounds(
                prods_pairs(current.polyomials@),
                sp_len(current),
                fiat_shamir@,
                (no_of_variables - i) as nat,
            ).1,
            rounds_all.2 == gsc_rounds(
                prods_pairs(current.polyomials@),
                sp_len(current),
                fiat_shamir@,
                (no_of_variables - i) as nat,
            ).2,
        decreases no_of_variables - i,
    {
        proof {
            lemma_pow2_lg(sp_len(current));
            if sp_len(current) < 2 {
                assert(lg(sp_len(current)) == 0);
            }
        }
        let msg = sp_round_message(&current);
        let ghost pre_ts = fiat_shamir@;
        let ghost cur_ps = prods_pairs(current.polyomials@);
        let ghost cur_len = sp_len(current);
        crate::sumcheck::absorb_fes(fiat_shamir, &msg);
        let challenge = fiat_shamir.squeeze();
        let next = sp_blend(&current, challenge);
        let ghost prev_msgs = unipoly_vec@;
        let ghost prev_chals = challenge_vec@;
        unipoly_vec.push(msg);
        challenge_vec.push(challenge);
        current = next;
        proof {
            let k = (no_of_variables - i) as nat;
            let rec = gsc_rounds(prods_pairs(current.polyomials@), cur_len / 2, fiat_shamir@, (k
                - 1) as nat);
            assert(gsc_rounds(cur_ps, cur_len, pre_ts, k).0 == seq![round_msg3(cur_ps, cur_len / 2)]
                + rec.0);
            assert(msgs_vals(unipoly_vec@) =~= msgs_vals(prev_msgs) + seq![
                round_msg3(cur_ps, cur_len / 2),
            ]);
            assert(msgs_vals(prev_msgs) + (seq![round_msg3(cur_ps, cur_len / 2)] + rec.0)
                =~= msgs_vals(unipoly_vec@) + rec.0);
            assert(vals_of(challenge_vec@) =~= vals_of(prev_chals).push(challenge.val()));
            assert(vals_of(prev_chals) + (seq![challenge.val()] + rec.1) =~= vals_of(challenge_vec@)
                + rec.1);
        }
        i = i + 1;
    }
    proof {
        assert(gsc_rounds(prods_pairs(current.polyomials@), sp_len(current), fiat_shamir@, 0).0
            =~= Seq::<Seq<nat>>::empty());
        assert(msgs_vals(unipoly_vec@) + Seq::<Seq<nat>>::empty() =~= msgs_vals(unipoly_vec@));
        assert(vals_of(challenge_vec@) + Seq::<nat>::empty() =~= vals_of(challenge_vec@));
    }
    (unipoly_vec, challenge_vec)
}

/// A fresh sum of products with the same tables.
pub fn sp_clone_shaped(poly: &SumPolynomial) -> (q: SumPolynomial)
    requires
        sp_shape(*poly, sp_len(*poly)),
    ensures
        sp_shape(q, sp_len(q)),
        sp_len(q) == sp_len(*poly),
        prods_pairs(q.polyomials@) == prods_pairs(poly.polyomials@),
{
    let mut prods: Vec<ProductPolynomial> = Vec::new();
    let mut i: usize = 0;
    while i < poly.polyomials.len()
        invariant
            i <= poly.polyomials@.len(),
            sp_shape(*poly, sp_len(*poly)),
            prods@.len() == i,
            forall|j: int| 0 <= j < i ==> (#[trigger] prods@[j]).wf(),
            forall|j: int| 0 <= j < i ==> (#[trigger] prods@[j]).polyomials@.len() == 2,
            forall|j: int|
                0 <= j < i ==> (#[trigger] prods@[j]).factors()[0]
                    == poly.polyomials@[j].factors()[0] && prods@[j].factors()[1]
                    == poly.polyomials@[j].factors()[1],
        decreases poly.polyomials@.len() - i,
    {
        let pp = &poly.polyomials[i];
        let f0 = pp.polyomials[0].duplicate();
        let f1 = pp.polyomials[1].duplicate();
        let copy = ProductPolynomial { polyomials: vec![f0, f1] };
        proof {
            assert(poly.polyomials@[i as int].wf());
            assert(copy.factors()[0] =~= poly.polyomials@[i as int].factors()[0]);
            assert(copy.factors()[1] =~= poly.polyomials@[i as int].factors()[1]);
        }
        prods.push(copy);
        i = i + 1;
    }
    let q = SumPolynomial { polyomials: prods };
    proof {
        assert(prods_pairs(q.polyomials@) =~= prods_pairs(poly.polyomials@));
        assert(sp_len(q) == sp_len(*poly)) by {
            assert(prods_pairs(q.polyomials@)[0] == (q.polyomials@[0].factors()[0], q.polyomials@[0].factors()[1]));
            assert(prods_pairs(poly.polyomials@)[0] == (
                poly.polyomials@[0].factors()[0],
                poly.polyomials@[0].factors()[1],
            ));
        }
    }
    q
}

/// The verifier's round polynomial: the quadratic through the message's
/// three points, evaluated at `x`.
pub fn lagrange3_eval(m: &Vec<Fe>, x: Fe) -> (r: Fe)
    requires
        m@.len() == 3,
        all_wf(m@),
        x.wf(),
    ensures
        r.wf(),
        r.val() == lagrange3_at(vals_of(m@), x.val()),
{
    let one = Fe::one();
    let two = Fe::from_u64(2);
    let half = fe_inv2();
    let neg_one = crate::field::fe_sub(Fe::zero(), one);
    let l0 = crate::field::fe_mul(
        crate::field::fe_mul(
            crate::field::fe_mul(crate::field::fe_sub(x, one), crate::field::fe_sub(x, two)),
            half,
        ),
        m[0],
    );
    let l1 = crate::field::fe_mul(
        crate::field::fe_mul(crate::field::fe_mul(x, crate::field::fe_sub(x, two)), neg_one),
        m[1],
    );
    let l2 = crate::field::fe_mul(
        crate::field::fe_mul(crate::field::fe_mul(x, crate::field::fe_sub(x, one)), half),
        m[2],
    );
    let r = crate::field::fe_add(crate::field::fe_add(l0, l1), l2);
    proof {
        assert(vals_of(m@)[0] == m@[0].val());
        assert(vals_of(m@)[1] == m@[1].val());
        assert(vals_of(m@)[2] == m@[2].val());
    }
    r
}

/// One quadratic verifier round, read off the recursion.
proof fn lemma_gsc_verify_step(
    claimed0: nat,
    msgs: Seq<Seq<nat>>,
    seed: Seq<u8>,
    chals: Seq<nat>,
    claim: nat,
    ts: Seq<u8>,
    i: int,
    r: nat,
    c2: nat,
    ts2: Seq<u8>,
)
    requires
        0 <= i < msgs.len(),
        msgs[i].len() == 3,
        add_f(msgs[i][0], msgs[i][1]) == claim,
        r == squeeze_val(ts + vals_bytes(msgs[i])),
        ts2 == ts + vals_bytes(msgs[i]) + sha3_of(ts + vals_bytes(msgs[i])),
        c2 == lagrange3_at(msgs[i], r),
        gsc_verify_rec(claimed0, msgs, seed) == crate::sumcheck::with_prefix(
            chals,
            gsc_verify_rec(claim, msgs.skip(i), ts),
        ),
    ensures
        gsc_verify_rec(claimed0, msgs, seed) == crate::sumcheck::with_prefix(
            chals.push(r),
            gsc_verify_rec(c2, msgs.skip(i + 1), ts2),
        ),
{
    reveal(gsc_verify_rec);
    assert(msgs.skip(i)[0] == msgs[i]);
    assert(msgs.skip(i).drop_first() =~= msgs.skip(i + 1));
    let rec = gsc_verify_rec(c2, msgs.skip(i + 1), ts2);
    assert(gsc_verify_rec(claim, msgs.skip(i), ts) == crate::sumcheck::with_prefix(seq![r], rec));
    if rec is Some {
        let cs2 = rec->Some_0.1;
        assert(chals + (seq![r] + cs2) =~= chals.push(r) + cs2);
    }
}

/// A failing quadratic round check fails the replay.
proof fn lemma_gsc_verify_step_reject(
    claimed0: nat,
    msgs: Seq<Seq<nat>>,
    seed: Seq<u8>,
    chals: Seq<nat>,
    claim: nat,
    ts: Seq<u8>,
    i: int,
)
    requires
        0 <= i < msgs.len(),
        msgs[i].len() != 3 || add_f(msgs[i][0], msgs[i][1]) != claim,
        gsc_verify_rec(claimed0, msgs, seed) == crate::sumcheck::with_prefix(
            chals,
            gsc_verify_rec(claim, msgs.skip(i), ts),
        ),
    ensures
        gsc_verify_rec(claimed0, msgs, seed) is None,
{
    reveal(gsc_verify_rec);
    assert(msgs.skip(i)[0] == msgs[i]);
}

/// Replays the quadratic rounds against the running claim on the given
/// transcript.  Returns the final claim and the challenges, or nothing on
/// a failed check.
pub fn gsc_verify_rounds(claimed_sum: Fe, uni_poly: &Vec<Vec<Fe>>, fiat_shamir: &mut FiatShamir) -> (r:
    Option<(Fe, Vec<Fe>)>)
    requires
        claimed_sum.wf(),
        msgs_wf(uni_poly@),
    ensures
        match r {
            Some((fin, chals)) => {
                &&& fin.wf()
                &&& all_wf(chals@)
                &&& chals@.len() == uni_poly@.len()
                &&& gsc_verify_rec(claimed_sum.val(), msgs_vals(uni_poly@), old(fiat_shamir)@)
                    == Some((fin.val(), vals_of(chals@), final(fiat_shamir)@))
            },
            None => gsc_verify_rec(claimed_sum.val(), msgs_vals(uni_poly@), old(fiat_shamir)@)
                is None,
        },
{
    let ghost msgs = msgs_vals(uni_poly@);
    let ghost seed = old(fiat_shamir)@;
    let mut claim = claimed_sum;
    let mut chals: Vec<Fe> = Vec::new();
    let mut i: usize = 0;
    proof {
        assert(msgs.skip(0) =~= msgs);
        assert(gsc_verify_rec(claimed_sum.val(), msgs, seed) == crate::sumcheck::with_prefix(
            vals_of(chals@),
            gsc_verify_rec(claimed_sum.val(), msgs.skip(0), fiat_shamir@),
        )) by {
            let rec = gsc_verify_rec(claimed_sum.val(), msgs, seed);
            if rec is Some {
                let cs = rec->Some_0.1;
                assert(vals_of(chals@) + cs =~= cs);
            }
        }
    }
    while i < uni_poly.len()
        invariant
            i <= uni_poly@.len(),
            msgs == msgs_vals(uni_poly@),
            seed == old(fiat_shamir)@,
            msgs_wf(uni_poly@),
            claim.wf(),
            all_wf(chals@),
            chals@.len() == i,
            gsc_verify_rec(claimed_sum.val(), msgs, seed) == crate::sumcheck::with_prefix(
                vals_of(chals@),
                gsc_verify_rec(claim.val(), msgs.skip(i as int), fiat_shamir@),
            ),
        decreases uni_poly@.len() - i,
    {
        let msg = &uni_poly[i];
        proof {
            assert(msgs[i as int] == vals_of(uni_poly@[i as int]@));
            if uni_poly@[i as int]@.len() >= 2 {
                assert(vals_of(uni_poly@[i as int]@)[0] == uni_poly@[i as int]@[0].val());
                assert(vals_of(uni_poly@[i as int]@)[1] == uni_poly@[i as int]@[1].val());
            }
        }
        if msg.len() != 3 {
            proof {
                lemma_gsc_verify_step_reject(
                    claimed_sum.val(),
                    msgs,
                    seed,
                    vals_of(chals@),
                    claim.val(),
                    fiat_shamir@,
                    i as int,
                );
            }
            return None;
        }
        let s = crate::field::fe_add(msg[0], msg[1]);
        if !crate::field::fe_eq(s, claim) {
            proof {
                lemma_gsc_verify_step_reject(
                    claimed_sum.val(),
                    msgs,
                    seed,
                    vals_of(chals@),
                    claim.val(),
                    fiat_shamir@,
                    i as int,
                );
            }
            return None;
        }
        let ghost pre_ts = fiat_shamir@;
        crate::sumcheck::absorb_fes(fiat_shamir, msg);
        let challenge = fiat_shamir.squeeze();
        let new_claim = lagrange3_eval(msg, challenge);
        proof {
            lemma_gsc_verify_step(
                claimed_sum.val(),
                msgs,
                seed,
                vals_of(chals@),
                claim.val(),
                pre_ts,
                i as int,
                challenge.val(),
                new_claim.val(),
                fiat_shamir@,
            );
        }
        let ghost prev_chals = chals@;
        chals.push(challenge);
        proof {
            assert(vals_of(chals@) =~= vals_of(prev_chals).push(challenge.val()));
        }
        claim = new_claim;
        i = i + 1;
    }
    proof {
        reveal(gsc_verify_rec);
        assert(msgs.skip(uni_poly@.len() as int) =~= Seq::<Seq<nat>>::empty());
        assert(vals_of(chals@) + Seq::<nat>::empty() =~= vals_of(chals@));
    }
    Some((claim, chals))
}

/// Blends the sum of products at every challenge in turn, reduces the
/// fully-fixed result, and returns its single slot: the direct evaluation
/// of the sum of products at the challenge point.
pub fn sp_eval_at(init_poly: &SumPolynomial, chals: &Vec<Fe>) -> (r: Option<Fe>)
    requires
        sp_shape(*init_poly, sp_len(*init_poly)),
        all_wf(chals@),
    ensures
        match r {
            Some(x) => {
                &&& chals@.len() == lg(sp_len(*init_poly))
                &&& x.wf()
                &&& x.val() == pair_entry(
                    pairs_iter(prods_pairs(init_poly.polyomials@), vals_of(chals@)),
                    0,
                )
            },
            None => chals@.len() != lg(sp_len(*init_poly)),
        },
{
    let ghost ps0 = prods_pairs(init_poly.polyomials@);
    let ghost pt = vals_of(chals@);
    proof {
        lemma_pow2_lg(sp_len(*init_poly));
    }
    let n = crate::hypercube::table_vars(
        init_poly.polyomials[0].polyomials[0].representation.len(),
    );
    proof {
        assert(init_poly.polyomials@[0].factors()[0] == init_poly.polyomials@[0].polyomials@[0].vals());
    }
    if chals.len() != n {
        return None;
    }
    let mut current = sp_clone_shaped(init_poly);
    let mut t: usize = 0;
    proof {
        assert(pairs_iter(ps0, pt.take(0)) == ps0) by {
            assert(pt.take(0) =~= Seq::<nat>::empty());
        }
    }
    while t < n
        invariant
            t <= n,
            n == chals@.len(),
            n as nat == lg(sp_len(*init_poly)),
            ps0 == prods_pairs(init_poly.polyomials@),
            pt == vals_of(chals@),
            all_wf(chals@),
            sp_shape(current, sp_len(current)),
            lg(sp_len(current)) == n - t,
            prods_pairs(current.polyomials@) == pairs_iter(ps0, pt.take(t as int)),
        decreases n - t,
    {
        proof {
            lemma_pow2_lg(sp_len(current));
            assert(pt[t as int] == chals@[t as int].val());
        }
        let next = sp_blend(&current, chals[t]);
        proof {
            lemma_pairs_iter_snoc(ps0, pt.take(t as int), pt[t as int]);
            assert(pt.take(t + 1) =~= pt.take(t as int).push(pt[t as int]));
        }
        current = next;
        t = t + 1;
    }
    proof {
        assert(pt.take(pt.len() as int) =~= pt);
        lemma_pow2_lg(sp_len(current));
    }
    let reduced = match current.reduce() {
        Ok(q) => q,
        Err(_) => {
            proof {
                assert(current.polyomials@.len() >= 1);
                assert(crate::product_poly::reduce_shape(
                    current.polyomials@,
                    current.polyomials@[0].factors()[0].len(),
                ));
                assert(false);
            }
            SumPolynomial { polyomials: Vec::new() }
        },
    };
    let entry = reduced.polyomials[0].polyomials[0].representation[0];
    proof {
        assert(reduced.polyomials@[0].factors()[0] == reduced.polyomials@[0].polyomials@[0].vals());
        assert(vals_of(reduced.polyomials@[0].polyomials@[0].representation@)[0]
            == reduced.polyomials@[0].polyomials@[0].representation@[0].val());
        lemma_reduce_entry_pairs(current.polyomials@, 0);
    }
    Some(entry)
}

/// The quadratic sumcheck prover.  Absorbs every factor table and the
/// claim, then runs one round per variable.  The claim is echoed; the
/// messages and challenges are a function of the inputs alone.
pub fn prove(init_poly: &SumPolynomial, claimed_sum: Fe) -> (r: (Fe, Vec<Vec<Fe>>, Vec<Fe>))
    requires
        sp_shape(*init_poly, sp_len(*init_poly)),
        claimed_sum.wf(),
    ensures
        r.0 == claimed_sum,
        msgs_wf(r.1@),
        all_wf(r.2@),
        (msgs_vals(r.1@), vals_of(r.2@)) == (
            gsc_rounds(
                prods_pairs(init_poly.polyomials@),
                sp_len(*init_poly),
                gsc_seed(*init_poly, claimed_sum),
                lg(sp_len(*init_poly)),
            ).0,
            gsc_rounds(
                prods_pairs(init_poly.polyomials@),
                sp_len(*init_poly),
                gsc_seed(*init_poly, claimed_sum),
                lg(sp_len(*init_poly)),
            ).1,
        ),
{
    let mut fiat_shamir = FiatShamir::new();
    absorb_sp(&mut fiat_shamir, init_poly);
    let claimed_bytes = fe_to_bytes_be(claimed_sum);
    fiat_shamir.absorb(claimed_bytes.as_slice());
    proof {
        assert(fiat_shamir@ =~= gsc_seed(*init_poly, claimed_sum));
    }
    let (unipoly_vec, challenge_vec) = gsc_prove_rounds(init_poly, &mut fiat_shamir);
    (claimed_sum, unipoly_vec, challenge_vec)
}

/// The quadratic sumcheck verifier.  Replays the transcript, checks each
/// round, and finally evaluates the sum of products itself at the
/// challenges.  Returns the final claim and the challenges on acceptance
/// and nothing on REJECT.
pub fn verify(init_poly: &SumPolynomial, claimed_sum: Fe, uni_poly: &Vec<Vec<Fe>>) -> (r: Option<
    (Fe, Vec<Fe>),
>)
    requires
        sp_shape(*init_poly, sp_len(*init_poly)),
        claimed_sum.wf(),
        msgs_wf(uni_poly@),
    ensures
        match r {
            Some((fin, chals)) => {
                &&& fin.wf()
                &&& all_wf(chals@)
                &&& gsc_verify_spec(
                    prods_pairs(init_poly.polyomials@),
                    sp_len(*init_poly),
                    claimed_sum.val(),
                    msgs_vals(uni_poly@),
                    gsc_seed(*init_poly, claimed_sum),
                ) == Some((fin.val(), vals_of(chals@)))
            },
            None => gsc_verify_spec(
                prods_pairs(init_poly.polyomials@),
                sp_len(*init_poly),
                claimed_sum.val(),
                msgs_vals(uni_poly@),
                gsc_seed(*init_poly, claimed_sum),
            ) is None,
        },
{
    let ghost seed = gsc_seed(*init_poly, claimed_sum);
    proof {
        lemma_pow2_lg(sp_len(*init_poly));
    }
    let n = crate::hypercube::table_vars(
        init_poly.polyomials[0].polyomials[0].representation.len(),
    );
    proof {
        assert(init_poly.polyomials@[0].factors()[0] == init_poly.polyomials@[0].polyomials@[0].vals());
    }
    if uni_poly.len() != n {
        return None;
    }
    let mut fiat_shamir = FiatShamir::new();
    absorb_sp(&mut fiat_shamir, init_poly);
    let claimed_bytes = fe_to_bytes_be(claimed_sum);
    fiat_shamir.absorb(claimed_bytes.as_slice());
    proof {
        assert(fiat_shamir@ =~= seed);
    }
    let (fin, chals) = match gsc_verify_rounds(claimed_sum, uni_poly, &mut fiat_shamir) {
        Some(pair) => pair,
        None => {
            return None;
        },
    };
    let value = match sp_eval_at(init_poly, &chals) {
        Some(v) => v,
        None => {
            proof {
                assert(false);
            }
            return None;
        },
    };
    if crate::field::fe_eq(value, fin) {
        Some((fin, chals))
    } else {
        None
    }
}

} // verus!
