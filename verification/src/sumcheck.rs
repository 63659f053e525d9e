//! The sumcheck protocol for one multilinear polynomial in evaluation form:
//! the prover reduces the claim `claimed_sum = sum of g over the hypercube`
//! to one line per variable, the verifier replays the transcript, checks
//! each line against the running claim, and finally evaluates `g` itself at
//! the challenge point.

use vstd::prelude::*;
use crate::algebra::{
    lemma_add_f_cancel, lemma_f_bound, lemma_sum_vals_bound, lemma_sum_vals_concat,
    lemma_sum_vals_pointwise_add, lemma_sum_vals_scale, sum_vals,
};
use crate::evaluation_form::{
    all_wf, lemma_pe0_index, lemma_pe_iter_snoc, pe0, pe_iter, pe_table0, vals_of,
};
use crate::field::{add_f, fe_of, lemma_fe_of, mul_f, p, sub_f, Fe};
use crate::hypercube::{is_pow2, lemma_pow2_halves, lemma_pow2_lg, lg, table_vars};
use crate::transcript::{fe_bytes, fe_seq_bytes, fe_slice_bytes, fe_to_bytes_be, sha3_of,
    squeeze_val, FiatShamir};

verus! {

/// The transcript bytes of a list of residues, each in its canonical
/// 32-byte big-endian encoding.
pub open spec fn vals_bytes(vs: Seq<nat>) -> Seq<u8> {
    fe_seq_bytes(vs.map_values(|v: nat| fe_of(v)))
}

/// The two half sums of a table: the round message of the multilinear
/// sumcheck prover.
pub open spec fn half_sums(v: Seq<nat>) -> Seq<nat> {
    seq![sum_vals(v.take(v.len() as int / 2)), sum_vals(v.skip(v.len() as int / 2))]
}

/// The whole run of the prover: per round, the half-sum message is
/// absorbed, a challenge is squeezed, and the table is blended at the
/// challenge.  Yields the messages, the challenges, and the final
/// transcript state.
pub open spec fn sc_rounds(g: Seq<nat>, ts: Seq<u8>, k: nat) -> (Seq<Seq<nat>>, Seq<nat>, Seq<u8>)
    decreases k,
{
    if k == 0 {
        (Seq::<Seq<nat>>::empty(), Seq::<nat>::empty(), ts)
    } else {
        let m = half_sums(g);
        let ts1 = ts + vals_bytes(m);
        let r = squeeze_val(ts1);
        let ts2 = ts1 + sha3_of(ts1);
        let rec = sc_rounds(pe0(g, r), ts2, (k - 1) as nat);
        (seq![m] + rec.0, seq![r] + rec.1, rec.2)
    }
}

/// The verifier's replay of the rounds: each message must carry two values
/// summing to the running claim; the claim then becomes the line through
/// the message evaluated at the squeezed challenge.
#[verifier::opaque]
pub open spec fn sc_verify_rec(claimed: nat, msgs: Seq<Seq<nat>>, ts: Seq<u8>) -> Option<
    (nat, Seq<nat>, Seq<u8>),
>
    decreases msgs.len(),
{
    if msgs.len() == 0 {
        Some((claimed, Seq::<nat>::empty(), ts))
    } else {
        let m = msgs[0];
        if m.len() != 2 {
            None
        } else if add_f(m[0], m[1]) != claimed {
            None
        } else {
            let ts1 = ts + vals_bytes(m);
            let r = squeeze_val(ts1);
            let ts2 = ts1 + sha3_of(ts1);
            let c = add_f(mul_f(sub_f(1, r), m[0]), mul_f(r, m[1]));
            match sc_verify_rec(c, msgs.drop_first(), ts2) {
                None => None,
                Some((fin, chals, tsf)) => Some((fin, seq![r] + chals, tsf)),
            }
        }
    }
}

/// The transcript seed of one standalone run: the polynomial's values,
/// then the claimed sum.
pub open spec fn sc_seed(g: Seq<Fe>, claimed: Fe) -> Seq<u8> {
    fe_seq_bytes(g) + fe_bytes(claimed)
}

/// The whole verifier: the round count must match the variable count, each
/// round must check, and the polynomial itself, evaluated at the
/// challenges, must equal the final claim.
pub open spec fn sc_verify_spec(g: Seq<nat>, claimed: nat, msgs: Seq<Seq<nat>>, ts: Seq<u8>) -> Option<
    nat,
> {
    if msgs.len() != lg(g.len()) {
        None
    } else {
        match sc_verify_rec(claimed, msgs, ts) {
            None => None,
            Some((fin, chals, _)) => if pe_iter(g, chals).len() == 1 && pe_iter(g, chals)[0] == fin {
                Some(fin)
            } else {
                None
            },
        }
    }
}

/// The two halves of a round message sum to the table's sum.
pub proof fn lemma_half_sums_total(g: Seq<nat>)
    ensures
        add_f(half_sums(g)[0], half_sums(g)[1]) == sum_vals(g),
{
    let half = g.len() as int / 2;
    assert(g =~= g.take(half) + g.skip(half));
    lemma_sum_vals_concat(g.take(half), g.skip(half));
}

/// Blending the table at `r` blends the two half sums: the sum of the
/// blended table is the message's line evaluated at `r`.
pub proof fn lemma_sum_pe0(g: Seq<nat>, r: nat)
    requires
        is_pow2(g.len()),
        g.len() >= 2,
    ensures
        sum_vals(pe0(g, r)) == add_f(mul_f(sub_f(1, r), half_sums(g)[0]), mul_f(r, half_sums(g)[1])),
{
    let half = g.len() as int / 2;
    let a = Seq::new(half as nat, |k: int| mul_f(sub_f(1, r), g[k]));
    let b = Seq::new(half as nat, |k: int| mul_f(r, g[k + half]));
    assert forall|k: int| 0 <= k < half implies pe0(g, r)[k] == add_f(a[k], b[k]) by {
        lemma_pe0_index(g, r, k);
    }
    assert(pe0(g, r).len() == half);
    lemma_sum_vals_pointwise_add(a, b, pe0(g, r));
    assert(forall|k: int| 0 <= k < half ==> a[k] == mul_f(sub_f(1, r), g.take(half)[k]));
    lemma_sum_vals_scale(sub_f(1, r), g.take(half), a);
    assert(forall|k: int| 0 <= k < half ==> b[k] == mul_f(r, g.skip(half)[k]));
    lemma_sum_vals_scale(r, g.skip(half), b);
}

/// Completeness of the sumcheck rounds: against the true sum, every round
/// of an honest prover's transcript checks out, the verifier's replay
/// derives the same challenges, and the final claim is the table fully
/// blended at those challenges.
pub proof fn lemma_sumcheck_completeness(g: Seq<nat>, ts: Seq<u8>)
    requires
        is_pow2(g.len()),
        forall|k: int| 0 <= k < g.len() ==> g[k] < p(),
    ensures
        sc_rounds(g, ts, lg(g.len())).0.len() == lg(g.len()),
        pe_iter(g, sc_rounds(g, ts, lg(g.len())).1).len() == 1,
        pe_iter(g, sc_rounds(g, ts, lg(g.len())).1)[0] < p(),
        sc_verify_rec(sum_vals(g), sc_rounds(g, ts, lg(g.len())).0, ts) == Some(
            (
                pe_iter(g, sc_rounds(g, ts, lg(g.len())).1)[0],
                sc_rounds(g, ts, lg(g.len())).1,
                sc_rounds(g, ts, lg(g.len())).2,
            ),
        ),
        sc_verify_spec(g, sum_vals(g), sc_rounds(g, ts, lg(g.len())).0, ts) == Some(
            pe_iter(g, sc_rounds(g, ts, lg(g.len())).1)[0],
        ),
    decreases g.len(),
{
    reveal(sc_verify_rec);
    lemma_pow2_lg(g.len());
    let k = lg(g.len());
    if k == 0 {
        assert(g.len() == 1) by {
            vstd::arithmetic::power2::lemma2_to64();
        }
        let rounds = sc_rounds(g, ts, 0);
        assert(rounds.0 =~= Seq::<Seq<nat>>::empty());
        assert(rounds.1 =~= Seq::<nat>::empty());
        assert(pe_iter(g, rounds.1) == g);
        assert(sum_vals(g) == add_f(0, g[0])) by {
            assert(g.drop_last() =~= Seq::<nat>::empty());
            assert(g.last() == g[0]);
            assert(sum_vals(Seq::<nat>::empty()) == 0);
        }
        crate::algebra::lemma_add_f_zero(g[0]);
    } else {
        crate::hypercube::lemma_pow2_halves(g.len());
        let m = half_sums(g);
        let ts1 = ts + vals_bytes(m);
        let r = squeeze_val(ts1);
        let ts2 = ts1 + sha3_of(ts1);
        let g2 = pe0(g, r);
        assert(g2.len() == g.len() / 2);
        assert(is_pow2(g2.len()) && lg(g2.len()) == k - 1);
        assert forall|t: int| 0 <= t < g2.len() implies g2[t] < p() by {
            lemma_pe0_index(g, r, t);
            lemma_f_bound(mul_f(sub_f(1, r), g[t]), mul_f(r, g[t + g.len() as int / 2]));
        }
        lemma_sumcheck_completeness(g2, ts2);
        let rec = sc_rounds(g2, ts2, (k - 1) as nat);
        let rounds = sc_rounds(g, ts, k);
        assert(rounds.0 == seq![m] + rec.0);
        assert(rounds.1 == seq![r] + rec.1);
        assert(rounds.0[0] == m);
        assert(rounds.0.drop_first() =~= rec.0);
        assert(rounds.1[0] == r);
        assert(rounds.1.drop_first() =~= rec.1);
        assert(pe_iter(g, rounds.1) == pe_iter(g2, rec.1));
        lemma_half_sums_total(g);
        lemma_sum_vals_bound(g);
        lemma_sum_pe0(g, r);
        assert(sum_vals(g2) == add_f(mul_f(sub_f(1, r), m[0]), mul_f(r, m[1])));
        assert(sc_verify_rec(sum_vals(g), rounds.0, ts) == Some(
            (pe_iter(g2, rec.1)[0], seq![r] + rec.1, rec.2),
        ));
    }
}

/// Tampering with a single value of a single round message of an honest
/// run, while the claim is the true sum, is caught by the round check of
/// that very round: the verifier REJECTs by an exact equality failure.
/// The prover emits one message and one challenge per round.
pub proof fn lemma_sc_rounds_len(g: Seq<nat>, ts: Seq<u8>, k: nat)
    ensures
        sc_rounds(g, ts, k).0.len() == k,
        sc_rounds(g, ts, k).1.len() == k,
    decreases k,
{
    if k > 0 {
        let m = half_sums(g);
        let ts1 = ts + vals_bytes(m);
        let r = squeeze_val(ts1);
        let ts2 = ts1 + sha3_of(ts1);
        lemma_sc_rounds_len(pe0(g, r), ts2, (k - 1) as nat);
    }
}

/// Changing one of two summands below the modulus changes the sum.
proof fn lemma_update_sum_differs(m: Seq<nat>, total: nat, j: int, v: nat)
    requires
        m.len() == 2,
        add_f(m[0], m[1]) == total,
        m[0] < p(),
        m[1] < p(),
        v < p(),
        0 <= j < 2,
        v != m[j],
    ensures
        add_f(m.update(j, v)[0], m.update(j, v)[1]) != total,
{
    let tm = m.update(j, v);
    if j == 0 {
        assert(tm[0] == v && tm[1] == m[1]);
        if add_f(v, m[1]) == total {
            lemma_add_f_cancel(v, m[0], m[1]);
        }
    } else {
        assert(tm[0] == m[0] && tm[1] == v);
        if add_f(m[0], v) == total {
            crate::algebra::lemma_add_f_comm(m[0], v);
            crate::algebra::lemma_add_f_comm(m[0], m[1]);
            lemma_add_f_cancel(v, m[1], m[0]);
        }
    }
}

#[verifier::rlimit(100)]
pub proof fn lemma_tamper_rejected(g: Seq<nat>, ts: Seq<u8>, i: int, j: int, v: nat)
    requires
        is_pow2(g.len()),
        forall|k: int| 0 <= k < g.len() ==> g[k] < p(),
        0 <= i < lg(g.len()),
        0 <= j < 2,
        v < p(),
        v != sc_rounds(g, ts, lg(g.len())).0[i][j],
    ensures
        sc_verify_rec(
            sum_vals(g),
            sc_rounds(g, ts, lg(g.len())).0.update(
                i,
                sc_rounds(g, ts, lg(g.len())).0[i].update(j, v),
            ),
            ts,
        ) is None,
    decreases i,
{
    reveal(sc_verify_rec);
    lemma_pow2_lg(g.len());
    let k = lg(g.len());
    crate::hypercube::lemma_pow2_halves(g.len());
    let m = half_sums(g);
    let ts1 = ts + vals_bytes(m);
    let r = squeeze_val(ts1);
    let ts2 = ts1 + sha3_of(ts1);
    let g2 = pe0(g, r);
    let rec = sc_rounds(g2, ts2, (k - 1) as nat);
    let honest = sc_rounds(g, ts, k);
    lemma_sc_rounds_len(g, ts, k);
    lemma_sc_rounds_len(g2, ts2, (k - 1) as nat);
    assert(honest.0 == seq![m] + rec.0);
    assert(honest.0[0] == m);
    lemma_half_sums_total(g);
    lemma_sum_vals_bound(g);
    lemma_sum_vals_bound(g.take(g.len() as int / 2));
    lemma_sum_vals_bound(g.skip(g.len() as int / 2));
    if i == 0 {
        let tm = m.update(j, v);
        let tampered = honest.0.update(0, tm);
        assert(tampered[0] == tm);
        assert(tm.len() == 2);
        lemma_update_sum_differs(m, sum_vals(g), j, v);
    } else {
        let tm = honest.0[i].update(j, v);
        let tampered = honest.0.update(i, tm);
        assert(tampered[0] == m);
        assert(honest.0[i] == rec.0[i - 1]);
        lemma_sum_pe0(g, r);
        assert forall|t: int| 0 <= t < g2.len() implies g2[t] < p() by {
            lemma_pe0_index(g, r, t);
            lemma_f_bound(mul_f(sub_f(1, r), g[t]), mul_f(r, g[t + g.len() as int / 2]));
        }
        lemma_tamper_rejected(g2, ts2, i - 1, j, v);
        assert(tampered.drop_first() =~= rec.0.update(i - 1, tm));
        assert(add_f(mul_f(sub_f(1, r), m[0]), mul_f(r, m[1])) == sum_vals(g2));
    }
}

/// Determinism of the prover: the round messages are a function of the
/// polynomial and the claim alone, so any two outputs that honour the
/// prover's contract on equal inputs are identical element by element.
pub proof fn lemma_prover_deterministic(
    out1: Seq<Vec<Fe>>,
    out2: Seq<Vec<Fe>>,
    g: Seq<Fe>,
    claimed: Fe,
    k: nat,
)
    requires
        msgs_wf(out1),
        msgs_wf(out2),
        msgs_vals(out1) == sc_rounds(vals_of(g), sc_seed(g, claimed), k).0,
        msgs_vals(out2) == sc_rounds(vals_of(g), sc_seed(g, claimed), k).0,
    ensures
        out1.len() == out2.len(),
        forall|i: int, j: int|
            0 <= i < out1.len() && 0 <= j < out1[i]@.len() ==> out1[i]@[j] == out2[i]@[j],
{
    assert(msgs_vals(out1).len() == out1.len());
    assert(msgs_vals(out2).len() == out2.len());
    assert forall|i: int, j: int|
        0 <= i < out1.len() && 0 <= j < out1[i]@.len() implies out1[i]@[j] == out2[i]@[j] by {
        assert(msgs_vals(out1)[i] == vals_of(out1[i]@));
        assert(msgs_vals(out2)[i] == vals_of(out2[i]@));
        assert(vals_of(out1[i]@)[j] == out1[i]@[j].val());
        assert(vals_of(out2[i]@)[j] == out2[i]@[j].val());
        assert(out1[i]@[j].wf() && out2[i]@[j].wf());
        crate::field::lemma_val_injective(out1[i]@[j], out2[i]@[j]);
    }
}

/// A partial verifier outcome, with challenges already gathered put in
/// front.
pub open spec fn with_prefix(chals: Seq<nat>, res: Option<(nat, Seq<nat>, Seq<u8>)>) -> Option<
    (nat, Seq<nat>, Seq<u8>),
> {
    match res {
        None => None,
        Some((fin, cs, tsf)) => Some((fin, chals + cs, tsf)),
    }
}

/// One verifier round, read off the recursion: when the message checks
/// out against the claim, the replay continues with the blended claim, the
/// squeezed challenge appended, and the digest re-absorbed.
proof fn lemma_verify_step(
    claimed0: nat,
    msgs: Seq<Seq<nat>>,
    seed: Seq<u8>,
    chals: Seq<nat>,
    claim: nat,
    ts: Seq<u8>,
    i: int,
    r: nat,
    c2: nat,
    ts2: Seq<u8>,
)
    requires
        0 <= i < msgs.len(),
        msgs[i].len() == 2,
        add_f(msgs[i][0], msgs[i][1]) == claim,
        r == squeeze_val(ts + vals_bytes(msgs[i])),
        ts2 == ts + vals_bytes(msgs[i]) + sha3_of(ts + vals_bytes(msgs[i])),
        c2 == add_f(mul_f(sub_f(1, r), msgs[i][0]), mul_f(r, msgs[i][1])),
        sc_verify_rec(claimed0, msgs, seed) == with_prefix(
            chals,
            sc_verify_rec(claim, msgs.skip(i), ts),
        ),
    ensures
        sc_verify_rec(claimed0, msgs, seed) == with_prefix(
            chals.push(r),
            sc_verify_rec(c2, msgs.skip(i + 1), ts2),
        ),
{
    reveal(sc_verify_rec);
    assert(msgs.skip(i)[0] == msgs[i]);
    assert(msgs.skip(i).drop_first() =~= msgs.skip(i + 1));
    let rec = sc_verify_rec(c2, msgs.skip(i + 1), ts2);
    assert(sc_verify_rec(claim, msgs.skip(i), ts) == with_prefix(seq![r], rec));
    if rec is Some {
        let cs2 = rec->Some_0.1;
        assert(chals + (seq![r] + cs2) =~= chals.push(r) + cs2);
    }
}

/// A failing round check fails the replay.
proof fn lemma_verify_step_reject(
    claimed0: nat,
    msgs: Seq<Seq<nat>>,
    seed: Seq<u8>,
    chals: Seq<nat>,
    claim: nat,
    ts: Seq<u8>,
    i: int,
)
    requires
        0 <= i < msgs.len(),
        msgs[i].len() != 2 || add_f(msgs[i][0], msgs[i][1]) != claim,
        sc_verify_rec(claimed0, msgs, seed) == with_prefix(
            chals,
            sc_verify_rec(claim, msgs.skip(i), ts),
        ),
    ensures
        sc_verify_rec(claimed0, msgs, seed) is None,
{
    reveal(sc_verify_rec);
    assert(msgs.skip(i)[0] == msgs[i]);
}

/// The view of a list of round messages.
pub open spec fn msgs_vals(m: Seq<Vec<Fe>>) -> Seq<Seq<nat>> {
    m.map_values(|v: Vec<Fe>| vals_of(v@))
}

/// Every message holds canonical elements.
pub open spec fn msgs_wf(m: Seq<Vec<Fe>>) -> bool {
    forall|j: int| 0 <= j < m.len() ==> all_wf((#[trigger] m[j])@)
}

/// The round message over a raw table: both half sums.
pub fn proof_engine(evaluation_form_vec: &Vec<Fe>) -> (r: Vec<Fe>)
    requires
        all_wf(evaluation_form_vec@),
    ensures
        r@.len() == 2,
        all_wf(r@),
        vals_of(r@) == half_sums(vals_of(evaluation_form_vec@)),
{
    let mid = evaluation_form_vec.len() / 2;
    let ghost vals = vals_of(evaluation_form_vec@);
    let mut first_half_sum = Fe::zero();
    let mut i: usize = 0;
    while i < mid
        invariant
            i <= mid,
            mid == evaluation_form_vec@.len() / 2,
            all_wf(evaluation_form_vec@),
            vals == vals_of(evaluation_form_vec@),
            first_half_sum.wf(),
            first_half_sum.val() == sum_vals(vals.take(mid as int).take(i as int)),
        decreases mid - i,
    {
        first_half_sum = crate::field::fe_add(first_half_sum, evaluation_form_vec[i]);
        proof {
            let pre = vals.take(mid as int);
            assert(pre.take(i + 1).drop_last() =~= pre.take(i as int));
            assert(pre.take(i + 1).last() == vals[i as int]);
            assert(vals[i as int] == evaluation_form_vec@[i as int].val());
        }
        i = i + 1;
    }
    let mut second_half_sum = Fe::zero();
    let mut j: usize = mid;
    while j < evaluation_form_vec.len()
        invariant
            mid <= j <= evaluation_form_vec@.len(),
            mid == evaluation_form_vec@.len() / 2,
            all_wf(evaluation_form_vec@),
            vals == vals_of(evaluation_form_vec@),
            second_half_sum.wf(),
            second_half_sum.val() == sum_vals(vals.skip(mid as int).take(j - mid)),
        decreases evaluation_form_vec@.len() - j,
    {
        second_half_sum = crate::field::fe_add(second_half_sum, evaluation_form_vec[j]);
        proof {
            let post = vals.skip(mid as int);
            assert(post.take(j - mid + 1).drop_last() =~= post.take(j - mid));
            assert(post.take(j - mid + 1).last() == vals[j as int]);
            assert(vals[j as int] == evaluation_form_vec@[j as int].val());
        }
        j = j + 1;
    }
    let univariate_polynomial: Vec<Fe> = vec![first_half_sum, second_half_sum];
    proof {
        let pre = vals.take(vals.len() as int / 2);
        assert(pre.take(pre.len() as int) =~= pre);
        let post = vals.skip(vals.len() as int / 2);
        assert(post.take(post.len() as int) =~= post);
        assert(vals_of(univariate_polynomial@) =~= half_sums(vals));
    }
    univariate_polynomial
}

/// Absorbs a list of field elements into the transcript.
pub fn absorb_fes(ts: &mut FiatShamir, values: &Vec<Fe>)
    requires
        all_wf(values@),
    ensures
        final(ts)@ == old(ts)@ + vals_bytes(vals_of(values@)),
{
    let bytes = fe_slice_bytes(values);
    proof {
        assert(vals_of(values@).map_values(|v: nat| fe_of(v)) =~= values@) by {
            assert forall|k: int|
                0 <= k < values@.len() implies vals_of(values@).map_values(|v: nat| fe_of(v))[k]
                == values@[k] by {
                assert(vals_of(values@)[k] == values@[k].val());
                lemma_fe_of(values@[k]);
            }
        }
    }
    ts.absorb(bytes.as_slice());
}

/// The sumcheck prover.  Absorbs the polynomial and the claim, then per
/// round emits both half sums, squeezes a challenge and blends the table
/// at it.  Returns the claim unchanged and the round messages; both are a
/// function of the inputs alone.
pub fn prove(init_polynomial: &Vec<Fe>, claimed_sum: Fe) -> (r: (Fe, Vec<Vec<Fe>>))
    requires
        is_pow2(init_polynomial@.len() as nat),
        all_wf(init_polynomial@),
        claimed_sum.wf(),
    ensures
        r.0 == claimed_sum,
        msgs_wf(r.1@),
        msgs_vals(r.1@) == sc_rounds(
            vals_of(init_polynomial@),
            sc_seed(init_polynomial@, claimed_sum),
            lg(init_polynomial@.len() as nat),
        ).0,
{
    let ghost g0 = vals_of(init_polynomial@);
    let ghost seed = sc_seed(init_polynomial@, claimed_sum);
    let no_of_variables = table_vars(init_polynomial.len());
    let mut fiat_shamir = FiatShamir::new();
    let init_bytes = fe_slice_bytes(init_polynomial);
    fiat_shamir.absorb(init_bytes.as_slice());
    let claimed_bytes = fe_to_bytes_be(claimed_sum);
    fiat_shamir.absorb(claimed_bytes.as_slice());
    proof {
        assert(fiat_shamir@ =~= seed);
    }
    let mut unipoly_vec: Vec<Vec<Fe>> = Vec::new();
    let mut poly = crate::evaluation_form::copy_fe_vec(init_polynomial);
    let mut i: usize = 0;
    proof {
        lemma_pow2_lg(init_polynomial@.len() as nat);
    }
    while i < no_of_variables
        invariant
            i <= no_of_variables,
            no_of_variables as nat == lg(g0.len()),
            g0 == vals_of(init_polynomial@),
            is_pow2(vals_of(poly@).len()),
            all_wf(poly@),
            lg(vals_of(poly@).len()) == no_of_variables - i,
            msgs_wf(unipoly_vec@),
            sc_rounds(g0, seed, no_of_variables as nat).0 == msgs_vals(unipoly_vec@) + sc_rounds(
                vals_of(poly@),
                fiat_shamir@,
                (no_of_variables - i) as nat,
            ).0,
            sc_rounds(g0, seed, no_of_variables as nat).2 == sc_rounds(
                vals_of(poly@),
                fiat_shamir@,
                (no_of_variables - i) as nat,
            ).2,
        decreases no_of_variables - i,
    {
        proof {
            lemma_pow2_lg(vals_of(poly@).len());
            if vals_of(poly@).len() < 2 {
                assert(lg(vals_of(poly@).len()) == 0);
            }
        }
        let uni_polynomial_eval = proof_engine(&poly);
        let ghost pre_ts = fiat_shamir@;
        let ghost gv = vals_of(poly@);
        absorb_fes(&mut fiat_shamir, &uni_polynomial_eval);
        let challenge = fiat_shamir.squeeze();
        let next = pe_table0(&poly, challenge);
        let ghost prev_msgs = unipoly_vec@;
        unipoly_vec.push(uni_polynomial_eval);
        poly = next;
        proof {
            let k = (no_of_variables - i) as nat;
            assert(sc_rounds(gv, pre_ts, k).0 == seq![half_sums(gv)] + sc_rounds(
                vals_of(poly@),
                fiat_shamir@,
                (k - 1) as nat,
            ).0);
            assert(msgs_vals(unipoly_vec@) =~= msgs_vals(prev_msgs) + seq![half_sums(gv)]);
            assert(msgs_vals(prev_msgs) + (seq![half_sums(gv)] + sc_rounds(
                vals_of(poly@),
                fiat_shamir@,
                (k - 1) as nat,
            ).0) =~= (msgs_vals(prev_msgs) + seq![half_sums(gv)]) + sc_rounds(
                vals_of(poly@),
                fiat_shamir@,
                (k - 1) as nat,
            ).0);
        }
        i = i + 1;
    }
    proof {
        assert(sc_rounds(vals_of(poly@), fiat_shamir@, 0).0 =~= Seq::<Seq<nat>>::empty());
        assert(msgs_vals(unipoly_vec@) + Seq::<Seq<nat>>::empty() =~= msgs_vals(unipoly_vec@));
    }
    (claimed_sum, unipoly_vec)
}

/// Replays the round messages against the running claim on the given
/// transcript: per round the two values must sum to the claim; the claim
/// becomes the line through them at the squeezed challenge.  Returns the
/// final claim and the challenges, or nothing on a failed check.
pub fn verify_rounds(claimed_sum: Fe, uni_poly: &Vec<Vec<Fe>>, fiat_shamir: &mut FiatShamir) -> (r:
    Option<(Fe, Vec<Fe>)>)
    requires
        claimed_sum.wf(),
        msgs_wf(uni_poly@),
    ensures
        match r {
            Some((fin, chals)) => {
                &&& fin.wf()
                &&& all_wf(chals@)
                &&& chals@.len() == uni_poly@.len()
                &&& sc_verify_rec(claimed_sum.val(), msgs_vals(uni_poly@), old(fiat_shamir)@)
                    == Some((fin.val(), vals_of(chals@), final(fiat_shamir)@))
            },
            None => sc_verify_rec(claimed_sum.val(), msgs_vals(uni_poly@), old(fiat_shamir)@)
                is None,
        },
{
    let ghost msgs = msgs_vals(uni_poly@);
    let ghost seed = old(fiat_shamir)@;
    let mut claim = claimed_sum;
    let mut chals: Vec<Fe> = Vec::new();
    let mut i: usize = 0;
    proof {
        assert(msgs.skip(0) =~= msgs);
        assert(sc_verify_rec(claimed_sum.val(), msgs, seed) == with_prefix(
            vals_of(chals@),
            sc_verify_rec(claimed_sum.val(), msgs.skip(0), fiat_shamir@),
        )) by {
            let rec = sc_verify_rec(claimed_sum.val(), msgs, seed);
            if rec is Some {
                let cs = rec->Some_0.1;
                assert(vals_of(chals@) + cs =~= cs);
            }
        }
    }
    while i < uni_poly.len()
        invariant
            i <= uni_poly@.len(),
            msgs == msgs_vals(uni_poly@),
            seed == old(fiat_shamir)@,
            msgs_wf(uni_poly@),
            claim.wf(),
            all_wf(chals@),
            chals@.len() == i,
            sc_verify_rec(claimed_sum.val(), msgs, seed) == with_prefix(
                vals_of(chals@),
                sc_verify_rec(claim.val(), msgs.skip(i as int), fiat_shamir@),
            ),
        decreases uni_poly@.len() - i,
    {
        let msg = &uni_poly[i];
        proof {
            assert(msgs[i as int] == vals_of(uni_poly@[i as int]@));
            if uni_poly@[i as int]@.len() == 2 {
                assert(vals_of(uni_poly@[i as int]@)[0] == uni_poly@[i as int]@[0].val());
                assert(vals_of(uni_poly@[i as int]@)[1] == uni_poly@[i as int]@[1].val());
            }
        }
        if msg.len() != 2 {
            proof {
                lemma_verify_step_reject(
                    claimed_sum.val(),
                    msgs,
                    seed,
                    vals_of(chals@),
                    claim.val(),
                    fiat_shamir@,
                    i as int,
                );
            }
            return None;
        }
        let s = crate::field::fe_add(msg[0], msg[1]);
        if !crate::field::fe_eq(s, claim) {
            proof {
                lemma_verify_step_reject(
                    claimed_sum.val(),
                    msgs,
                    seed,
                    vals_of(chals@),
                    claim.val(),
                    fiat_shamir@,
                    i as int,
                );
            }
            return None;
        }
        let ghost pre_ts = fiat_shamir@;
        absorb_fes(fiat_shamir, msg);
        let challenge = fiat_shamir.squeeze();
        let one = Fe::one();
        let new_claim = crate::field::fe_add(
            crate::field::fe_mul(crate::field::fe_sub(one, challenge), msg[0]),
            crate::field::fe_mul(challenge, msg[1]),
        );
        proof {
            lemma_verify_step(
                claimed_sum.val(),
                msgs,
                seed,
                vals_of(chals@),
                claim.val(),
                pre_ts,
                i as int,
                challenge.val(),
                new_claim.val(),
                fiat_shamir@,
            );
        }
        let ghost prev_chals = chals@;
        chals.push(challenge);
        proof {
            assert(vals_of(chals@) =~= vals_of(prev_chals).push(challenge.val()));
        }
        claim = new_claim;
        i = i + 1;
    }
    proof {
        reveal(sc_verify_rec);
        assert(msgs.skip(uni_poly@.len() as int) =~= Seq::<Seq<nat>>::empty());
        assert(vals_of(chals@) + Seq::<nat>::empty() =~= vals_of(chals@));
    }
    Some((claim, chals))
}

/// Evaluates a raw table at a full point by repeated blending of the first
/// variable.
pub fn eval_table(rep: &Vec<Fe>, point: &Vec<Fe>) -> (r: Option<Fe>)
    requires
        is_pow2(rep@.len() as nat),
        all_wf(rep@),
        all_wf(point@),
    ensures
        match r {
            Some(x) => {
                &&& lg(rep@.len() as nat) == point@.len()
                &&& x.wf()
                &&& pe_iter(vals_of(rep@), vals_of(point@)).len() == 1
                &&& x.val() == pe_iter(vals_of(rep@), vals_of(point@))[0]
            },
            None => lg(rep@.len() as nat) != point@.len(),
        },
{
    let ghost g0 = vals_of(rep@);
    let ghost pt = vals_of(point@);
    let n = table_vars(rep.len());
    if point.len() != n {
        return None;
    }
    let mut poly = crate::evaluation_form::copy_fe_vec(rep);
    let mut t: usize = 0;
    proof {
        assert(pe_iter(g0, pt.take(0)) == g0) by {
            assert(pt.take(0) =~= Seq::<nat>::empty());
        }
    }
    while t < n
        invariant
            t <= n,
            n == point@.len(),
            n as nat == lg(g0.len()),
            g0 == vals_of(rep@),
            pt == vals_of(point@),
            all_wf(point@),
            is_pow2(vals_of(poly@).len()),
            all_wf(poly@),
            lg(vals_of(poly@).len()) == n - t,
            vals_of(poly@) == pe_iter(g0, pt.take(t as int)),
        decreases n - t,
    {
        proof {
            lemma_pow2_lg(vals_of(poly@).len());
            assert(pt[t as int] == point@[t as int].val());
        }
        let next = pe_table0(&poly, point[t]);
        proof {
            lemma_pe_iter_snoc(g0, pt.take(t as int), pt[t as int]);
            assert(pt.take(t + 1) =~= pt.take(t as int).push(pt[t as int]));
        }
        poly = next;
        t = t + 1;
    }
    proof {
        assert(pt.take(pt.len() as int) =~= pt);
        lemma_pow2_lg(vals_of(poly@).len());
    }
    Some(poly[0])
}

/// The sumcheck verifier.  Replays the transcript, checks each round
/// message against the running claim, and finally evaluates the polynomial
/// itself at the challenges.  Returns the final claim on acceptance and
/// nothing on REJECT.
pub fn verify(init_polynomial: &Vec<Fe>, claimed_sum: Fe, uni_poly: &Vec<Vec<Fe>>) -> (r: Option<
    Fe,
>)
    requires
        is_pow2(init_polynomial@.len() as nat),
        all_wf(init_polynomial@),
        claimed_sum.wf(),
        msgs_wf(uni_poly@),
    ensures
        match r {
            Some(fin) => {
                &&& fin.wf()
                &&& sc_verify_spec(
                    vals_of(init_polynomial@),
                    claimed_sum.val(),
                    msgs_vals(uni_poly@),
                    sc_seed(init_polynomial@, claimed_sum),
                ) == Some(fin.val())
            },
            None => sc_verify_spec(
                vals_of(init_polynomial@),
                claimed_sum.val(),
                msgs_vals(uni_poly@),
                sc_seed(init_polynomial@, claimed_sum),
            ) is None,
        },
{
    let ghost g0 = vals_of(init_polynomial@);
    let ghost seed = sc_seed(init_polynomial@, claimed_sum);
    let ghost msgs = msgs_vals(uni_poly@);
    let no_of_variables = table_vars(init_polynomial.len());
    proof {
        lemma_pow2_lg(init_polynomial@.len() as nat);
    }
    if uni_poly.len() != no_of_variables {
        return None;
    }
    let mut fiat_shamir = FiatShamir::new();
    let init_bytes = fe_slice_bytes(init_polynomial);
    fiat_shamir.absorb(init_bytes.as_slice());
    let claimed_bytes = fe_to_bytes_be(claimed_sum);
    fiat_shamir.absorb(claimed_bytes.as_slice());
    proof {
        assert(fiat_shamir@ =~= seed);
    }
    let (claim, chals) = match verify_rounds(claimed_sum, uni_poly, &mut fiat_shamir) {
        Some(pair) => pair,
        None => {
            return None;
        },
    };
    let value = match eval_table(init_polynomial, &chals) {
        Some(v) => v,
        None => {
            return None;
        },
    };
    if crate::field::fe_eq(value, claim) {
        Some(claim)
    } else {
        None
    }
}

} // verus!


