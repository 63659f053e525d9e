//! The GKR protocol for layered arithmetic circuits: per layer, the claim
//! about a layer's values is reduced through one quadratic sumcheck over the
//! wiring predicates and the next layer's value polynomial, and two relayed
//! evaluations are folded into a single claim by a random linear
//! combination.  The output layer stands at index zero; index grows towards
//! the inputs.

use vstd::prelude::*;
use vstd::arithmetic::power2::pow2;
use crate::evaluation_form::{
    all_wf, pe0, pe_iter, pe_table0, vals_of, EvaluationFormPolynomial,
};
use crate::field::{add_f, fe_of, lemma_fe_of, mul_f, sub_f, Fe};
use crate::gkr_sumcheck::{gsc_rounds, gsc_verify_rec, prods_pairs, sp_len, sp_shape};
use crate::hypercube::{
    append_bits, bits_string, is_pow2, lemma_lg_pow2, lemma_pow2_lg, lg, pow2_exec,
};
use crate::product_poly::{outer_table, ProductPolynomial, SumPolynomial};
use crate::sumcheck::{absorb_fes, msgs_vals, msgs_wf, vals_bytes};
use crate::transcript::{fe_bytes, fe_to_bytes_be, sha3_of, squeeze_val, FiatShamir};
use crate::PolyError;

verus! {

/// The operator of a gate.
#[derive(Debug, Clone, Copy, PartialEq, Eq, Structural)]
pub enum Op {
    /// Field addition.
    Add,
    /// Field multiplication.
    Mul,
}

/// What a gate computes from its two input wires.
pub open spec fn gate_out(op: Op, l: nat, r: nat) -> nat {
    match op {
        Op::Add => add_f(l, r),
        Op::Mul => mul_f(l, r),
    }
}

/// One gate: two input values, the operator, and the computed output.
#[derive(Debug, Clone, Copy, PartialEq, Eq, Structural)]
pub struct Gate {
    /// The left input value.
    pub left: Fe,
    /// The right input value.
    pub right: Fe,
    /// The output value, fixed at construction.
    pub output: Fe,
    /// The operator.
    pub op: Op,
}

impl Gate {
    /// Well-formed: canonical values.
    pub open spec fn wf(self) -> bool {
        self.left.wf() && self.right.wf() && self.output.wf()
    }

    /// Builds a gate, computing its output from the operator.
    pub fn new(left: Fe, right: Fe, op: Op) -> (g: Gate)
        requires
            left.wf(),
            right.wf(),
        ensures
            g.left == left,
            g.right == right,
            g.op == op,
            g.wf(),
            g.output.val() == gate_out(op, left.val(), right.val()),
    {
        let output = match op {
            Op::Add => crate::field::fe_add(left, right),
            Op::Mul => crate::field::fe_mul(left, right),
        };
        Gate { left, right, output, op }
    }
}

/// One layer: its gates, in wire order.
#[derive(Debug, Clone, PartialEq)]
pub struct Layer {
    /// The gates of the layer.
    pub gates: Vec<Gate>,
}

impl Layer {
    /// Well-formed: every gate is.
    pub open spec fn wf(self) -> bool {
        forall|g: int| 0 <= g < self.gates@.len() ==> (#[trigger] self.gates@[g]).wf()
    }

    /// An empty layer.
    pub fn new() -> (r: Layer)
        ensures
            r.gates@.len() == 0,
    {
        Layer { gates: Vec::new() }
    }

    /// Appends one gate.
    pub fn add_gate(&mut self, gate: Gate)
        ensures
            final(self).gates@ == old(self).gates@.push(gate),
    {
        self.gates.push(gate);
    }

    /// Replaces the layer's gates by the next shallower layer: the current
    /// outputs are paired up under the given operators.  Returns the
    /// outputs that were consumed.
    pub fn evaluate_layer(&mut self, ops: Vec<Op>) -> (r: Vec<Fe>)
        requires
            old(self).wf(),
        ensures
            r@.len() == old(self).gates@.len(),
            all_wf(r@),
            vals_of(r@) == old(self).gates@.map_values(|g: Gate| g.output.val()),
            final(self).wf(),
            final(self).gates@.len() == count_paired(ops@.len() as int, r@.len() as int),
            forall|i: int|
                0 <= i < final(self).gates@.len() ==> {
                    &&& (#[trigger] final(self).gates@[i]).left == r@[2 * i]
                    &&& final(self).gates@[i].right == r@[2 * i + 1]
                    &&& final(self).gates@[i].op == ops@[i]
                    &&& final(self).gates@[i].output.val() == gate_out(
                        ops@[i],
                        r@[2 * i].val(),
                        r@[2 * i + 1].val(),
                    )
                },
    {
        let mut output: Vec<Fe> = Vec::new();
        let mut t: usize = 0;
        while t < self.gates.len()
            invariant
                t <= self.gates@.len(),
                self.wf(),
                self == old(self),
                output@.len() == t,
                all_wf(output@),
                forall|k: int| 0 <= k < t ==> output@[k] == (#[trigger] self.gates@[k]).output,
            decreases self.gates@.len() - t,
        {
            output.push(self.gates[t].output);
            t = t + 1;
        }
        proof {
            assert(vals_of(output@) =~= old(self).gates@.map_values(|g: Gate| g.output.val()));
        }
        self.gates = Vec::new();
        let _out_len = output.len();
        proof {
            assert(output@.len() <= usize::MAX);
        }
        let mut i: usize = 0;
        while i < ops.len()
            invariant
                i <= ops@.len(),
                output@.len() == old(self).gates@.len(),
                output@.len() <= usize::MAX,
                all_wf(output@),
                self.gates@.len() == count_paired(i as int, output@.len() as int),
                self.gates@.len() <= i,
                forall|k: int|
                    0 <= k < self.gates@.len() ==> {
                        &&& (#[trigger] self.gates@[k]).left == output@[2 * k]
                        &&& self.gates@[k].right == output@[2 * k + 1]
                        &&& self.gates@[k].op == ops@[k]
                        &&& self.gates@[k].wf()
                        &&& self.gates@[k].output.val() == gate_out(
                            ops@[k],
                            output@[2 * k].val(),
                            output@[2 * k + 1].val(),
                        )
                    },
            decreases ops@.len() - i,
        {
            proof {
                lemma_count_paired(i as int, output@.len() as int);
            }
            if i <= (usize::MAX - 1) / 2 && i * 2 + 1 < output.len() {
                proof {
                    if i >= 1 {
                        lemma_count_paired(i as int - 1, output@.len() as int);
                    }
                    assert(count_paired(i as int, output@.len() as int) == i as int) by {
                        if i >= 1 {
                            assert(2 * (i as int - 1) + 1 < output@.len());
                        }
                    }
                }
                let new_gate = Gate::new(output[i * 2], output[i * 2 + 1], ops[i]);
                self.gates.push(new_gate);
            } else {
                proof {
                    assert(!(2 * (i as int) + 1 < output@.len()));
                }
            }
            i = i + 1;
        }
        proof {
            lemma_count_paired(ops@.len() as int, output@.len() as int);
        }
        output
    }
}

/// How many gates pairing produces: one per operator while two outputs
/// remain.
pub open spec fn count_paired(ops: int, outs: int) -> int
    decreases ops,
{
    if ops <= 0 {
        0
    } else if 2 * (ops - 1) + 1 < outs {
        count_paired(ops - 1, outs) + 1
    } else {
        count_paired(ops - 1, outs)
    }
}

/// Pairing counts grow one step at a time, and pair every operator while
/// the outputs last.
pub proof fn lemma_count_paired(ops: int, outs: int)
    ensures
        ops >= 0 ==> count_paired(ops + 1, outs) == if 2 * ops + 1 < outs {
            count_paired(ops, outs) + 1
        } else {
            count_paired(ops, outs)
        },
        ops >= 0 ==> count_paired(ops, outs) <= ops,
        ops >= 1 && 2 * (ops - 1) + 1 < outs ==> count_paired(ops, outs) == ops,
    decreases
            if ops >= 0 {
                ops + 1
            } else {
                0
            },
{
    if ops > 0 {
        lemma_count_paired(ops - 1, outs);
    }
}

/// The label width of a gate index at a layer: at least one character.
pub open spec fn w_out(layer: nat) -> nat {
    if layer == 0 {
        1
    } else {
        layer
    }
}

/// The wiring table position of gate `g` at a layer: its own label
/// followed by the labels of its two children `2g` and `2g + 1`, read as
/// an integer.
pub open spec fn gate_index(g: nat, layer: nat) -> nat {
    g * pow2(2 * (layer + 1)) + 2 * g * pow2(layer + 1) + 2 * g + 1
}

/// The width of a wiring table at a layer.
pub open spec fn layer_bits(layer: nat) -> nat {
    w_out(layer) + 2 * (layer + 1)
}

/// Whether some gate of the layer with the given operator occupies slot
/// `d` of the wiring table.
pub open spec fn is_op_slot(gates: Seq<Gate>, layer: nat, d: int, op: Op) -> bool {
    exists|g: int|
        0 <= g < gates.len() && (#[trigger] gates[g]).op == op && gate_index(g as nat, layer) == d
}

/// The wiring predicate table of a layer for one operator: one exactly at
/// the slots of matching gates.
pub open spec fn ind_table(gates: Seq<Gate>, layer: nat, op: Op) -> Seq<nat> {
    Seq::new(
        pow2(layer_bits(layer)),
        |d: int|
            if is_op_slot(gates, layer, d, op) {
                1
            } else {
                0
            },
    )
}

/// A layered circuit: the output layer at index zero, each deeper layer
/// with twice the gates.
#[derive(Debug, Clone, PartialEq)]
pub struct Circuit {
    /// The layers, output first.
    pub layers: Vec<Layer>,
}

/// The value table a layer's claim is reduced to: at the output it is the
/// single output value; deeper, the flattened input wires of the layer
/// above.
pub open spec fn w_vals(c: Circuit, layer: int) -> Seq<nat> {
    if layer == 0 {
        seq![c.layers@[0].gates@[0].output.val()]
    } else {
        Seq::new(
            pow2(layer as nat),
            |t: int|
                if t % 2 == 0 {
                    c.layers@[layer - 1].gates@[t / 2].left.val()
                } else {
                    c.layers@[layer - 1].gates@[t / 2].right.val()
                },
        )
    }
}

impl Circuit {
    /// Well-formed: at least one layer and at most nine (the wiring tables
    /// must stay addressable), layer `i` holding exactly `2^i` gates, all
    /// of them canonical.
    pub open spec fn wf(self) -> bool {
        &&& 1 <= self.layers@.len() <= 9
        &&& forall|i: int|
            0 <= i < self.layers@.len() ==> (#[trigger] self.layers@[i]).gates@.len() == pow2(
                i as nat,
            )
        &&& forall|i: int| 0 <= i < self.layers@.len() ==> (#[trigger] self.layers@[i]).wf()
    }

    /// An empty circuit, to be filled from the inputs towards the output.
    pub fn new() -> (r: Circuit)
        ensures
            r.layers@.len() == 0,
    {
        Circuit { layers: Vec::new() }
    }

    /// Adds one layer, shallower than all added before: it goes to the
    /// front, so the output layer ends at index zero.
    pub fn add_layer(&mut self, layer: Layer)
        ensures
            final(self).layers@ == seq![layer] + old(self).layers@,
    {
        self.layers.insert(0, layer);
    }

    /// The multilinear extension of a value table.
    pub fn w_i(values: Vec<Fe>) -> (r: Result<EvaluationFormPolynomial, PolyError>)
        requires
            all_wf(values@),
        ensures
            match r {
                Ok(q) => {
                    &&& is_pow2(values@.len() as nat)
                    &&& q.wf()
                    &&& q.representation@ == values@
                },
                Err(e) => {
                    &&& e == PolyError::InvalidLength
                    &&& !is_pow2(values@.len() as nat)
                },
            },
    {
        EvaluationFormPolynomial::new(&values)
    }

    /// Walks one indicator row: starting from zero, each coordinate keeps
    /// the running value on a one and folds in the matching factor.
    pub fn add_i(indices: Vec<Fe>, values: Vec<Fe>) -> (r: Fe)
        requires
            all_wf(indices@),
            all_wf(values@),
            values@.len() >= indices@.len(),
        ensures
            r.wf(),
            r.val() == add_i_spec(vals_of(indices@), vals_of(values@), indices@.len() as int),
    {
        let mut res = Fe::zero();
        let mut i: usize = 0;
        while i < indices.len()
            invariant
                i <= indices@.len(),
                values@.len() >= indices@.len(),
                all_wf(indices@),
                all_wf(values@),
                res.wf(),
                res.val() == add_i_spec(vals_of(indices@), vals_of(values@), i as int),
            decreases indices@.len() - i,
        {
            proof {
                assert(vals_of(indices@)[i as int] == indices@[i as int].val());
                assert(vals_of(values@)[i as int] == values@[i as int].val());
            }
            if crate::field::fe_eq(indices[i], Fe::zero()) {
                res = crate::field::fe_sub(
                    crate::field::fe_mul(res, Fe::one()),
                    values[i],
                );
            } else if crate::field::fe_eq(indices[i], Fe::one()) {
                res = crate::field::fe_mul(res, values[i]);
            }
            i = i + 1;
        }
        res
    }

    /// The binary labels of a layer's gates together with their children:
    /// the rows of the wiring table that the layer occupies.
    pub fn generate_gate_indices_for_layer_i(&self, layer: usize) -> (r: Vec<String>)
        requires
            self.wf(),
            layer < self.layers@.len(),
        ensures
            r@.len() == self.layers@[layer as int].gates@.len(),
            forall|g: int|
                0 <= g < r@.len() ==> r@[g]@ == bits_string(g as nat, w_out(layer as nat))
                    + bits_string(2 * g as nat, (layer + 1) as nat) + bits_string(
                    (2 * g + 1) as nat,
                    (layer + 1) as nat,
                ),
    {
        let count = self.layers[layer].gates.len();
        let width_out: usize = if layer == 0 {
            1
        } else {
            layer
        };
        let mut result: Vec<String> = Vec::new();
        let mut g: usize = 0;
        proof {
            lemma_layer_gate_bound(*self, layer as int);
        }
        while g < count
            invariant
                g <= count,
                layer < self.layers@.len() <= 9,
                count == self.layers@[layer as int].gates@.len(),
                count <= pow2(layer as nat),
                count <= 256,
                width_out as nat == w_out(layer as nat),
                result@.len() == g,
                forall|t: int|
                    0 <= t < g ==> result@[t]@ == bits_string(t as nat, w_out(layer as nat))
                        + bits_string(2 * t as nat, (layer + 1) as nat) + bits_string(
                        (2 * t + 1) as nat,
                        (layer + 1) as nat,
                    ),
            decreases count - g,
        {
            let mut label = String::new();
            append_bits(&mut label, g, width_out);
            append_bits(&mut label, 2 * g, layer + 1);
            append_bits(&mut label, 2 * g + 1, layer + 1);
            result.push(label);
            g = g + 1;
        }
        result
    }
}

/// The indicator walk of `Circuit::add_i`, coordinate by coordinate.
pub open spec fn add_i_spec(indices: Seq<nat>, values: Seq<nat>, i: int) -> nat
    decreases i,
{
    if i <= 0 {
        0
    } else {
        let prev = add_i_spec(indices, values, i - 1);
        if indices[i - 1] == 0 {
            sub_f(mul_f(prev, 1), values[i - 1])
        } else if indices[i - 1] == 1 {
            mul_f(prev, values[i - 1])
        } else {
            prev
        }
    }
}

/// A table multiplied slotwise by a constant.
pub open spec fn scale_vals(s: Seq<nat>, c: nat) -> Seq<nat> {
    s.map_values(|v: nat| mul_f(v, c))
}

/// Two tables added slotwise.
pub open spec fn add_vals(a: Seq<nat>, b: Seq<nat>) -> Seq<nat> {
    Seq::new(a.len(), |k: int| add_f(a[k], b[k]))
}

/// A wiring table folded at both half-points and combined: the random
/// linear combination that collapses two half-claims into one.
pub open spec fn folded_vals(t: Seq<nat>, rb: Seq<nat>, rc: Seq<nat>, a: nat, b: nat) -> Seq<
    nat,
> {
    add_vals(scale_vals(pe_iter(t, rb), a), scale_vals(pe_iter(t, rc), b))
}

impl Circuit {
    /// The value table a layer's sumcheck talks about: the single output at
    /// the top, and the flattened input wires of the layer above below it.
    pub fn get_ws(&self, layer: usize) -> (r: Vec<Fe>)
        requires
            self.wf(),
            layer <= self.layers@.len(),
        ensures
            all_wf(r@),
            vals_of(r@) == w_vals(*self, layer as int),
            r@.len() == if layer == 0 {
                1nat
            } else {
                pow2(layer as nat)
            },
            is_pow2(r@.len() as nat),
            lg(r@.len() as nat) == layer,
    {
        proof {
            vstd::arithmetic::power2::lemma2_to64();
            crate::hypercube::lemma_lg_pow2(layer as nat);
        }
        if layer == 0 {
            let w: Vec<Fe> = vec![self.layers[0].gates[0].output];
            proof {
                assert(self.layers@[0].wf());
                assert(self.layers@[0].gates@[0].wf());
                assert(vals_of(w@) =~= w_vals(*self, 0));
                assert(lg(1) == 0);
            }
            return w;
        }
        proof {
            lemma_layer_gate_bound(*self, layer as int - 1);
            vstd::arithmetic::power2::lemma_pow2_adds((layer - 1) as nat, 1);
        }
        let gates = &self.layers[layer - 1].gates;
        let mut w: Vec<Fe> = Vec::new();
        let mut g: usize = 0;
        while g < gates.len()
            invariant
                g <= gates@.len(),
                gates == self.layers@[layer - 1].gates,
                self.wf(),
                1 <= layer <= self.layers@.len(),
                w@.len() == 2 * g,
                all_wf(w@),
                forall|t: int| 0 <= t < 2 * g && t % 2 == 0 ==> vals_of(w@)[t] == (
                #[trigger] gates@[t / 2]).left.val(),
                forall|t: int| 0 <= t < 2 * g && t % 2 == 1 ==> vals_of(w@)[t] == (
                #[trigger] gates@[t / 2]).right.val(),
            decreases gates@.len() - g,
        {
            proof {
                assert(self.layers@[layer - 1].wf());
                assert(gates@[g as int].wf());
            }
            let ghost prev = w@;
            w.push(gates[g].left);
            w.push(gates[g].right);
            proof {
                assert forall|t: int| 0 <= t < 2 * (g + 1) && t % 2 == 0 implies vals_of(w@)[t] == (
                #[trigger] gates@[t / 2]).left.val() by {
                    assert(vals_of(w@)[t] == w@[t].val());
                    if t < 2 * g {
                        assert(w@[t] == prev[t]);
                        assert(vals_of(prev)[t] == prev[t].val());
                    } else {
                        assert(t == 2 * g as int);
                        assert(t / 2 == g as int);
                    }
                }
                assert forall|t: int| 0 <= t < 2 * (g + 1) && t % 2 == 1 implies vals_of(w@)[t] == (
                #[trigger] gates@[t / 2]).right.val() by {
                    assert(vals_of(w@)[t] == w@[t].val());
                    if t < 2 * g {
                        assert(w@[t] == prev[t]);
                        assert(vals_of(prev)[t] == prev[t].val());
                    } else {
                        assert(t == 2 * g as int + 1);
                        assert(t / 2 == g as int);
                    }
                }
            }
            g = g + 1;
        }
        proof {
            assert(vals_of(w@) =~= w_vals(*self, layer as int));
        }
        w
    }
}

/// Blends a raw table at each coordinate in turn, halving it each time.
pub fn fold_table(table: &Vec<Fe>, rs: &Vec<Fe>) -> (r: Vec<Fe>)
    requires
        is_pow2(table@.len() as nat),
        all_wf(table@),
        all_wf(rs@),
        lg(table@.len() as nat) >= rs@.len(),
    ensures
        all_wf(r@),
        vals_of(r@) == pe_iter(vals_of(table@), vals_of(rs@)),
        is_pow2(r@.len() as nat),
        lg(r@.len() as nat) == lg(table@.len() as nat) - rs@.len(),
{
    let ghost g0 = vals_of(table@);
    let ghost pt = vals_of(rs@);
    let mut cur = crate::evaluation_form::copy_fe_vec(table);
    let mut t: usize = 0;
    proof {
        assert(pt.take(0) =~= Seq::<nat>::empty());
    }
    while t < rs.len()
        invariant
            t <= rs@.len(),
            g0 == vals_of(table@),
            pt == vals_of(rs@),
            all_wf(rs@),
            is_pow2(vals_of(cur@).len()),
            all_wf(cur@),
            lg(vals_of(cur@).len()) == lg(g0.len()) - t,
            lg(g0.len()) >= rs@.len(),
            vals_of(cur@) == pe_iter(g0, pt.take(t as int)),
        decreases rs@.len() - t,
    {
        proof {
            lemma_pow2_lg(vals_of(cur@).len());
            assert(pt[t as int] == rs@[t as int].val());
        }
        let next = pe_table0(&cur, rs[t]);
        proof {
            crate::evaluation_form::lemma_pe_iter_snoc(g0, pt.take(t as int), pt[t as int]);
            assert(pt.take(t + 1) =~= pt.take(t as int).push(pt[t as int]));
        }
        cur = next;
        t = t + 1;
    }
    proof {
        assert(pt.take(pt.len() as int) =~= pt);
    }
    cur
}

/// Folds a wiring table at both halves of the challenges and combines the
/// two with the squeezed weights.
pub fn fold_pair(table: &Vec<Fe>, rb: &Vec<Fe>, rc: &Vec<Fe>, alpha: Fe, beta: Fe) -> (r: Vec<
    Fe,
>)
    requires
        is_pow2(table@.len() as nat),
        all_wf(table@),
        all_wf(rb@),
        all_wf(rc@),
        rb@.len() == rc@.len(),
        lg(table@.len() as nat) >= rb@.len(),
        alpha.wf(),
        beta.wf(),
    ensures
        all_wf(r@),
        vals_of(r@) == folded_vals(
            vals_of(table@),
            vals_of(rb@),
            vals_of(rc@),
            alpha.val(),
            beta.val(),
        ),
        is_pow2(r@.len() as nat),
        lg(r@.len() as nat) == lg(table@.len() as nat) - rb@.len(),
{
    let fb = fold_table(table, rb);
    let fc = fold_table(table, rc);
    let ghost target = folded_vals(
        vals_of(table@),
        vals_of(rb@),
        vals_of(rc@),
        alpha.val(),
        beta.val(),
    );
    proof {
        assert(vals_of(fb@).len() == vals_of(fc@).len()) by {
            lemma_pow2_lg(vals_of(fb@).len());
            lemma_pow2_lg(vals_of(fc@).len());
        }
    }
    let mut out: Vec<Fe> = Vec::new();
    let mut k: usize = 0;
    while k < fb.len()
        invariant
            k <= fb@.len(),
            fb@.len() == fc@.len(),
            all_wf(fb@),
            all_wf(fc@),
            alpha.wf(),
            beta.wf(),
            target == add_vals(
                scale_vals(vals_of(fb@), alpha.val()),
                scale_vals(vals_of(fc@), beta.val()),
            ),
            out@.len() == k,
            all_wf(out@),
            forall|u: int| 0 <= u < k ==> vals_of(out@)[u] == target[u],
        decreases fb@.len() - k,
    {
        let v = crate::field::fe_add(
            crate::field::fe_mul(fb[k], alpha),
            crate::field::fe_mul(fc[k], beta),
        );
        let ghost prev = out@;
        out.push(v);
        proof {
            assert(vals_of(fb@)[k as int] == fb@[k as int].val());
            assert(vals_of(fc@)[k as int] == fc@[k as int].val());
            assert(scale_vals(vals_of(fb@), alpha.val())[k as int] == mul_f(
                vals_of(fb@)[k as int],
                alpha.val(),
            ));
            assert(scale_vals(vals_of(fc@), beta.val())[k as int] == mul_f(
                vals_of(fc@)[k as int],
                beta.val(),
            ));
            assert forall|u: int| 0 <= u < k + 1 implies vals_of(out@)[u] == target[u] by {
                assert(vals_of(out@)[u] == out@[u].val());
                if u < k {
                    assert(out@[u] == prev[u]);
                    assert(vals_of(prev)[u] == prev[u].val());
                }
            }
        }
        k = k + 1;
    }
    proof {
        assert(vals_of(out@) =~= target);
        lemma_pow2_lg(vals_of(fb@).len());
        crate::hypercube::lemma_lg_pow2(lg(vals_of(fb@).len()));
    }
    out
}

/// The pairs of the layer polynomial `f(b,c)`: the outer sum table of the
/// next layer's values against the folded add predicate, and the outer
/// product table against the folded mul predicate.
pub open spec fn fbc_pairs(c: Circuit, layer: int, atab: Seq<nat>, mtab: Seq<nat>) -> Seq<
    (Seq<nat>, Seq<nat>),
> {
    seq![
        (outer_table(w_vals(c, layer + 1), w_vals(c, layer + 1), false), atab),
        (outer_table(w_vals(c, layer + 1), w_vals(c, layer + 1), true), mtab),
    ]
}

impl Circuit {
    /// Builds the layer polynomial
    /// `f(b,c) = add(r,b,c) * (W(b) + W(c)) + mul(r,b,c) * (W(b) * W(c))`
    /// as a sum of two two-factor products.
    pub fn generate_fbc(
        &self,
        layer: usize,
        add_i_poly: EvaluationFormPolynomial,
        mul_i_poly: EvaluationFormPolynomial,
    ) -> (r: SumPolynomial)
        requires
            self.wf(),
            layer < self.layers@.len(),
            add_i_poly.wf(),
            mul_i_poly.wf(),
            add_i_poly.vals().len() == pow2((2 * layer + 2) as nat),
            mul_i_poly.vals().len() == pow2((2 * layer + 2) as nat),
        ensures
            sp_shape(r, pow2((2 * layer + 2) as nat)),
            sp_len(r) == pow2((2 * layer + 2) as nat),
            prods_pairs(r.polyomials@) == fbc_pairs(
                *self,
                layer as int,
                add_i_poly.vals(),
                mul_i_poly.vals(),
            ),
    {
        proof {
            lemma_layer_gate_bound(*self, layer as int);
            vstd::arithmetic::power2::lemma2_to64();
            vstd::arithmetic::power2::lemma_pow2_adds((layer + 1) as nat, (layer + 1) as nat);
        }
        let w = self.get_ws(layer + 1);
        let w_i = match EvaluationFormPolynomial::new(&w) {
            Ok(q) => q,
            Err(_) => {
                proof {
                    assert(false);
                }
                EvaluationFormPolynomial::default()
            },
        };
        let w_second = w_i.duplicate();
        let w_bc = ProductPolynomial { polyomials: vec![w_i, w_second] };
        proof {
            assert(w_bc.wf());
            assert(w_bc.factors()[0] == w_bc.polyomials@[0].vals());
            assert(w_bc.factors()[1] == w_bc.polyomials@[1].vals());
            assert(w_bc.factors()[0] =~= w_vals(*self, layer as int + 1));
            assert(w_bc.factors()[1] =~= w_vals(*self, layer as int + 1));
            assert(w_bc.factors()[0].len() * w_bc.factors()[1].len() <= usize::MAX) by {
                assert(w@.len() <= 512);
            }
        }
        let w_add_bc = match w_bc.sum_poly() {
            Ok(q) => q,
            Err(_) => {
                proof {
                    assert(false);
                }
                EvaluationFormPolynomial::default()
            },
        };
        let w_mul_bc = match w_bc.mul_poly() {
            Ok(q) => q,
            Err(_) => {
                proof {
                    assert(false);
                }
                EvaluationFormPolynomial::default()
            },
        };
        let first = ProductPolynomial { polyomials: vec![w_add_bc, add_i_poly] };
        let second = ProductPolynomial { polyomials: vec![w_mul_bc, mul_i_poly] };
        let fbc = SumPolynomial { polyomials: vec![first, second] };
        proof {
            let wv = w_vals(*self, layer as int + 1);
            let len2 = pow2((2 * layer + 2) as nat);
            assert(outer_table(wv, wv, false).len() == len2) by {
                vstd::arithmetic::power2::lemma_pow2_adds((layer + 1) as nat, (layer + 1) as nat);
            }
            assert(fbc.polyomials@[0].factors()[0] == first.polyomials@[0].vals());
            assert(fbc.polyomials@[0].factors()[1] == first.polyomials@[1].vals());
            assert(fbc.polyomials@[1].factors()[0] == second.polyomials@[0].vals());
            assert(fbc.polyomials@[1].factors()[1] == second.polyomials@[1].vals());
            assert(prods_pairs(fbc.polyomials@) =~= fbc_pairs(
                *self,
                layer as int,
                add_i_poly.vals(),
                mul_i_poly.vals(),
            ));
            assert(sp_len(fbc) == len2) by {
                assert(prods_pairs(fbc.polyomials@)[0].0 == fbc.polyomials@[0].factors()[0]);
            }
        }
        fbc
    }
}

/// Splits the challenges of one layer's sumcheck into the two halves that
/// address the two children.
pub fn split_challenges(chals: &Vec<Fe>, half: usize) -> (r: (Vec<Fe>, Vec<Fe>))
    requires
        half <= chals@.len(),
    ensures
        r.0@ == chals@.take(half as int),
        r.1@ == chals@.skip(half as int),
{
    let mut rb: Vec<Fe> = Vec::new();
    let mut i: usize = 0;
    while i < half
        invariant
            i <= half,
            half <= chals@.len(),
            rb@ == chals@.take(i as int),
        decreases half - i,
    {
        rb.push(chals[i]);
        proof {
            assert(chals@.take(i + 1) =~= chals@.take(i as int).push(chals@[i as int]));
        }
        i = i + 1;
    }
    let mut rc: Vec<Fe> = Vec::new();
    let mut j: usize = half;
    while j < chals.len()
        invariant
            half <= j <= chals@.len(),
            rc@ == chals@.skip(half as int).take(j - half),
        decreases chals@.len() - j,
    {
        rc.push(chals[j]);
        proof {
            assert(chals@.skip(half as int).take(j + 1 - half) =~= chals@.skip(half as int).take(
                j - half,
            ).push(chals@[j as int]));
        }
        j = j + 1;
    }
    proof {
        assert(chals@.skip(half as int).take(chals@.len() - half) =~= chals@.skip(half as int));
    }
    (rb, rc)
}

/// A table of zeros.
fn zero_table(len: usize) -> (r: Vec<Fe>)
    ensures
        r@.len() == len,
        all_wf(r@),
        forall|d: int| 0 <= d < len ==> vals_of(r@)[d] == 0,
{
    let mut r: Vec<Fe> = Vec::new();
    let mut d: usize = 0;
    while d < len
        invariant
            d <= len,
            r@.len() == d,
            all_wf(r@),
            forall|t: int| 0 <= t < d ==> vals_of(r@)[t] == 0,
        decreases len - d,
    {
        let z = Fe::zero();
        let ghost prev = r@;
        r.push(z);
        proof {
            assert forall|t: int| 0 <= t < d + 1 implies vals_of(r@)[t] == 0 by {
                assert(vals_of(r@)[t] == r@[t].val());
                if t < d {
                    assert(r@[t] == prev[t]);
                    assert(vals_of(prev)[t] == prev[t].val());
                }
            }
        }
        d = d + 1;
    }
    r
}

impl Circuit {
    /// The two wiring predicate tables of a layer: ones exactly at the
    /// slots of the layer's add gates, and of its mul gates.
    pub fn add_i_or_mul_i(&self, layer: usize) -> (r: (Vec<Fe>, Vec<Fe>))
        requires
            self.wf(),
            layer < self.layers@.len(),
        ensures
            all_wf(r.0@),
            all_wf(r.1@),
            vals_of(r.0@) == ind_table(self.layers@[layer as int].gates@, layer as nat, Op::Add),
            vals_of(r.1@) == ind_table(self.layers@[layer as int].gates@, layer as nat, Op::Mul),
    {
        proof {
            lemma_layer_gate_bound(*self, layer as int);
            vstd::arithmetic::power2::lemma2_to64();
        }
        let ghost gates = self.layers@[layer as int].gates@;
        let num_bits: usize = (if layer == 0 {
            1
        } else {
            layer
        }) + 2 * (layer + 1);
        let num_combinations = pow2_exec(num_bits);
        let mut add_i_vec = zero_table(num_combinations);
        let mut mul_i_vec = zero_table(num_combinations);
        let one = Fe::one();
        let mut g: usize = 0;
        while g < self.layers[layer].gates.len()
            invariant
                g <= gates.len(),
                self.wf(),
                layer < self.layers@.len(),
                gates == self.layers@[layer as int].gates@,
                gates.len() <= 256,
                layer <= 8,
                one.wf(),
                one.val() == 1,
                num_combinations as nat == pow2(layer_bits(layer as nat)),
                num_combinations <= 0x20000000,
                add_i_vec@.len() == num_combinations,
                mul_i_vec@.len() == num_combinations,
                all_wf(add_i_vec@),
                all_wf(mul_i_vec@),
                forall|d: int|
                    0 <= d < num_combinations ==> vals_of(add_i_vec@)[d] == if is_op_slot(
                        gates.take(g as int),
                        layer as nat,
                        d,
                        Op::Add,
                    ) {
                        1nat
                    } else {
                        0nat
                    },
                forall|d: int|
                    0 <= d < num_combinations ==> vals_of(mul_i_vec@)[d] == if is_op_slot(
                        gates.take(g as int),
                        layer as nat,
                        d,
                        Op::Mul,
                    ) {
                        1nat
                    } else {
                        0nat
                    },
            decreases gates.len() - g,
        {
            proof {
                lemma_gate_index_bound(g as nat, layer as nat);
                vstd::arithmetic::power2::lemma2_to64();
            }
            let w1 = pow2_exec(2 * (layer + 1));
            let w2 = pow2_exec(layer + 1);
            let decimal_value = g * w1 + 2 * g * w2 + 2 * g + 1;
            proof {
                assert(decimal_value as nat == gate_index(g as nat, layer as nat));
                assert(decimal_value < num_combinations);
            }
            let op = self.layers[layer].gates[g].op;
            let ghost prev_add = add_i_vec@;
            let ghost prev_mul = mul_i_vec@;
            match op {
                Op::Add => {
                    add_i_vec.set(decimal_value, one);
                },
                Op::Mul => {
                    mul_i_vec.set(decimal_value, one);
                },
            }
            proof {
                lemma_ind_step(gates, layer as nat, g as int, prev_add, add_i_vec@, Op::Add);
                lemma_ind_step(gates, layer as nat, g as int, prev_mul, mul_i_vec@, Op::Mul);
            }
            g = g + 1;
        }
        proof {
            assert(gates.take(gates.len() as int) =~= gates);
            assert(vals_of(add_i_vec@) =~= ind_table(gates, layer as nat, Op::Add));
            assert(vals_of(mul_i_vec@) =~= ind_table(gates, layer as nat, Op::Mul));
        }
        (add_i_vec, mul_i_vec)
    }
}

/// Writing one into a single table position keeps the indicator reading:
/// the position of the processed gate turns one exactly in the table of
/// its operator, and every other position keeps its value.
proof fn lemma_ind_step(
    gates: Seq<Gate>,
    layer: nat,
    g: int,
    prev: Seq<Fe>,
    cur: Seq<Fe>,
    op: Op,
)
    requires
        0 <= g < gates.len(),
        prev.len() == cur.len(),
        gate_index(g as nat, layer) < cur.len(),
        forall|d: int|
            0 <= d < prev.len() ==> vals_of(prev)[d] == if is_op_slot(
                gates.take(g),
                layer,
                d,
                op,
            ) {
                1nat
            } else {
                0nat
            },
        if gates[g].op == op {
            cur == prev.update(gate_index(g as nat, layer) as int, cur[gate_index(g as nat, layer) as int])
                && cur[gate_index(g as nat, layer) as int].val() == 1
        } else {
            cur == prev
        },
    ensures
        forall|d: int|
            0 <= d < cur.len() ==> vals_of(cur)[d] == if is_op_slot(
                gates.take(g + 1),
                layer,
                d,
                op,
            ) {
                1nat
            } else {
                0nat
            },
{
    assert(gates.take(g + 1).drop_last() =~= gates.take(g));
    assert(gates.take(g + 1)[g] == gates[g]);
    assert forall|d: int| 0 <= d < cur.len() implies vals_of(cur)[d] == if is_op_slot(
        gates.take(g + 1),
        layer,
        d,
        op,
    ) {
        1nat
    } else {
        0nat
    } by {
        assert(vals_of(cur)[d] == cur[d].val());
        assert(vals_of(prev)[d] == prev[d].val());
        let idx = gate_index(g as nat, layer) as int;
        if gates[g].op == op && d == idx {
            assert(is_op_slot(gates.take(g + 1), layer, d, op)) by {
                assert(gates.take(g + 1)[g].op == op && gate_index(g as nat, layer) == d);
            }
        } else {
            if gates[g].op == op {
                assert(cur[d] == prev[d]);
            }
            assert(is_op_slot(gates.take(g + 1), layer, d, op) == is_op_slot(
                gates.take(g),
                layer,
                d,
                op,
            )) by {
                if is_op_slot(gates.take(g + 1), layer, d, op) {
                    let w = choose|t: int|
                        0 <= t < gates.take(g + 1).len() && (#[trigger] gates.take(g + 1)[t]).op
                            == op && gate_index(t as nat, layer) == d;
                    if w == g {
                        assert(gates[g].op == op && gate_index(g as nat, layer) == d);
                        assert(false);
                    } else {
                        assert(gates.take(g)[w] == gates.take(g + 1)[w]);
                    }
                }
                if is_op_slot(gates.take(g), layer, d, op) {
                    let w = choose|t: int|
                        0 <= t < gates.take(g).len() && (#[trigger] gates.take(g)[t]).op == op
                            && gate_index(t as nat, layer) == d;
                    assert(gates.take(g + 1)[w] == gates.take(g)[w]);
                }
            }
        }
    }
}

/// The wiring slot of a gate stays inside its layer's table.
pub proof fn lemma_gate_index_bound(g: nat, layer: nat)
    requires
        g < pow2(layer),
        layer <= 8,
    ensures
        gate_index(g, layer) < pow2(layer_bits(layer)),
        gate_index(g, layer) == g * pow2(2 * (layer + 1)) + 2 * g * pow2(layer + 1) + 2 * g + 1,
{
    vstd::arithmetic::power2::lemma2_to64();
    vstd::arithmetic::power2::lemma_pow2_adds(layer, 2 * (layer + 1));
    vstd::arithmetic::power2::lemma_pow2_adds(layer, layer + 1);
    vstd::arithmetic::power2::lemma_pow2_adds(layer + 1, layer + 1);
    vstd::arithmetic::power2::lemma_pow2_adds(layer, 1);
    vstd::arithmetic::power2::lemma_pow2_pos(layer);
    vstd::arithmetic::power2::lemma_pow2_pos(layer + 1);
    if layer == 0 {
        assert(gate_index(0, 0) == 1);
        assert(pow2(layer_bits(0)) == 8) by {
            assert(layer_bits(0) == 3);
        }
    } else {
        assert(layer_bits(layer) == layer + 2 * (layer + 1));
        assert(g * pow2(2 * (layer + 1)) + 2 * g * pow2(layer + 1) + 2 * g + 1 < pow2(layer) * pow2(
            2 * (layer + 1),
        )) by (nonlinear_arith)
            requires
                g < pow2(layer),
                pow2(layer + 1) >= 2,
                pow2(2 * (layer + 1)) >= 4,
                pow2(2 * (layer + 1)) == pow2(layer + 1) * pow2(layer + 1),
                pow2(layer + 1) == 2 * pow2(layer),
            ;
        assert(pow2(layer) * pow2(2 * (layer + 1)) == pow2(layer_bits(layer)));
    }
}

/// The padded output table: the circuit's single output value and a zero.
pub open spec fn out_mle_vals(c: Circuit) -> Seq<nat> {
    seq![c.layers@[0].gates@[0].output.val(), 0nat]
}

/// The whole prover run from layer `i` on: one quadratic sumcheck per
/// layer, the two relayed evaluations of the next layer's values, and, for
/// every layer but the deepest, the random linear folding of the wiring
/// predicates and the claim.  Yields the per-layer (claim, messages) list,
/// the relayed pairs, and the final transcript state.
#[verifier::opaque]
pub open spec fn gkr_prove_layers(
    c: Circuit,
    claim: nat,
    atab: Seq<nat>,
    mtab: Seq<nat>,
    ts: Seq<u8>,
    i: int,
) -> (Seq<(nat, Seq<Seq<nat>>)>, Seq<(nat, nat)>, Seq<u8>)
    decreases c.layers@.len() - i,
{
    if i < 0 || i >= c.layers@.len() {
        (Seq::<(nat, Seq<Seq<nat>>)>::empty(), Seq::<(nat, nat)>::empty(), ts)
    } else {
        let ps = fbc_pairs(c, i, atab, mtab);
        let rounds = gsc_rounds(ps, pow2((2 * i + 2) as nat), ts, (2 * i + 2) as nat);
        let chals = rounds.1;
        let rb = chals.take(i + 1);
        let rc = chals.skip(i + 1);
        let w = w_vals(c, i + 1);
        let wb = pe_iter(w, rb)[0];
        let wc = pe_iter(w, rc)[0];
        if i == c.layers@.len() - 1 {
            (seq![(claim, rounds.0)], seq![(wb, wc)], rounds.2)
        } else {
            let ts2 = rounds.2 + fe_bytes(fe_of(wb));
            let alpha = squeeze_val(ts2);
            let ts3 = ts2 + sha3_of(ts2);
            let ts4 = ts3 + fe_bytes(fe_of(wc));
            let beta = squeeze_val(ts4);
            let ts5 = ts4 + sha3_of(ts4);
            let atab2 = folded_vals(
                ind_table(c.layers@[i + 1].gates@, (i + 1) as nat, Op::Add),
                rb,
                rc,
                alpha,
                beta,
            );
            let mtab2 = folded_vals(
                ind_table(c.layers@[i + 1].gates@, (i + 1) as nat, Op::Mul),
                rb,
                rc,
                alpha,
                beta,
            );
            let claim2 = add_f(mul_f(alpha, wb), mul_f(beta, wc));
            let rec = gkr_prove_layers(c, claim2, atab2, mtab2, ts5, i + 1);
            (seq![(claim, rounds.0)] + rec.0, seq![(wb, wc)] + rec.1, rec.2)
        }
    }
}

/// The transcript state and the starting claim and folded wiring tables
/// after the output layer has been absorbed and the first challenge
/// squeezed.
pub open spec fn gkr_start(c: Circuit) -> (nat, Seq<nat>, Seq<nat>, Seq<u8>) {
    let ts0 = vals_bytes(out_mle_vals(c));
    let r1 = squeeze_val(ts0);
    let ts1 = ts0 + sha3_of(ts0);
    let claim0 = pe0(out_mle_vals(c), r1)[0];
    let atab0 = pe_iter(ind_table(c.layers@[0].gates@, 0, Op::Add), seq![r1]);
    let mtab0 = pe_iter(ind_table(c.layers@[0].gates@, 0, Op::Mul), seq![r1]);
    (claim0, atab0, mtab0, ts1)
}

/// The proof object: the claimed outputs, one (claimed sum, round message
/// list) per layer, and the relayed evaluation pair per layer.
#[derive(Debug, Clone, PartialEq)]
pub struct Gkrproof {
    /// The output layer's value table, padded to length two.
    pub output_mle: Vec<Fe>,
    /// Per layer: the claim its sumcheck starts from and the prover's round
    /// messages.
    pub sumcheck_proof: Vec<(Fe, Vec<Vec<Fe>>)>,
    /// Per layer: the relayed evaluations of the next layer's values at the
    /// two challenge halves.
    pub w_s: Vec<(Fe, Fe)>,
}

/// The view of the per-layer sumcheck records.
pub open spec fn sp_records(s: Seq<(Fe, Vec<Vec<Fe>>)>) -> Seq<(nat, Seq<Seq<nat>>)> {
    s.map_values(|e: (Fe, Vec<Vec<Fe>>)| (e.0.val(), msgs_vals(e.1@)))
}

/// The view of the relayed pairs.
pub open spec fn ws_records(s: Seq<(Fe, Fe)>) -> Seq<(nat, nat)> {
    s.map_values(|e: (Fe, Fe)| (e.0.val(), e.1.val()))
}

/// Well-formed proof object: every element canonical.
pub open spec fn gkrproof_wf(gp: Gkrproof) -> bool {
    &&& all_wf(gp.output_mle@)
    &&& forall|i: int|
        0 <= i < gp.sumcheck_proof@.len() ==> (#[trigger] gp.sumcheck_proof@[i]).0.wf() && msgs_wf(
            gp.sumcheck_proof@[i].1@,
        )
    &&& forall|i: int|
        0 <= i < gp.w_s@.len() ==> (#[trigger] gp.w_s@[i]).0.wf() && gp.w_s@[i].1.wf()
}

/// Folding towards the next layer: absorb both relayed values, squeeze the
/// two weights, and fold the next wiring tables and the claim with them.
#[verifier::rlimit(100)]
fn fold_next_layer(
    c: &Circuit,
    i: usize,
    w_rb: Fe,
    w_rc: Fe,
    r_b: &Vec<Fe>,
    r_c: &Vec<Fe>,
    fiat_shamir: &mut FiatShamir,
) -> (r: (Fe, Vec<Fe>, Vec<Fe>))
    requires
        c.wf(),
        i + 1 < c.layers@.len(),
        w_rb.wf(),
        w_rc.wf(),
        all_wf(r_b@),
        all_wf(r_c@),
        r_b@.len() == i + 1,
        r_c@.len() == i + 1,
    ensures
        ({
            let ts2 = old(fiat_shamir)@ + fe_bytes(fe_of(w_rb.val()));
            let alpha = squeeze_val(ts2);
            let ts3 = ts2 + sha3_of(ts2);
            let ts4 = ts3 + fe_bytes(fe_of(w_rc.val()));
            let beta = squeeze_val(ts4);
            let ts5 = ts4 + sha3_of(ts4);
            &&& final(fiat_shamir)@ == ts5
            &&& r.0.wf()
            &&& r.0.val() == add_f(mul_f(alpha, w_rb.val()), mul_f(beta, w_rc.val()))
            &&& all_wf(r.1@)
            &&& all_wf(r.2@)
            &&& vals_of(r.1@) == folded_vals(
                ind_table(c.layers@[i as int + 1].gates@, (i + 1) as nat, Op::Add),
                vals_of(r_b@),
                vals_of(r_c@),
                alpha,
                beta,
            )
            &&& vals_of(r.2@) == folded_vals(
                ind_table(c.layers@[i as int + 1].gates@, (i + 1) as nat, Op::Mul),
                vals_of(r_b@),
                vals_of(r_c@),
                alpha,
                beta,
            )
            &&& vals_of(r.1@).len() == pow2((2 * (i + 1) + 2) as nat)
            &&& vals_of(r.2@).len() == pow2((2 * (i + 1) + 2) as nat)
        }),
{
    let wb_bytes = fe_to_bytes_be(w_rb);
    fiat_shamir.absorb(wb_bytes.as_slice());
    let alpha = fiat_shamir.squeeze();
    let wc_bytes = fe_to_bytes_be(w_rc);
    fiat_shamir.absorb(wc_bytes.as_slice());
    let beta = fiat_shamir.squeeze();
    proof {
        lemma_fe_of(w_rb);
        lemma_fe_of(w_rc);
    }
    let (add_next, mul_next) = c.add_i_or_mul_i(i + 1);
    proof {
        lemma_layer_gate_bound(*c, i as int + 1);
        crate::hypercube::lemma_lg_pow2(layer_bits((i + 1) as nat));
        assert(add_next@.len() == vals_of(add_next@).len());
        assert(mul_next@.len() == vals_of(mul_next@).len());
        assert(add_next@.len() == pow2(layer_bits((i + 1) as nat)));
        assert(mul_next@.len() == pow2(layer_bits((i + 1) as nat)));
        assert(layer_bits((i + 1) as nat) >= i + 1);
    }
    let a_next = fold_pair(&add_next, r_b, r_c, alpha, beta);
    let m_next = fold_pair(&mul_next, r_b, r_c, alpha, beta);
    let next_claim = crate::field::fe_add(
        crate::field::fe_mul(alpha, w_rb),
        crate::field::fe_mul(beta, w_rc),
    );
    proof {
        lemma_pow2_lg(vals_of(a_next@).len());
        lemma_pow2_lg(vals_of(m_next@).len());
        assert(lg(vals_of(a_next@).len()) == layer_bits((i + 1) as nat) - (i + 1));
        assert(layer_bits((i + 1) as nat) - (i + 1) == 2 * (i + 1) + 2);
    }
    (next_claim, a_next, m_next)
}

/// One prover layer: builds the layer polynomial from the folded wiring
/// tables, runs its sumcheck, relays the two evaluations of the next
/// layer's values, and, above the deepest layer, folds the next wiring
/// tables and the claim.
#[verifier::rlimit(100)]
fn prove_layer(
    c: &Circuit,
    i: usize,
    claim: Fe,
    a_tab: &Vec<Fe>,
    m_tab: &Vec<Fe>,
    fiat_shamir: &mut FiatShamir,
) -> (r: (Vec<Vec<Fe>>, (Fe, Fe), Fe, Vec<Fe>, Vec<Fe>))
    requires
        c.wf(),
        i < c.layers@.len(),
        claim.wf(),
        all_wf(a_tab@),
        all_wf(m_tab@),
        vals_of(a_tab@).len() == pow2((2 * i + 2) as nat),
        vals_of(m_tab@).len() == pow2((2 * i + 2) as nat),
    ensures
        ({
            let run = gkr_prove_layers(
                *c,
                claim.val(),
                vals_of(a_tab@),
                vals_of(m_tab@),
                old(fiat_shamir)@,
                i as int,
            );
            &&& msgs_wf(r.0@)
            &&& r.1.0.wf() && r.1.1.wf()
            &&& run.0[0] == (claim.val(), msgs_vals(r.0@))
            &&& run.1[0] == (r.1.0.val(), r.1.1.val())
            &&& if i + 1 < c.layers@.len() {
                &&& r.2.wf()
                &&& all_wf(r.3@)
                &&& all_wf(r.4@)
                &&& vals_of(r.3@).len() == pow2((2 * (i + 1) + 2) as nat)
                &&& vals_of(r.4@).len() == pow2((2 * (i + 1) + 2) as nat)
                &&& run == (
                    seq![(claim.val(), msgs_vals(r.0@))] + gkr_prove_layers(
                        *c,
                        r.2.val(),
                        vals_of(r.3@),
                        vals_of(r.4@),
                        final(fiat_shamir)@,
                        i as int + 1,
                    ).0,
                    seq![(r.1.0.val(), r.1.1.val())] + gkr_prove_layers(
                        *c,
                        r.2.val(),
                        vals_of(r.3@),
                        vals_of(r.4@),
                        final(fiat_shamir)@,
                        i as int + 1,
                    ).1,
                    gkr_prove_layers(
                        *c,
                        r.2.val(),
                        vals_of(r.3@),
                        vals_of(r.4@),
                        final(fiat_shamir)@,
                        i as int + 1,
                    ).2,
                )
            } else {
                run == (
                    seq![(claim.val(), msgs_vals(r.0@))],
                    seq![(r.1.0.val(), r.1.1.val())],
                    final(fiat_shamir)@,
                )
            }
        }),
{
    proof {
        crate::hypercube::lemma_lg_pow2((2 * i + 2) as nat);
    }
    let a_poly = match EvaluationFormPolynomial::new(a_tab) {
        Ok(q) => q,
        Err(_) => {
            proof {
                assert(false);
            }
            EvaluationFormPolynomial::default()
        },
    };
    let m_poly = match EvaluationFormPolynomial::new(m_tab) {
        Ok(q) => q,
        Err(_) => {
            proof {
                assert(false);
            }
            EvaluationFormPolynomial::default()
        },
    };
    let init_f_bc = c.generate_fbc(i, a_poly, m_poly);
    proof {
        assert(lg(sp_len(init_f_bc)) == 2 * i + 2) by {
            crate::hypercube::lemma_lg_pow2((2 * i + 2) as nat);
        }
    }
    let (round_polys, random_challenges) = crate::gkr_sumcheck::gsc_prove_rounds(
        &init_f_bc,
        fiat_shamir,
    );
    let (r_b, r_c) = split_challenges(&random_challenges, i + 1);
    proof {
        assert(vals_of(r_b@) =~= vals_of(random_challenges@).take(i + 1));
        assert(vals_of(r_c@) =~= vals_of(random_challenges@).skip(i + 1));
    }
    let w = c.get_ws(i + 1);
    let w_rb = match crate::sumcheck::eval_table(&w, &r_b) {
        Some(v) => v,
        None => {
            proof {
                assert(false);
            }
            Fe::zero()
        },
    };
    let w_rc = match crate::sumcheck::eval_table(&w, &r_c) {
        Some(v) => v,
        None => {
            proof {
                assert(false);
            }
            Fe::zero()
        },
    };
    proof {
        reveal(gkr_prove_layers);
    }
    if i + 1 < c.layers.len() {
        let (next_claim, a_next, m_next) = fold_next_layer(
            c,
            i,
            w_rb,
            w_rc,
            &r_b,
            &r_c,
            fiat_shamir,
        );
        (round_polys, (w_rb, w_rc), next_claim, a_next, m_next)
    } else {
        (round_polys, (w_rb, w_rc), claim, Vec::new(), Vec::new())
    }
}

impl Circuit {
    /// The GKR prover.  Absorbs the padded output table, squeezes the first
    /// challenge, and runs one quadratic sumcheck per layer, relaying the
    /// two evaluations of the next layer's values and folding them into the
    /// next claim.  The whole proof is a function of the circuit alone.
    pub fn prove(&self) -> (gp: Gkrproof)
        requires
            self.wf(),
        ensures
            gkrproof_wf(gp),
            gp.output_mle@.len() == 2,
            vals_of(gp.output_mle@) == out_mle_vals(*self),
            (sp_records(gp.sumcheck_proof@), ws_records(gp.w_s@)) == {
                let (claim0, atab0, mtab0, ts1) = gkr_start(*self);
                let run = gkr_prove_layers(*self, claim0, atab0, mtab0, ts1, 0);
                (run.0, run.1)
            },
    {
        let ghost full = {
            let (claim0, atab0, mtab0, ts1) = gkr_start(*self);
            gkr_prove_layers(*self, claim0, atab0, mtab0, ts1, 0)
        };
        let layer_count = self.layers.len();
        let mut fiat_shamir = FiatShamir::new();
        proof {
            assert(self.layers@[0].wf());
            assert(self.layers@[0].gates@.len() == 1) by {
                vstd::arithmetic::power2::lemma2_to64();
            }
        }
        let output_mle: Vec<Fe> = vec![self.layers[0].gates[0].output, Fe::zero()];
        proof {
            assert(vals_of(output_mle@) =~= out_mle_vals(*self));
            assert(fiat_shamir@ + vals_bytes(out_mle_vals(*self)) =~= vals_bytes(
                out_mle_vals(*self),
            ));
        }
        absorb_fes(&mut fiat_shamir, &output_mle);
        let r_1 = fiat_shamir.squeeze();
        proof {
            vstd::arithmetic::power2::lemma2_to64();
            crate::hypercube::lemma_lg_pow2(1);
            assert(is_pow2(2nat) && lg(2nat) == 1);
        }
        let claim_start = pe_table0(&output_mle, r_1);
        let mut claim = claim_start[0];
        proof {
            assert(vals_of(claim_start@)[0] == claim_start@[0].val());
            assert(pe0(out_mle_vals(*self), r_1.val()).len() == 1);
        }
        let (add0, mul0) = self.add_i_or_mul_i(0);
        let rs: Vec<Fe> = vec![r_1];
        proof {
            assert(vals_of(rs@) =~= seq![r_1.val()]);
            lemma_layer_gate_bound(*self, 0);
            crate::hypercube::lemma_lg_pow2(layer_bits(0));
            assert(lg(pow2(layer_bits(0))) == 3);
        }
        let mut a_tab = fold_table(&add0, &rs);
        let mut m_tab = fold_table(&mul0, &rs);
        let mut sumcheck_proof: Vec<(Fe, Vec<Vec<Fe>>)> = Vec::new();
        let mut w_s: Vec<(Fe, Fe)> = Vec::new();
        let mut i: usize = 0;
        proof {
            assert(lg(vals_of(a_tab@).len()) == 2);
            lemma_pow2_lg(vals_of(a_tab@).len());
            lemma_pow2_lg(vals_of(m_tab@).len());
            assert(vals_of(a_tab@).len() == pow2(2));
        }
        while i < layer_count
            invariant
                i <= layer_count,
                layer_count == self.layers@.len(),
                self.wf(),
                claim.wf(),
                all_wf(a_tab@),
                all_wf(m_tab@),
                gkrproof_wf_parts(sumcheck_proof@, w_s@),
                sumcheck_proof@.len() == i,
                w_s@.len() == i,
                i < layer_count ==> vals_of(a_tab@).len() == pow2((2 * i + 2) as nat),
                i < layer_count ==> vals_of(m_tab@).len() == pow2((2 * i + 2) as nat),
                i < layer_count ==> full.0 == sp_records(sumcheck_proof@) + gkr_prove_layers(
                    *self,
                    claim.val(),
                    vals_of(a_tab@),
                    vals_of(m_tab@),
                    fiat_shamir@,
                    i as int,
                ).0,
                i < layer_count ==> full.1 == ws_records(w_s@) + gkr_prove_layers(
                    *self,
                    claim.val(),
                    vals_of(a_tab@),
                    vals_of(m_tab@),
                    fiat_shamir@,
                    i as int,
                ).1,
                i == layer_count ==> full.0 == sp_records(sumcheck_proof@) && full.1 == ws_records(
                    w_s@,
                ),
            decreases layer_count - i,
        {
            let ghost layer_run = gkr_prove_layers(
                *self,
                claim.val(),
                vals_of(a_tab@),
                vals_of(m_tab@),
                fiat_shamir@,
                i as int,
            );
            let (round_polys, pair, next_claim, next_a, next_m) = prove_layer(
                self,
                i,
                claim,
                &a_tab,
                &m_tab,
                &mut fiat_shamir,
            );
            let ghost prev_sp = sumcheck_proof@;
            let ghost prev_ws = w_s@;
            sumcheck_proof.push((claim, round_polys));
            w_s.push(pair);
            proof {
                assert(sp_records(sumcheck_proof@) =~= sp_records(prev_sp).push(layer_run.0[0]));
                assert(ws_records(w_s@) =~= ws_records(prev_ws).push(layer_run.1[0]));
            }
            if i + 1 < layer_count {
                claim = next_claim;
                a_tab = next_a;
                m_tab = next_m;
                proof {
                    let rec = gkr_prove_layers(
                        *self,
                        claim.val(),
                        vals_of(a_tab@),
                        vals_of(m_tab@),
                        fiat_shamir@,
                        i as int + 1,
                    );
                    lemma_records_assoc(sp_records(prev_sp), layer_run.0[0], rec.0);
                    lemma_ws_assoc(ws_records(prev_ws), layer_run.1[0], rec.1);
                }
            } else {
                proof {
                    assert(sp_records(prev_sp) + layer_run.0 =~= sp_records(sumcheck_proof@));
                    assert(ws_records(prev_ws) + layer_run.1 =~= ws_records(w_s@));
                }
            }
            i = i + 1;
        }
        Gkrproof { output_mle, sumcheck_proof, w_s }
    }
}

/// The verifier's walk over the layers: the recorded claim must match the
/// derived one, the sumcheck replay must check out, the terminal claim
/// must equal the wiring evaluation combined with the relayed pair, and at
/// the deepest layer the relayed pair must equal the verifier's own
/// evaluation of the circuit-input polynomial.
#[verifier::opaque]
pub open spec fn gkr_verify_layers(
    c: Circuit,
    sps: Seq<(nat, Seq<Seq<nat>>)>,
    ws: Seq<(nat, nat)>,
    claim: nat,
    atab: Seq<nat>,
    mtab: Seq<nat>,
    ts: Seq<u8>,
    i: int,
) -> bool
    decreases c.layers@.len() - i,
{
    if i < 0 || i >= c.layers@.len() {
        true
    } else {
        let cl = sps[i].0;
        let msgs = sps[i].1;
        &&& cl == claim
        &&& msgs.len() == 2 * i + 2
        &&& match gsc_verify_rec(claim, msgs, ts) {
            None => false,
            Some((fin, chals, ts1)) => {
                let rb = chals.take(i + 1);
                let rc = chals.skip(i + 1);
                let wb = ws[i].0;
                let wc = ws[i].1;
                let a_eval = pe_iter(atab, chals)[0];
                let m_eval = pe_iter(mtab, chals)[0];
                &&& fin == add_f(mul_f(a_eval, add_f(wb, wc)), mul_f(m_eval, mul_f(wb, wc)))
                &&& if i == c.layers@.len() - 1 {
                    &&& wb == pe_iter(w_vals(c, c.layers@.len() as int), rb)[0]
                    &&& wc == pe_iter(w_vals(c, c.layers@.len() as int), rc)[0]
                } else {
                    let ts2 = ts1 + fe_bytes(fe_of(wb));
                    let alpha = squeeze_val(ts2);
                    let ts3 = ts2 + sha3_of(ts2);
                    let ts4 = ts3 + fe_bytes(fe_of(wc));
                    let beta = squeeze_val(ts4);
                    let ts5 = ts4 + sha3_of(ts4);
                    gkr_verify_layers(
                        c,
                        sps,
                        ws,
                        add_f(mul_f(alpha, wb), mul_f(beta, wc)),
                        folded_vals(
                            ind_table(c.layers@[i + 1].gates@, (i + 1) as nat, Op::Add),
                            rb,
                            rc,
                            alpha,
                            beta,
                        ),
                        folded_vals(
                            ind_table(c.layers@[i + 1].gates@, (i + 1) as nat, Op::Mul),
                            rb,
                            rc,
                            alpha,
                            beta,
                        ),
                        ts5,
                        i + 1,
                    )
                }
            },
        }
    }
}

/// The whole verifier: the proof's shape, then the layer walk from the
/// claim derived out of the proof's own output table.
pub open spec fn gkr_verify_spec(c: Circuit, gp: Gkrproof) -> bool {
    let om = vals_of(gp.output_mle@);
    &&& om.len() == 2
    &&& gp.sumcheck_proof@.len() == c.layers@.len()
    &&& gp.w_s@.len() == c.layers@.len()
    &&& ({
        let ts0 = vals_bytes(om);
        let r1 = squeeze_val(ts0);
        let ts1 = ts0 + sha3_of(ts0);
        let claim0 = pe0(om, r1)[0];
        let atab0 = pe_iter(ind_table(c.layers@[0].gates@, 0, Op::Add), seq![r1]);
        let mtab0 = pe_iter(ind_table(c.layers@[0].gates@, 0, Op::Mul), seq![r1]);
        gkr_verify_layers(
            c,
            sp_records(gp.sumcheck_proof@),
            ws_records(gp.w_s@),
            claim0,
            atab0,
            mtab0,
            ts1,
            0,
        )
    })
}

/// One verifier layer: replay the layer's sumcheck, check the terminal
/// claim against the wiring evaluations and the relayed pair, and either
/// check the pair against the circuit inputs or fold towards the next
/// layer.
#[verifier::rlimit(100)]
fn verify_layer(
    c: &Circuit,
    gp: &Gkrproof,
    i: usize,
    claim: Fe,
    a_tab: &Vec<Fe>,
    m_tab: &Vec<Fe>,
    fiat_shamir: &mut FiatShamir,
) -> (r: Option<(Fe, Vec<Fe>, Vec<Fe>)>)
    requires
        c.wf(),
        gkrproof_wf(*gp),
        i < c.layers@.len(),
        gp.sumcheck_proof@.len() == c.layers@.len(),
        gp.w_s@.len() == c.layers@.len(),
        claim.wf(),
        all_wf(a_tab@),
        all_wf(m_tab@),
        vals_of(a_tab@).len() == pow2((2 * i + 2) as nat),
        vals_of(m_tab@).len() == pow2((2 * i + 2) as nat),
    ensures
        ({
            let sps = sp_records(gp.sumcheck_proof@);
            let ws = ws_records(gp.w_s@);
            let here = gkr_verify_layers(
                *c,
                sps,
                ws,
                claim.val(),
                vals_of(a_tab@),
                vals_of(m_tab@),
                old(fiat_shamir)@,
                i as int,
            );
            match r {
                None => !here,
                Some((c2, a2, m2)) => if i + 1 < c.layers@.len() {
                    &&& c2.wf()
                    &&& all_wf(a2@)
                    &&& all_wf(m2@)
                    &&& vals_of(a2@).len() == pow2((2 * (i + 1) + 2) as nat)
                    &&& vals_of(m2@).len() == pow2((2 * (i + 1) + 2) as nat)
                    &&& here == gkr_verify_layers(
                        *c,
                        sps,
                        ws,
                        c2.val(),
                        vals_of(a2@),
                        vals_of(m2@),
                        final(fiat_shamir)@,
                        i as int + 1,
                    )
                } else {
                    here
                },
            }
        }),
{
    proof {
        reveal(gkr_verify_layers);
        assert(sp_records(gp.sumcheck_proof@)[i as int] == (
            gp.sumcheck_proof@[i as int].0.val(),
            msgs_vals(gp.sumcheck_proof@[i as int].1@),
        ));
        assert(ws_records(gp.w_s@)[i as int] == (
            gp.w_s@[i as int].0.val(),
            gp.w_s@[i as int].1.val(),
        ));
        assert(gp.sumcheck_proof@[i as int].0.wf());
        crate::hypercube::lemma_lg_pow2((2 * i + 2) as nat);
    }
    let entry = &gp.sumcheck_proof[i];
    if !crate::field::fe_eq(entry.0, claim) {
        return None;
    }
    let msgs = &entry.1;
    if msgs.len() != 2 * i + 2 {
        return None;
    }
    let (fin, chals) = match crate::gkr_sumcheck::gsc_verify_rounds(claim, msgs, fiat_shamir) {
        Some(pair) => pair,
        None => {
            return None;
        },
    };
    let (r_b, r_c) = split_challenges(&chals, i + 1);
    proof {
        assert(vals_of(r_b@) =~= vals_of(chals@).take(i + 1));
        assert(vals_of(r_c@) =~= vals_of(chals@).skip(i + 1));
    }
    let a_eval = match crate::sumcheck::eval_table(a_tab, &chals) {
        Some(v) => v,
        None => {
            proof {
                assert(false);
            }
            Fe::zero()
        },
    };
    let m_eval = match crate::sumcheck::eval_table(m_tab, &chals) {
        Some(v) => v,
        None => {
            proof {
                assert(false);
            }
            Fe::zero()
        },
    };
    let w_rb = gp.w_s[i].0;
    let w_rc = gp.w_s[i].1;
    let expect = crate::field::fe_add(
        crate::field::fe_mul(a_eval, crate::field::fe_add(w_rb, w_rc)),
        crate::field::fe_mul(m_eval, crate::field::fe_mul(w_rb, w_rc)),
    );
    if !crate::field::fe_eq(fin, expect) {
        return None;
    }
    if i + 1 < c.layers.len() {
        let (next_claim, a_next, m_next) = fold_next_layer(
            c,
            i,
            w_rb,
            w_rc,
            &r_b,
            &r_c,
            fiat_shamir,
        );
        Some((next_claim, a_next, m_next))
    } else {
        let w_in = c.get_ws(c.layers.len());
        let wb_own = match crate::sumcheck::eval_table(&w_in, &r_b) {
            Some(v) => v,
            None => {
                proof {
                    assert(false);
                }
                Fe::zero()
            },
        };
        let wc_own = match crate::sumcheck::eval_table(&w_in, &r_c) {
            Some(v) => v,
            None => {
                proof {
                    assert(false);
                }
                Fe::zero()
            },
        };
        if crate::field::fe_eq(w_rb, wb_own) && crate::field::fe_eq(w_rc, wc_own) {
            Some((claim, Vec::new(), Vec::new()))
        } else {
            None
        }
    }
}

impl Circuit {
    /// The GKR verifier.  Re-derives the first challenge from the proof's
    /// output table, then walks the layers: each sumcheck is replayed,
    /// each terminal claim checked against the folded wiring predicates
    /// and the relayed pair, and the deepest pair checked against the
    /// circuit-input polynomial.  Any mismatch REJECTs.
    #[verifier::rlimit(100)]
    pub fn verify(&self, gkr_proof: &Gkrproof) -> (r: bool)
        requires
            self.wf(),
            gkrproof_wf(*gkr_proof),
        ensures
            r == gkr_verify_spec(*self, *gkr_proof),
    {
        let layer_count = self.layers.len();
        if gkr_proof.output_mle.len() != 2 {
            return false;
        }
        if gkr_proof.sumcheck_proof.len() != layer_count {
            return false;
        }
        if gkr_proof.w_s.len() != layer_count {
            return false;
        }
        let ghost om = vals_of(gkr_proof.output_mle@);
        let mut fiat_shamir = FiatShamir::new();
        proof {
            assert(fiat_shamir@ + vals_bytes(om) =~= vals_bytes(om));
        }
        absorb_fes(&mut fiat_shamir, &gkr_proof.output_mle);
        let r_1 = fiat_shamir.squeeze();
        proof {
            vstd::arithmetic::power2::lemma2_to64();
            crate::hypercube::lemma_lg_pow2(1);
            assert(is_pow2(2nat) && lg(2nat) == 1);
        }
        let claim_start = pe_table0(&gkr_proof.output_mle, r_1);
        let mut claim = claim_start[0];
        proof {
            assert(vals_of(claim_start@)[0] == claim_start@[0].val());
        }
        let (add0, mul0) = self.add_i_or_mul_i(0);
        let rs: Vec<Fe> = vec![r_1];
        proof {
            assert(vals_of(rs@) =~= seq![r_1.val()]);
            lemma_layer_gate_bound(*self, 0);
            crate::hypercube::lemma_lg_pow2(layer_bits(0));
            assert(lg(pow2(layer_bits(0))) == 3);
            assert(add0@.len() == vals_of(add0@).len());
            assert(mul0@.len() == vals_of(mul0@).len());
            assert(add0@.len() == pow2(layer_bits(0)));
            assert(mul0@.len() == pow2(layer_bits(0)));
        }
        let mut a_tab = fold_table(&add0, &rs);
        let mut m_tab = fold_table(&mul0, &rs);
        proof {
            assert(lg(vals_of(a_tab@).len()) == 2);
            lemma_pow2_lg(vals_of(a_tab@).len());
            lemma_pow2_lg(vals_of(m_tab@).len());
            assert(vals_of(a_tab@).len() == pow2(2));
        }
        let mut i: usize = 0;
        while i < layer_count
            invariant
                i <= layer_count,
                layer_count == self.layers@.len(),
                self.wf(),
                gkrproof_wf(*gkr_proof),
                gkr_proof.sumcheck_proof@.len() == layer_count,
                gkr_proof.w_s@.len() == layer_count,
                gkr_proof.output_mle@.len() == 2,
                claim.wf(),
                all_wf(a_tab@),
                all_wf(m_tab@),
                i < layer_count ==> vals_of(a_tab@).len() == pow2((2 * i + 2) as nat),
                i < layer_count ==> vals_of(m_tab@).len() == pow2((2 * i + 2) as nat),
                gkr_verify_spec(*self, *gkr_proof) == gkr_verify_layers(
                    *self,
                    sp_records(gkr_proof.sumcheck_proof@),
                    ws_records(gkr_proof.w_s@),
                    claim.val(),
                    vals_of(a_tab@),
                    vals_of(m_tab@),
                    fiat_shamir@,
                    i as int,
                ),
            decreases layer_count - i,
        {
            let step = verify_layer(self, gkr_proof, i, claim, &a_tab, &m_tab, &mut fiat_shamir);
            match step {
                None => {
                    return false;
                },
                Some((c2, a2, m2)) => {
                    if i + 1 < layer_count {
                        claim = c2;
                        a_tab = a2;
                        m_tab = m2;
                    } else {
                        proof {
                            reveal(gkr_verify_layers);
                        }
                        return true;
                    }
                },
            }
            i = i + 1;
        }
        proof {
            reveal(gkr_verify_layers);
        }
        true
    }
}

/// Prefixing one record associates.
proof fn lemma_records_assoc(
    a: Seq<(nat, Seq<Seq<nat>>)>,
    x: (nat, Seq<Seq<nat>>),
    b: Seq<(nat, Seq<Seq<nat>>)>,
)
    ensures
        a + (seq![x] + b) == a.push(x) + b,
{
    assert(a + (seq![x] + b) =~= a.push(x) + b);
}

/// Prefixing one relayed pair associates.
proof fn lemma_ws_assoc(a: Seq<(nat, nat)>, x: (nat, nat), b: Seq<(nat, nat)>)
    ensures
        a + (seq![x] + b) == a.push(x) + b,
{
    assert(a + (seq![x] + b) =~= a.push(x) + b);
}

/// Both record lists of a proof under construction are well-formed.
pub open spec fn gkrproof_wf_parts(sp: Seq<(Fe, Vec<Vec<Fe>>)>, ws: Seq<(Fe, Fe)>) -> bool {
    &&& forall|i: int|
        0 <= i < sp.len() ==> (#[trigger] sp[i]).0.wf() && msgs_wf(sp[i].1@)
    &&& forall|i: int| 0 <= i < ws.len() ==> (#[trigger] ws[i]).0.wf() && ws[i].1.wf()
}

/// Gate counts stay under the machine word: nine layers keep every table
/// small.
pub proof fn lemma_layer_gate_bound(c: Circuit, layer: int)
    requires
        c.wf(),
        0 <= layer < c.layers@.len(),
    ensures
        c.layers@[layer].gates@.len() <= pow2(layer as nat),
        pow2(layer as nat) <= 256,
        pow2(layer_bits(layer as nat)) <= 0x20000000,
        2 * c.layers@[layer].gates@.len() <= pow2((layer + 1) as nat),
{
    vstd::arithmetic::power2::lemma2_to64();
    assert(layer <= 8);
    if (layer as nat) < 8 {
        vstd::arithmetic::power2::lemma_pow2_strictly_increases(layer as nat, 8);
    }
    assert(layer_bits(layer as nat) <= 26) by {
        assert(w_out(layer as nat) <= 8);
    }
    if layer_bits(layer as nat) < 29 {
        vstd::arithmetic::power2::lemma_pow2_strictly_increases(layer_bits(layer as nat), 29);
    }
    vstd::arithmetic::power2::lemma_pow2_adds(layer as nat, 1);
}

} // verus!
