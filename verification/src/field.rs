//! The prime field that every polynomial and every protocol message lives in:
//! the BN254 base field.  An element is kept as its canonical little-endian
//! 64-bit limbs; the arithmetic itself is done by the `ark_bn254` field
//! implementation behind trusted wrappers whose contracts state the exact
//! residue arithmetic.

use vstd::prelude::*;
use vstd::arithmetic::div_mod::lemma_fundamental_div_mod_converse_mod;
use ark_ff::{BigInt, Field, PrimeField};
use ark_bn254::Fq;

verus! {

/// The field order: the number of residues modulo the BN254 base prime.
pub open spec fn p() -> nat {
    21888242871839275222246405745257275088696311157297823662689037894645226208583nat
}

/// Field addition on canonical representatives.
pub open spec fn add_f(a: nat, b: nat) -> nat {
    (a + b) % p()
}

/// Field subtraction on canonical representatives; exact for `b <= p()`.
pub open spec fn sub_f(a: nat, b: nat) -> nat {
    (((a + p()) - b) % (p() as int)) as nat
}

/// Field multiplication on canonical representatives.
pub open spec fn mul_f(a: nat, b: nat) -> nat {
    (a * b) % p()
}

/// A field element, held as the canonical representative `val() < p()`
/// in four little-endian 64-bit limbs.
#[derive(Clone, Copy, Debug, PartialEq, Eq, Structural, Hash)]
pub struct Fe {
    pub l0: u64,
    pub l1: u64,
    pub l2: u64,
    pub l3: u64,
}

impl Fe {
    /// The integer this element represents, read from the limbs in base 2^64.
    pub open spec fn val(self) -> nat {
        (self.l0 + self.l1 * 0x10000000000000000nat + self.l2 * 0x100000000000000000000000000000000nat
            + self.l3 * 0x1000000000000000000000000000000000000000000000000nat) as nat
    }

    /// Well-formed: the representative is canonical.
    pub open spec fn wf(self) -> bool {
        self.val() < p()
    }

    /// The zero element.
    pub fn zero() -> (r: Fe)
        ensures
            r.wf(),
            r.val() == 0,
    {
        Fe { l0: 0, l1: 0, l2: 0, l3: 0 }
    }

    /// The one element.
    pub fn one() -> (r: Fe)
        ensures
            r.wf(),
            r.val() == 1,
    {
        Fe { l0: 1, l1: 0, l2: 0, l3: 0 }
    }

    /// Embeds a machine integer into the field.
    pub fn from_u64(v: u64) -> (r: Fe)
        ensures
            r.wf(),
            r.val() == v as nat,
    {
        Fe { l0: v, l1: 0, l2: 0, l3: 0 }
    }
}

/// Two limb vectors that represent the same integer are the same limbs:
/// the base-2^64 digit representation is unique.
pub proof fn lemma_val_injective(a: Fe, b: Fe)
    requires
        a.val() == b.val(),
    ensures
        a == b,
{
    let base: int = 0x10000000000000000;
    let ra: int = a.l1 + a.l2 * base + a.l3 * base * base;
    let rb: int = b.l1 + b.l2 * base + b.l3 * base * base;
    assert(a.val() == a.l0 + ra * base) by (nonlinear_arith)
        requires
            ra == a.l1 + a.l2 * base + a.l3 * base * base,
            base == 0x10000000000000000,
            a.val() == (a.l0 + a.l1 * base + a.l2 * (base * base) + a.l3 * (base * base * base)) as nat,
    ;
    assert(b.val() == b.l0 + rb * base) by (nonlinear_arith)
        requires
            rb == b.l1 + b.l2 * base + b.l3 * base * base,
            base == 0x10000000000000000,
            b.val() == (b.l0 + b.l1 * base + b.l2 * (base * base) + b.l3 * (base * base * base)) as nat,
    ;
    lemma_fundamental_div_mod_converse_mod(a.val() as int, base, ra, a.l0 as int);
    lemma_fundamental_div_mod_converse_mod(b.val() as int, base, rb, b.l0 as int);
    assert(a.l0 == b.l0);
    assert(ra * base == rb * base);
    assert(ra == rb) by (nonlinear_arith)
        requires
            ra * base == rb * base,
            base > 0,
    ;
    let sa: int = a.l2 + a.l3 * base;
    let sb: int = b.l2 + b.l3 * base;
    assert(ra == a.l1 + sa * base) by (nonlinear_arith)
        requires
            ra == a.l1 + a.l2 * base + a.l3 * base * base,
            sa == a.l2 + a.l3 * base,
    ;
    assert(rb == b.l1 + sb * base) by (nonlinear_arith)
        requires
            rb == b.l1 + b.l2 * base + b.l3 * base * base,
            sb == b.l2 + b.l3 * base,
    ;
    lemma_fundamental_div_mod_converse_mod(ra, base, sa, a.l1 as int);
    lemma_fundamental_div_mod_converse_mod(rb, base, sb, b.l1 as int);
    assert(a.l1 == b.l1);
    assert(sa == sb) by (nonlinear_arith)
        requires
            sa * base + a.l1 == sb * base + b.l1,
            a.l1 == b.l1,
            base > 0,
    ;
    lemma_fundamental_div_mod_converse_mod(sa, base, a.l3 as int, a.l2 as int);
    lemma_fundamental_div_mod_converse_mod(sb, base, b.l3 as int, b.l2 as int);
    assert(a.l2 == b.l2);
    assert(a.l3 == b.l3);
}

/// The canonical element carrying a given residue.
pub open spec fn fe_of(v: nat) -> Fe {
    choose|f: Fe| f.wf() && f.val() == v
}

/// A well-formed element is the canonical element of its residue.
pub proof fn lemma_fe_of(f: Fe)
    requires
        f.wf(),
    ensures
        fe_of(f.val()) == f,
{
    assert(exists|c: Fe| c.wf() && c.val() == f.val()) by {
        assert(f.wf() && f.val() == f.val());
    }
    let c = choose|c: Fe| c.wf() && c.val() == f.val();
    lemma_val_injective(c, f);
}

/// Equality of field elements, decided on the limbs.
pub fn fe_eq(a: Fe, b: Fe) -> (r: bool)
    ensures
        r <==> a.val() == b.val(),
{
    proof {
        if a.val() == b.val() {
            lemma_val_injective(a, b);
        }
    }
    a.l0 == b.l0 && a.l1 == b.l1 && a.l2 == b.l2 && a.l3 == b.l3
}

/// Relies on `ark_ff` field addition for `ark_bn254::Fq`: the sum of the two
/// canonical representatives, reduced modulo the field order.
#[verifier::external_body]
pub fn fe_add(a: Fe, b: Fe) -> (r: Fe)
    requires
        a.wf(),
        b.wf(),
    ensures
        r.wf(),
        r.val() == add_f(a.val(), b.val()),
{
    let x = Fq::from_bigint(BigInt([a.l0, a.l1, a.l2, a.l3])).unwrap();
    let y = Fq::from_bigint(BigInt([b.l0, b.l1, b.l2, b.l3])).unwrap();
    let z = (x + y).into_bigint().0;
    Fe { l0: z[0], l1: z[1], l2: z[2], l3: z[3] }
}

/// Relies on `ark_ff` field subtraction for `ark_bn254::Fq`: the difference
/// of the two canonical representatives, reduced modulo the field order.
#[verifier::external_body]
pub fn fe_sub(a: Fe, b: Fe) -> (r: Fe)
    requires
        a.wf(),
        b.wf(),
    ensures
        r.wf(),
        r.val() == sub_f(a.val(), b.val()),
{
    let x = Fq::from_bigint(BigInt([a.l0, a.l1, a.l2, a.l3])).unwrap();
    let y = Fq::from_bigint(BigInt([b.l0, b.l1, b.l2, b.l3])).unwrap();
    let z = (x - y).into_bigint().0;
    Fe { l0: z[0], l1: z[1], l2: z[2], l3: z[3] }
}

/// Relies on `ark_ff` field multiplication for `ark_bn254::Fq`: the product
/// of the two canonical representatives, reduced modulo the field order.
#[verifier::external_body]
pub fn fe_mul(a: Fe, b: Fe) -> (r: Fe)
    requires
        a.wf(),
        b.wf(),
    ensures
        r.wf(),
        r.val() == mul_f(a.val(), b.val()),
{
    let x = Fq::from_bigint(BigInt([a.l0, a.l1, a.l2, a.l3])).unwrap();
    let y = Fq::from_bigint(BigInt([b.l0, b.l1, b.l2, b.l3])).unwrap();
    let z = (x * y).into_bigint().0;
    Fe { l0: z[0], l1: z[1], l2: z[2], l3: z[3] }
}

/// Relies on `ark_ff::Field::inverse` for `ark_bn254::Fq`: for a nonzero
/// element it returns the multiplicative inverse in the field.
#[verifier::external_body]
pub fn fe_inv(a: Fe) -> (r: Fe)
    requires
        a.wf(),
        a.val() != 0,
    ensures
        r.wf(),
        mul_f(a.val(), r.val()) == 1,
{
    let x = Fq::from_bigint(BigInt([a.l0, a.l1, a.l2, a.l3])).unwrap();
    let z = x.inverse().unwrap().into_bigint().0;
    Fe { l0: z[0], l1: z[1], l2: z[2], l3: z[3] }
}

} // verus!
