//! The Fiat-Shamir transcript: a byte log absorbed into a SHA3-256 digest,
//! squeezed into field-element challenges.  Determinism is by construction:
//! the whole state is the sequence of absorbed bytes, and every challenge is
//! a function of that sequence alone.

use vstd::prelude::*;
use sha3::{Digest, Sha3_256};
use ark_ff::PrimeField;
use ark_bn254::Fq;
use crate::field::{p, Fe};

verus! {

/// The SHA3-256 digest of a byte string.
pub uninterp spec fn sha3_of(data: Seq<u8>) -> Seq<u8>;

/// The big-endian bytes of one 64-bit limb.
pub open spec fn u64_be_bytes(x: u64) -> Seq<u8> {
    seq![
        (x >> 56) as u8,
        (x >> 48) as u8,
        (x >> 40) as u8,
        (x >> 32) as u8,
        (x >> 24) as u8,
        (x >> 16) as u8,
        (x >> 8) as u8,
        x as u8,
    ]
}

/// The canonical 32-byte big-endian encoding of a field element.
pub open spec fn fe_bytes(v: Fe) -> Seq<u8> {
    u64_be_bytes(v.l3) + u64_be_bytes(v.l2) + u64_be_bytes(v.l1) + u64_be_bytes(v.l0)
}

/// The canonical encoding of a sequence of field elements, in order.
pub open spec fn fe_seq_bytes(s: Seq<Fe>) -> Seq<u8>
    decreases s.len(),
{
    if s.len() == 0 {
        Seq::<u8>::empty()
    } else {
        fe_bytes(s[0]) + fe_seq_bytes(s.drop_first())
    }
}

/// The integer value of a little-endian byte string.
pub open spec fn le_bytes_val(s: Seq<u8>) -> nat
    decreases s.len(),
{
    if s.len() == 0 {
        0
    } else {
        (s[0] + 256 * le_bytes_val(s.drop_first())) as nat
    }
}

/// The challenge derived from a transcript state: the digest of the state,
/// read little-endian and reduced into the field.
pub open spec fn squeeze_val(state: Seq<u8>) -> nat {
    le_bytes_val(sha3_of(state)) % p()
}

/// Relies on `ark_ff::PrimeField::from_le_bytes_mod_order` for
/// `ark_bn254::Fq`: the little-endian integer value of the bytes, reduced
/// modulo the field order.
#[verifier::external_body]
fn fe_from_le_bytes(bytes: &Vec<u8>) -> (r: Fe)
    ensures
        r.wf(),
        r.val() == le_bytes_val(bytes@) % p(),
{
    let z = Fq::from_le_bytes_mod_order(bytes.as_slice()).into_bigint().0;
    Fe { l0: z[0], l1: z[1], l2: z[2], l3: z[3] }
}

/// Writes the canonical big-endian bytes of one limb.
fn push_u64_be(out: &mut Vec<u8>, x: u64)
    ensures
        final(out)@ == old(out)@ + u64_be_bytes(x),
{
    out.push((x >> 56) as u8);
    out.push((x >> 48) as u8);
    out.push((x >> 40) as u8);
    out.push((x >> 32) as u8);
    out.push((x >> 24) as u8);
    out.push((x >> 16) as u8);
    out.push((x >> 8) as u8);
    out.push(x as u8);
    proof {
        assert(out@ =~= old(out)@ + u64_be_bytes(x));
    }
}

/// The canonical 32-byte big-endian encoding of a field element.
pub fn fe_to_bytes_be(v: Fe) -> (r: Vec<u8>)
    ensures
        r@ == fe_bytes(v),
{
    let mut out: Vec<u8> = Vec::new();
    push_u64_be(&mut out, v.l3);
    push_u64_be(&mut out, v.l2);
    push_u64_be(&mut out, v.l1);
    push_u64_be(&mut out, v.l0);
    proof {
        assert(out@ =~= fe_bytes(v));
    }
    out
}

/// The canonical encoding of a slice of field elements, in order.
pub fn fe_slice_bytes(values: &Vec<Fe>) -> (r: Vec<u8>)
    ensures
        r@ == fe_seq_bytes(values@),
{
    let mut out: Vec<u8> = Vec::new();
    let mut i: usize = 0;
    proof {
        assert(values@.subrange(0, 0) =~= Seq::<Fe>::empty());
        assert(out@ =~= fe_seq_bytes(values@.subrange(0, 0)));
    }
    while i < values.len()
        invariant
            i <= values.len(),
            out@ == fe_seq_bytes(values@.subrange(0, i as int)),
        decreases values.len() - i,
    {
        let bytes = fe_to_bytes_be(values[i]);
        let ghost prefix = values@.subrange(0, i as int);
        let mut j: usize = 0;
        while j < bytes.len()
            invariant
                j <= bytes.len(),
                bytes@ == fe_bytes(values@[i as int]),
                i < values@.len(),
                out@ == fe_seq_bytes(prefix) + bytes@.subrange(0, j as int),
            decreases bytes.len() - j,
        {
            let b = bytes[j];
            out.push(b);
            j = j + 1;
            proof {
                assert(bytes@.subrange(0, j as int) =~= bytes@.subrange(0, j - 1) + seq![b]);
                assert(out@ =~= fe_seq_bytes(prefix) + bytes@.subrange(0, j as int));
            }
        }
        proof {
            assert(bytes@.subrange(0, bytes@.len() as int) =~= bytes@);
            lemma_fe_seq_bytes_snoc(prefix, values@[i as int]);
            assert(values@.subrange(0, i + 1) =~= prefix.push(values@[i as int]));
        }
        i = i + 1;
    }
    proof {
        assert(values@.subrange(0, values@.len() as int) =~= values@);
    }
    out
}

/// Appending one element to a sequence appends its encoding.
pub proof fn lemma_fe_seq_bytes_snoc(s: Seq<Fe>, v: Fe)
    ensures
        fe_seq_bytes(s.push(v)) == fe_seq_bytes(s) + fe_bytes(v),
    decreases s.len(),
{
    if s.len() == 0 {
        assert(s.push(v).drop_first() =~= Seq::<Fe>::empty());
        assert(s.push(v)[0] == v);
        assert(fe_seq_bytes(Seq::<Fe>::empty()) =~= Seq::<u8>::empty());
        assert(fe_seq_bytes(s.push(v)) =~= fe_bytes(v));
        assert(fe_seq_bytes(s) + fe_bytes(v) =~= fe_bytes(v));
    } else {
        assert(s.push(v).drop_first() =~= s.drop_first().push(v));
        assert(s.push(v)[0] == s[0]);
        lemma_fe_seq_bytes_snoc(s.drop_first(), v);
        assert(fe_seq_bytes(s.push(v)) == fe_bytes(s[0]) + (fe_seq_bytes(s.drop_first()) + fe_bytes(v)));
        assert(fe_bytes(s[0]) + (fe_seq_bytes(s.drop_first()) + fe_bytes(v)) =~= (fe_bytes(s[0])
            + fe_seq_bytes(s.drop_first())) + fe_bytes(v));
    }
}

/// A Fiat-Shamir transcript: a running SHA3-256 state over everything
/// absorbed so far.  Its view is the sequence of absorbed bytes
/// (squeezing re-absorbs the digest it produced, chaining the state); a
/// challenge is a function of that sequence alone.
#[verifier::external_body]
pub struct FiatShamir {
    state: Sha3_256,
}

/// The bytes a transcript has absorbed so far, in order.
pub uninterp spec fn transcript_log(t: FiatShamir) -> Seq<u8>;

impl View for FiatShamir {
    type V = Seq<u8>;

    open spec fn view(&self) -> Seq<u8> {
        transcript_log(*self)
    }
}

impl FiatShamir {
    /// Relies on `sha3::Sha3_256::new` through the `Digest` trait: a fresh
    /// transcript that has absorbed nothing.
    #[verifier::external_body]
    pub fn new() -> (t: FiatShamir)
        ensures
            transcript_log(t) == Seq::<u8>::empty(),
    {
        FiatShamir { state: <Sha3_256 as Digest>::new() }
    }

    /// Relies on `sha3::Sha3_256::update` through the `Digest` trait:
    /// feeding bytes appends them to the absorbed stream.
    #[verifier::external_body]
    pub fn absorb(&mut self, input: &[u8])
        ensures
            transcript_log(*final(self)) == transcript_log(*old(self)) + input@,
    {
        <Sha3_256 as Digest>::update(&mut self.state, input);
    }

    /// Relies on `sha3::Sha3_256::finalize` through the `Digest` trait, on
    /// a clone of the state: the 32-byte SHA3-256 digest of the absorbed
    /// bytes, a function of those bytes alone.
    #[verifier::external_body]
    fn digest(&self) -> (r: Vec<u8>)
        ensures
            r@ == sha3_of(transcript_log(*self)),
            r@.len() == 32,
    {
        let out = <Sha3_256 as Digest>::finalize(self.state.clone());
        out.as_slice().to_vec()
    }

    /// Finalizes the current digest, reduces it into the field, and
    /// re-absorbs the digest bytes so that consecutive squeezes differ.
    pub fn squeeze(&mut self) -> (r: Fe)
        ensures
            final(self)@ == old(self)@ + sha3_of(old(self)@),
            r.wf(),
            r.val() == squeeze_val(old(self)@),
    {
        let digest = self.digest();
        let r = fe_from_le_bytes(&digest);
        self.absorb(digest.as_slice());
        r
    }
}

} // verus!
