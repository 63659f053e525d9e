//! The boolean hypercube: the set of all n-bit binary strings, used both as
//! the index domain of an evaluation table and as its printable labels, in
//! ascending numeric order.  Also the small power-of-two toolkit that the
//! table invariants are stated with.

use vstd::prelude::*;
use vstd::arithmetic::power2::{lemma_pow2_strictly_increases, pow2};

verus! {

/// Whether `n` is a power of two.
pub open spec fn is_pow2(n: nat) -> bool
    decreases n,
{
    if n == 0 {
        false
    } else if n == 1 {
        true
    } else {
        n % 2 == 0 && is_pow2(n / 2)
    }
}

/// The binary logarithm, rounded down.
pub open spec fn lg(n: nat) -> nat
    decreases n,
{
    if n <= 1 {
        0
    } else {
        1 + lg(n / 2)
    }
}

/// On powers of two, `lg` inverts `pow2`.
pub proof fn lemma_pow2_lg(n: nat)
    requires
        is_pow2(n),
    ensures
        pow2(lg(n)) == n,
        n >= 1,
    decreases n,
{
    vstd::arithmetic::power2::lemma_pow2_unfold(lg(n) + 1);
    if n == 1 {
        vstd::arithmetic::power2::lemma2_to64();
    } else {
        lemma_pow2_lg(n / 2);
        vstd::arithmetic::power2::lemma_pow2_unfold(lg(n));
    }
}

/// `lg` inverts `pow2` on the nose.
pub proof fn lemma_lg_pow2(e: nat)
    ensures
        lg(pow2(e)) == e,
        is_pow2(pow2(e)),
    decreases e,
{
    if e == 0 {
        vstd::arithmetic::power2::lemma2_to64();
    } else {
        vstd::arithmetic::power2::lemma_pow2_unfold(e);
        vstd::arithmetic::power2::lemma_pow2_pos((e - 1) as nat);
        lemma_lg_pow2((e - 1) as nat);
    }
}

/// Splitting off the lowest bit of a power of two at least 2.
pub proof fn lemma_pow2_halves(n: nat)
    requires
        is_pow2(n),
        n >= 2,
    ensures
        n % 2 == 0,
        is_pow2(n / 2),
        lg(n) >= 1,
        lg(n / 2) == lg(n) - 1,
        n / 2 == pow2((lg(n) - 1) as nat),
{
    lemma_pow2_lg(n);
    lemma_pow2_lg(n / 2);
    lemma_lg_pow2(lg(n / 2));
}

/// Decides whether a table length is a power of two.
pub fn is_power_of_two(n: usize) -> (r: bool)
    ensures
        r <==> is_pow2(n as nat),
{
    if n == 0 {
        return false;
    }
    let mut m: usize = n;
    while m > 1
        invariant
            m >= 1,
            is_pow2(n as nat) <==> is_pow2(m as nat),
        decreases m,
    {
        if m % 2 != 0 {
            return false;
        }
        m = m / 2;
    }
    true
}

/// The logarithm is small: `lg(n) < n` from two upward.
pub proof fn lemma_lg_small(n: nat)
    requires
        n >= 2,
    ensures
        lg(n) < n,
    decreases n,
{
    if n / 2 >= 2 {
        lemma_lg_small(n / 2);
    } else {
        assert(lg(n / 2) <= 1) by {
            if n / 2 == 1 {
                assert(lg(1) == 0);
            }
        }
    }
}

/// The number of free variables of a table of power-of-two length.
pub fn table_vars(n: usize) -> (r: usize)
    requires
        n >= 1,
    ensures
        r as nat == lg(n as nat),
{
    let mut m: usize = n;
    let mut count: usize = 0;
    proof {
        if n >= 2 {
            lemma_lg_small(n as nat);
        }
    }
    while m > 1
        invariant
            m >= 1,
            count + lg(m as nat) == lg(n as nat),
            lg(n as nat) < n,
        decreases m,
    {
        m = m / 2;
        count = count + 1;
    }
    count
}

/// Computes `pow2(e)` as a machine integer.
pub fn pow2_exec(e: usize) -> (r: usize)
    requires
        pow2(e as nat) <= usize::MAX,
    ensures
        r as nat == pow2(e as nat),
{
    let mut r: usize = 1;
    let mut i: usize = 0;
    proof {
        vstd::arithmetic::power2::lemma2_to64();
    }
    while i < e
        invariant
            i <= e,
            pow2(e as nat) <= usize::MAX,
            r as nat == pow2(i as nat),
        decreases e - i,
    {
        proof {
            vstd::arithmetic::power2::lemma_pow2_unfold(i as nat + 1);
            if i as nat + 1 < e as nat {
                lemma_pow2_strictly_increases(i as nat + 1, e as nat);
            }
        }
        r = r * 2;
        i = i + 1;
    }
    r
}

/// The character for one bit.
pub open spec fn bit_char(b: nat) -> char {
    if b == 1 {
        '1'
    } else {
        '0'
    }
}

/// The binary label of `i`, most significant bit first, `width` characters.
pub open spec fn bits_string(i: nat, width: nat) -> Seq<char>
    decreases width,
{
    if width == 0 {
        Seq::<char>::empty()
    } else {
        bits_string(i / 2, (width - 1) as nat).push(bit_char(i % 2))
    }
}

/// Relies on `String::push`: appends the one character to the string.
#[verifier::external_body]
fn string_push(s: &mut String, c: char)
    ensures
        final(s)@ == old(s)@.push(c),
{
    s.push(c);
}

/// Appends the binary label of `i` with the given width.
pub fn append_bits(s: &mut String, i: usize, width: usize)
    ensures
        final(s)@ == old(s)@ + bits_string(i as nat, width as nat),
    decreases width,
{
    if width == 0 {
        proof {
            assert(old(s)@ + bits_string(i as nat, 0) =~= old(s)@);
        }
    } else {
        append_bits(s, i / 2, width - 1);
        if i % 2 == 1 {
            string_push(s, '1');
        } else {
            string_push(s, '0');
        }
        proof {
            assert(old(s)@ + bits_string(i as nat, width as nat) =~= (old(s)@ + bits_string(
                (i / 2) as nat,
                (width - 1) as nat,
            )).push(bit_char(i as nat % 2)));
        }
    }
}

/// Builds the binary label of `i` with the given width.
pub fn bits_label(i: usize, width: usize) -> (r: String)
    ensures
        r@ == bits_string(i as nat, width as nat),
    decreases width,
{
    if width == 0 {
        let r = String::new();
        proof {
            assert(r@ =~= bits_string(i as nat, 0));
        }
        r
    } else {
        let mut r = bits_label(i / 2, width - 1);
        if i % 2 == 1 {
            string_push(&mut r, '1');
        } else {
            string_push(&mut r, '0');
        }
        r
    }
}

/// Enumerates the boolean hypercube of the given dimension: every binary
/// string of that width, in ascending numeric order.
pub fn boolean_hypercube(no_of_variables: usize) -> (r: Vec<String>)
    requires
        pow2(no_of_variables as nat) <= usize::MAX,
    ensures
        r@.len() == pow2(no_of_variables as nat),
        forall|k: int|
            0 <= k < r@.len() ==> r@[k]@ == bits_string(k as nat, no_of_variables as nat),
{
    let length_of_hypercube = pow2_exec(no_of_variables);
    let mut result: Vec<String> = Vec::new();
    let mut i: usize = 0;
    while i < length_of_hypercube
        invariant
            i <= length_of_hypercube,
            length_of_hypercube as nat == pow2(no_of_variables as nat),
            result@.len() == i,
            forall|k: int|
                0 <= k < i ==> result@[k]@ == bits_string(k as nat, no_of_variables as nat),
        decreases length_of_hypercube - i,
    {
        let label = bits_label(i, no_of_variables);
        result.push(label);
        i = i + 1;
    }
    result
}

} // verus!
