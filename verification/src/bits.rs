//! The arithmetic meaning of bit sequences.
//!
//! Every scalar in this crate is laid out LSB-first: index 0 of a bit or
//! node sequence is the least-significant bit. The spec functions here fix
//! that correspondence once, and the executable helpers convert between
//! integers and LSB-first bit vectors against it.

use vstd::arithmetic::div_mod::{lemma_breakdown, lemma_small_mod};
use vstd::arithmetic::power2::{
    lemma2_to64, lemma_pow2_adds, lemma_pow2_pos, lemma_pow2_strictly_increases, lemma_pow2_unfold,
    pow2,
};
use vstd::prelude::*;

verus! {

/// The unsigned integer denoted by an LSB-first bit sequence.
pub open spec fn bits_to_nat(s: Seq<bool>) -> nat
    decreases s.len(),
{
    if s.len() == 0 {
        0
    } else {
        (if s[0] {
            1nat
        } else {
            0nat
        }) + 2 * bits_to_nat(s.drop_first())
    }
}

/// The `w`-bit LSB-first bit sequence of `v % pow2(w)`.
pub open spec fn lsb0(v: nat, w: nat) -> Seq<bool>
    decreases w,
{
    if w == 0 {
        Seq::empty()
    } else {
        seq![v % 2 == 1] + lsb0(v / 2, (w - 1) as nat)
    }
}

/// The `w`-bit MSB-first bit sequence of `v % pow2(w)`.
pub open spec fn msb0(v: nat, w: nat) -> Seq<bool> {
    lsb0(v, w).reverse()
}

/// A bit sequence denotes an integer below `pow2` of its length.
pub proof fn lemma_bits_to_nat_bound(s: Seq<bool>)
    ensures
        bits_to_nat(s) < pow2(s.len()),
    decreases s.len(),
{
    if s.len() == 0 {
        lemma_pow2_pos(0);
        lemma2_to64();
    } else {
        lemma_bits_to_nat_bound(s.drop_first());
        lemma_pow2_unfold(s.len());
    }
}

/// `lsb0` produces exactly `w` bits.
pub proof fn lemma_lsb0_len(v: nat, w: nat)
    ensures
        lsb0(v, w).len() == w,
    decreases w,
{
    if w > 0 {
        lemma_lsb0_len(v / 2, (w - 1) as nat);
    }
}

/// Reading back the bits of `v` yields `v % pow2(w)`; in particular it
/// yields `v` itself whenever `v` fits in `w` bits.
pub proof fn lemma_bits_to_nat_lsb0(v: nat, w: nat)
    ensures
        bits_to_nat(lsb0(v, w)) == v % pow2(w),
        v < pow2(w) ==> bits_to_nat(lsb0(v, w)) == v,
    decreases w,
{
    lemma_pow2_pos(w);
    if w == 0 {
        lemma2_to64();
        lemma_small_mod(0, 1);
        assert(v % 1 == 0) by (nonlinear_arith);
    } else {
        lemma_bits_to_nat_lsb0(v / 2, (w - 1) as nat);
        lemma_pow2_pos((w - 1) as nat);
        let s = lsb0(v, w);
        let rest = lsb0(v / 2, (w - 1) as nat);
        assert(s.drop_first() =~= rest);
        lemma_breakdown(v as int, 2, pow2((w - 1) as nat) as int);
        lemma_pow2_unfold(w);
    }
    if v < pow2(w) {
        lemma_small_mod(v, pow2(w));
    }
}

/// A bit sequence is recovered from the integer it denotes: `lsb0` is a
/// left inverse of `bits_to_nat`.
pub proof fn lemma_lsb0_bits_to_nat(s: Seq<bool>)
    ensures
        lsb0(bits_to_nat(s), s.len()) =~= s,
    decreases s.len(),
{
    if s.len() == 0 {
    } else {
        let b: nat = if s[0] {
            1
        } else {
            0
        };
        let r = bits_to_nat(s.drop_first());
        lemma_lsb0_bits_to_nat(s.drop_first());
        assert((b + 2 * r) % 2 == b) by (nonlinear_arith)
            requires
                b == 0 || b == 1,
        ;
        assert((b + 2 * r) / 2 == r) by (nonlinear_arith)
            requires
                b == 0 || b == 1,
        ;
        assert(lsb0(bits_to_nat(s), s.len()) =~= seq![s[0]] + lsb0(r, (s.len() - 1) as nat));
        assert(seq![s[0]] + s.drop_first() =~= s);
    }
}

/// `pow2(128)` written out, so that bounds on 128-bit scalars close.
pub proof fn lemma_pow2_128()
    ensures
        pow2(128) == 0x100000000000000000000000000000000,
{
    lemma_pow2_adds(64, 64);
    lemma2_to64();
}

/// Any bit count at most 128 denotes integers that fit in `u128`.
pub proof fn lemma_pow2_le_128(n: nat)
    ensures
        n <= 128 ==> pow2(n) <= pow2(128),
{
    if n < 128 {
        lemma_pow2_strictly_increases(n, 128);
    }
}

/// Reads an LSB-first bit slice of at most 128 bits as an unsigned integer.
pub fn u128_from_lsb0(bits: &[bool]) -> (r: u128)
    requires
        bits@.len() <= 128,
    ensures
        r as nat == bits_to_nat(bits@),
{
    proof {
        lemma_bits_to_nat_bound(bits@);
        lemma_pow2_128();
    }
    let n = bits.len();
    let mut r: u128 = 0;
    let mut i: usize = n;
    while i > 0
        invariant
            i <= n,
            n == bits@.len() <= 128,
            r as nat == bits_to_nat(bits@.subrange(i as int, n as int)),
        decreases i,
    {
        i = i - 1;
        let ghost prev = bits@.subrange(i + 1, n as int);
        let b = bits[i];
        proof {
            assert(bits@.subrange(i as int, n as int).drop_first() =~= prev);
            assert(bits@.subrange(i as int, n as int)[0] == bits@[i as int]);
            lemma_bits_to_nat_bound(bits@.subrange(i as int, n as int));
            lemma_pow2_le_128((n - i) as nat);
            lemma_pow2_128();
        }
        r = r * 2 + (if b {
            1
        } else {
            0
        });
    }
    proof {
        assert(bits@.subrange(0, n as int) =~= bits@);
    }
    r
}

/// The first `w` LSB-first bits of `v`, as a vector.
pub fn u128_to_lsb0(v: u128, w: usize) -> (r: Vec<bool>)
    ensures
        r@ == lsb0(v as nat, w as nat),
        r@.len() == w,
{
    proof {
        lemma_lsb0_len(v as nat, w as nat);
    }
    let mut r: Vec<bool> = Vec::new();
    let mut x = v;
    let mut i: usize = 0;
    while i < w
        invariant
            i <= w,
            r@.len() == i,
            lsb0(v as nat, w as nat) =~= r@ + lsb0(x as nat, (w - i) as nat),
        decreases w - i,
    {
        proof {
            lemma_lsb0_len(x as nat, (w - i) as nat);
            assert(lsb0(x as nat, (w - i) as nat) =~= seq![x as nat % 2 == 1] + lsb0(
                x as nat / 2,
                (w - i - 1) as nat,
            ));
        }
        let b = x % 2 == 1;
        proof {
            assert((r@ + seq![b]) + lsb0(x as nat / 2, (w - i - 1) as nat) =~= r@ + (seq![b] + lsb0(
                x as nat / 2,
                (w - i - 1) as nat,
            )));
        }
        r.push(b);
        x = x / 2;
        i = i + 1;
    }
    proof {
        assert(lsb0(v as nat, w as nat) =~= r@);
    }
    r
}

/// Reverses a bit vector, turning an LSB-first sequence into an MSB-first
/// one and back.
pub fn reverse_bits(v: Vec<bool>) -> (r: Vec<bool>)
    ensures
        r@ == v@.reverse(),
{
    let n = v.len();
    let mut r: Vec<bool> = Vec::new();
    let mut i: usize = n;
    while i > 0
        invariant
            i <= n,
            n == v@.len(),
            r@.len() == n - i,
            forall|k: int| 0 <= k < n - i ==> r@[k] == v@[n - 1 - k],
        decreases i,
    {
        i = i - 1;
        r.push(v[i]);
    }
    proof {
        assert(r@ =~= v@.reverse());
    }
    r
}

} // verus!
