//! Bit-reversal arithmetic for split-ordered keys.
//!
//! A split-ordered list arranges nodes by the bit-reversed image of their
//! keys, so that doubling the bucket count never reorders the list.  This
//! module defines the reversal as a recursive specification, proves the
//! facts the map relies on (range, involution, prefix ordering, parity),
//! and provides the executable reversal.

use vstd::prelude::*;
use vstd::arithmetic::power2::{
    pow2, lemma_pow2_adds, lemma_pow2_pos, lemma_pow2_unfold, lemma_pow2_strictly_increases,
    lemma2_to64, lemma2_to64_rest,
};
use vstd::arithmetic::div_mod::{
    lemma_fundamental_div_mod, lemma_fundamental_div_mod_converse, lemma_small_mod,
    lemma_mod_division_less_than_divisor, lemma_mod_multiples_vanish, lemma_div_denominator,
    lemma_basic_div,
};
use vstd::bits::{lemma_u64_shl_is_mul, lemma_u64_pow2_no_overflow};

verus! {

/// The bit-reversed image of the low `w` bits of `n`: the lowest bit of `n`
/// becomes the highest of the result, and so on.
pub open spec fn rev_spec(n: nat, w: nat) -> nat
    decreases w,
{
    if w == 0 {
        0
    } else {
        (n % 2) * pow2((w - 1) as nat) + rev_spec(n / 2, (w - 1) as nat)
    }
}

/// Word-level reversal: the ordering keys of the split-ordered list are
/// 64-bit reversals.
pub open spec fn rev64(n: u64) -> u64 {
    rev_spec(n as nat, 64) as u64
}

/// A reversal of width `w` fits in `w` bits.
pub proof fn lemma_rev_bound(n: nat, w: nat)
    ensures
        rev_spec(n, w) < pow2(w),
    decreases w,
{
    if w == 0 {
        lemma2_to64();
    } else {
        lemma_rev_bound(n / 2, (w - 1) as nat);
        lemma_pow2_unfold(w);
        assert(n % 2 == 0 || n % 2 == 1);
    }
}

/// Zero reverses to zero at every width.
pub proof fn lemma_rev_zero(w: nat)
    ensures
        rev_spec(0, w) == 0,
    decreases w,
{
    if w > 0 {
        lemma_rev_zero((w - 1) as nat);
        assert(rev_spec(0, w) == (0nat % 2) * pow2((w - 1) as nat) + rev_spec(0nat / 2, (w - 1) as nat));
    }
}

/// Splitting a word at bit `s` splits its reversal: the low `s` bits of
/// `n` reverse into the top of the result, the rest into the bottom.
pub proof fn lemma_rev_decompose(n: nat, s: nat, w: nat)
    requires
        s <= w,
    ensures
        rev_spec(n, w) == rev_spec(n % pow2(s), s) * pow2((w - s) as nat) + rev_spec(
            n / pow2(s),
            (w - s) as nat,
        ),
    decreases s,
{
    lemma_pow2_pos(s);
    if s == 0 {
        lemma2_to64();
        assert(pow2(0) == 1);
        lemma_mod_division_less_than_divisor(n as int, 1);
        vstd::arithmetic::div_mod::lemma_div_basics(n as int);
        assert(n % pow2(0) == 0);
        assert(n / pow2(0) == n);
        assert(rev_spec(n % pow2(0), 0) == 0);
        assert(rev_spec(n, w) == rev_spec(n % pow2(s), s) * pow2((w - s) as nat) + rev_spec(
            n / pow2(s),
            (w - s) as nat,
        ));
    } else {
        let sm = (s - 1) as nat;
        let wm = (w - 1) as nat;
        let ws = (w - s) as nat;
        let a = n % 2;
        let m = n / 2;
        let r = n % pow2(s);
        let q = n / pow2(s);
        lemma_pow2_pos(sm);
        lemma_pow2_pos(ws);
        lemma_pow2_unfold(s);
        assert(pow2(s) == 2 * pow2(sm));
        lemma_fundamental_div_mod(n as int, pow2(s) as int);
        lemma_mod_division_less_than_divisor(n as int, pow2(s) as int);
        assert(n == q * pow2(s) + r);
        assert(r < pow2(s));
        // (F1) m / pow2(s - 1) == n / pow2(s)
        lemma_div_denominator(n as int, 2, pow2(sm) as int);
        assert(m / pow2(sm) == n / (2 * pow2(sm)));
        assert(m / pow2(sm) == q);
        // (F2) m % pow2(s - 1) == r / 2
        assert(n == (q * pow2(sm)) * 2 + r) by (nonlinear_arith)
            requires
                n == q * pow2(s) + r,
                pow2(s) == 2 * pow2(sm),
        ;
        vstd::arithmetic::div_mod::lemma_hoist_over_denominator(
            r as int,
            (q * pow2(sm)) as int,
            2,
        );
        assert(m == q * pow2(sm) + r / 2);
        vstd::arithmetic::div_mod::lemma_multiply_divide_lt(r as int, pow2(sm) as int, 2);
        assert(r / 2 < pow2(sm));
        lemma_mod_multiples_vanish(q as int, (r / 2) as int, pow2(sm) as int);
        lemma_small_mod(r / 2, pow2(sm));
        assert(m % pow2(sm) == r / 2);
        // (F3) n % 2 == r % 2
        lemma_mod_multiples_vanish((q * pow2(sm)) as int, r as int, 2);
        assert(a == r % 2);
        // induction on the remaining bits
        lemma_rev_decompose(m, sm, wm);
        assert(rev_spec(m, wm) == rev_spec(r / 2, sm) * pow2(ws) + rev_spec(q, ws));
        // reassemble
        let rb = rev_spec(r / 2, sm);
        lemma_pow2_adds(sm, ws);
        assert(pow2(sm) * pow2(ws) == pow2(wm));
        assert(rev_spec(r, s) == (r % 2) * pow2(sm) + rev_spec(r / 2, sm));
        assert(rev_spec(r, s) * pow2(ws) == a * pow2(wm) + rb * pow2(ws)) by (nonlinear_arith)
            requires
                rev_spec(r, s) == a * pow2(sm) + rb,
                pow2(sm) * pow2(ws) == pow2(wm),
        ;
        assert(rev_spec(n, w) == a * pow2(wm) + rev_spec(m, wm));
        assert(rev_spec(n, w) == rev_spec(r, s) * pow2(ws) + rev_spec(q, ws));
    }
}

/// A value below `pow2(s)` reverses at width `w` into the top `s` bits.
pub proof fn lemma_rev_low(n: nat, s: nat, w: nat)
    requires
        s <= w,
        n < pow2(s),
    ensures
        rev_spec(n, w) == rev_spec(n, s) * pow2((w - s) as nat),
{
    lemma_pow2_pos(s);
    lemma_rev_decompose(n, s, w);
    lemma_small_mod(n, pow2(s));
    lemma_basic_div(n as int, pow2(s) as int);
    lemma_rev_zero((w - s) as nat);
}

/// Reversals of values that agree on their low `s` bits lie in one block
/// of width `pow2(w - s)`; in particular the reversal of the residue is a
/// lower bound.  This is why a bucket's sentinel precedes every key of
/// the bucket in split order.
pub proof fn lemma_rev_mod_prefix(n: nat, s: nat, w: nat)
    requires
        s <= w,
    ensures
        rev_spec(n % pow2(s), w) <= rev_spec(n, w),
        rev_spec(n, w) < rev_spec(n % pow2(s), w) + pow2((w - s) as nat),
{
    lemma_pow2_pos(s);
    let r = n % pow2(s);
    lemma_mod_division_less_than_divisor(n as int, pow2(s) as int);
    lemma_rev_decompose(n, s, w);
    lemma_rev_low(r, s, w);
    lemma_rev_bound(n / pow2(s), (w - s) as nat);
}

/// The lowest bit of the reversal is the highest bit of the argument.
pub proof fn lemma_rev_parity(n: nat, w: nat)
    requires
        w >= 1,
    ensures
        rev_spec(n, w) % 2 == (n / pow2((w - 1) as nat)) % 2,
{
    let wm = (w - 1) as nat;
    let b = n / pow2(wm);
    lemma_pow2_pos(wm);
    lemma_rev_decompose(n, wm, w);
    assert(rev_spec(b, 1) == (b % 2) * pow2(0) + rev_spec(b / 2, 0));
    lemma2_to64();
    assert(rev_spec(b, 1) == b % 2);
    assert(pow2(1) == 2);
    let t = rev_spec(n % pow2(wm), wm);
    assert(rev_spec(n, w) == t * 2 + b % 2);
    lemma_mod_multiples_vanish(t as int, (b % 2) as int, 2);
    lemma_mod_division_less_than_divisor(b as int, 2);
    lemma_small_mod((b % 2) as nat, 2);
    assert(rev_spec(n, w) % 2 == b % 2) by (nonlinear_arith)
        requires
            rev_spec(n, w) == t * 2 + b % 2,
    ;
}

/// Reversal is an involution on `w`-bit values.
pub proof fn lemma_rev_involution(n: nat, w: nat)
    requires
        n < pow2(w),
    ensures
        rev_spec(rev_spec(n, w), w) == n,
    decreases w,
{
    if w == 0 {
        lemma2_to64();
        assert(n == 0);
        lemma_rev_zero(w);
    } else {
        let wm = (w - 1) as nat;
        let m = n % pow2(wm);
        let b = n / pow2(wm);
        lemma_pow2_pos(wm);
        lemma_pow2_unfold(w);
        lemma_fundamental_div_mod(n as int, pow2(wm) as int);
        lemma_mod_division_less_than_divisor(n as int, pow2(wm) as int);
        vstd::arithmetic::div_mod::lemma_multiply_divide_lt(n as int, pow2(wm) as int, 2);
        assert(b < 2);
        // the reversal, split at the top bit of n
        lemma_rev_decompose(n, wm, w);
        assert(rev_spec(b, 1) == (b % 2) * pow2(0) + rev_spec(b / 2, 0));
        lemma2_to64();
        lemma_small_mod(b, 2);
        assert(rev_spec(b, 1) == b);
        assert(pow2(1) == 2);
        let rm = rev_spec(m, wm);
        assert(rev_spec(n, w) == rm * 2 + b);
        // reverse again, peeling the low bit first
        let rr = rev_spec(n, w);
        assert(rev_spec(rr, w) == (rr % 2) * pow2(wm) + rev_spec(rr / 2, wm));
        lemma_mod_multiples_vanish(rm as int, b as int, 2);
        lemma_small_mod(b, 2);
        assert(rr % 2 == b);
        lemma_fundamental_div_mod_converse(rr as int, 2, rm as int, b as int);
        assert(rr / 2 == rm);
        lemma_rev_bound(m, wm);
        lemma_rev_involution(m, wm);
        assert(rev_spec(rr, w) == b * pow2(wm) + m);
        vstd::arithmetic::mul::lemma_mul_is_commutative(b as int, pow2(wm) as int);
        assert(b * pow2(wm) + m == n);
    }
}

/// Reversal is injective on `w`-bit values.
pub proof fn lemma_rev_injective(n1: nat, n2: nat, w: nat)
    requires
        n1 < pow2(w),
        n2 < pow2(w),
        rev_spec(n1, w) == rev_spec(n2, w),
    ensures
        n1 == n2,
{
    lemma_rev_involution(n1, w);
    lemma_rev_involution(n2, w);
}

/// The 64-bit reversal fits a `u64` exactly; the cast in `rev64` loses
/// nothing.
pub proof fn lemma_rev64_is_rev_spec(n: u64)
    ensures
        rev64(n) as nat == rev_spec(n as nat, 64),
{
    lemma_rev_bound(n as nat, 64);
    lemma2_to64_rest();
    assert(pow2(64) == 0x10000000000000000);
}

fn rev_rec(n: u64, w: u64) -> (r: u64)
    requires
        w <= 64,
    ensures
        r as nat == rev_spec(n as nat, w as nat),
        (r as nat) < pow2(w as nat),
    decreases w,
{
    if w == 0 {
        proof {
            lemma2_to64();
        }
        0
    } else {
        let rest = rev_rec(n / 2, w - 1);
        proof {
            lemma_u64_pow2_no_overflow((w - 1) as nat);
            lemma_pow2_unfold(w as nat);
            lemma2_to64_rest();
            if (w as nat) < 64 {
                lemma_pow2_strictly_increases(w as nat, 64);
            }
            assert(pow2(w as nat) <= 0x10000000000000000);
        }
        if n % 2 == 1 {
            let high = 1u64 << (w - 1);
            proof {
                lemma_u64_shl_is_mul(1u64, (w - 1) as u64);
            }
            high + rest
        } else {
            rest
        }
    }
}

/// Reverses the bit pattern of a word.
pub fn bit_reverse(n: u64) -> (r: u64)
    ensures
        r == rev64(n),
{
    proof {
        lemma_rev64_is_rev_spec(n);
    }
    rev_rec(n, 64)
}

/// The largest power of two that is at most `n`.
pub fn get_top_bit(n: usize) -> (r: usize)
    requires
        n >= 1,
    ensures
        r <= n < 2 * r,
        exists|e: nat| r == pow2(e),
{
    let mut a: usize = 1;
    let ghost mut e: nat = 0;
    proof {
        lemma2_to64();
    }
    while a <= n / 2
        invariant
            1 <= a <= n,
            a == pow2(e),
        decreases n - a,
    {
        proof {
            lemma_pow2_unfold((e + 1) as nat);
            e = e + 1;
        }
        a = a * 2;
    }
    proof {
        assert(a > n / 2);
        assert(n < 2 * a) by {
            if n >= 2 * a {
                vstd::arithmetic::div_mod::lemma_div_multiples_vanish(2, a as int);
                vstd::arithmetic::div_mod::lemma_div_is_ordered((2 * a) as int, n as int, 2);
                assert(n / 2 >= a);
            }
        }
        assert(a == pow2(e));
    }
    a
}

} // verus!
