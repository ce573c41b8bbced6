//! Algebraic facts about the operations, stated over the byte-string model.
use crate::model::{
    add_seq, borrow_into, digit, lemma_from_value, lemma_from_value_of_value, lemma_pow_monotone,
    lemma_value_bound, lex_lt, max_len, mul_seq, pow256, sub_digit, sub_seq, sum_len, value,
    wrapped_add_seq, wrapped_mul_seq, xor_seq,
};
use vstd::prelude::*;

verus! {

/// `s` without its least significant byte; empty stays empty.
spec fn high(s: Seq<u8>) -> Seq<u8> {
    if s.len() == 0 {
        s
    } else {
        s.drop_last()
    }
}

proof fn lemma_high(s: Seq<u8>)
    ensures
        value(s) == value(high(s)) * 256 + digit(s, 0) as nat,
        forall|i: int| 0 <= i ==> #[trigger] digit(high(s), i) == digit(s, i + 1),
        high(s).len() == if s.len() == 0 {
            0
        } else {
            s.len() - 1
        },
{
}

proof fn lemma_zero_digits_value(z: Seq<u8>)
    requires
        forall|i: int| 0 <= i < z.len() ==> z[i] == 0,
    ensures
        value(z) == 0,
    decreases z.len(),
{
    if z.len() > 0 {
        lemma_zero_digits_value(z.drop_last());
    }
}

/// Where the digits of `d` and `b` add up to those of `a` with no carry, so do the values.
proof fn lemma_digit_sum(d: Seq<u8>, a: Seq<u8>, b: Seq<u8>, m: nat)
    requires
        d.len() == m,
        a.len() <= m,
        b.len() <= m,
        forall|i: int| 0 <= i < m ==> digit(d, i) + digit(b, i) == digit(a, i),
    ensures
        value(d) + value(b) == value(a),
    decreases m,
{
    lemma_high(d);
    lemma_high(a);
    lemma_high(b);
    if m == 0 {
        assert(value(d) == 0 && value(a) == 0 && value(b) == 0);
    } else {
        assert forall|i: int| 0 <= i < m - 1 implies digit(high(d), i) + digit(high(b), i) == digit(
            high(a),
            i,
        ) by {
            assert(digit(d, i + 1) + digit(b, i + 1) == digit(a, i + 1));
        }
        lemma_digit_sum(high(d), high(a), high(b), (m - 1) as nat);
        assert(digit(d, 0) + digit(b, 0) == digit(a, 0));
    }
}

/// Addition is commutative: `a + b` and `b + a` are the same byte string.
pub proof fn add_commutes(a: Seq<u8>, b: Seq<u8>)
    ensures
        add_seq(a, b) == add_seq(b, a),
{
    assert(max_len(a, b) == max_len(b, a));
    assert(sum_len(a, b) == sum_len(b, a));
}

/// Adding an all-zero string no longer than `a` gives `a` back unchanged.
pub proof fn add_zeros_is_identity(a: Seq<u8>, z: Seq<u8>)
    requires
        z.len() <= a.len(),
        forall|i: int| 0 <= i < z.len() ==> z[i] == 0,
    ensures
        add_seq(a, z) == a,
{
    lemma_zero_digits_value(z);
    lemma_value_bound(a);
    lemma_from_value_of_value(a);
}

/// When `a` does not come before `b` in byte order and no position needs a borrow (each
/// digit of `a` is at least the digit of `b` of the same weight), adding `b` back to `a - b`
/// gives the number `a` at the longer operand's length: `a` itself when `a` is the longer.
pub proof fn sub_then_add_restores(a: Seq<u8>, b: Seq<u8>)
    requires
        !lex_lt(a, b),
        forall|i: int| 0 <= i < max_len(a, b) ==> digit(a, i) >= digit(b, i),
    ensures
        add_seq(sub_seq(a, b), b).len() == max_len(a, b),
        value(add_seq(sub_seq(a, b), b)) == value(a),
        a.len() >= b.len() ==> add_seq(sub_seq(a, b), b) == a,
{
    let m = max_len(a, b);
    let d = sub_seq(a, b);
    assert forall|i: nat| i <= m implies #[trigger] borrow_into(a, b, i) == 0 by {
        lemma_no_borrow(a, b, i);
    }
    assert forall|i: int| 0 <= i < m implies digit(d, i) + digit(b, i) == digit(a, i) by {
        assert(borrow_into(a, b, i as nat) == 0);
        assert(d[m - 1 - i] == sub_digit(digit(a, i), digit(b, i), 0).0);
    }
    lemma_digit_sum(d, a, b, m);
    lemma_value_bound(a);
    lemma_pow_monotone(a.len(), m);
    assert(max_len(d, b) == m);
    lemma_from_value(value(a), m);
    vstd::arithmetic::div_mod::lemma_small_mod(value(a), pow256(m));
    if a.len() >= b.len() {
        lemma_from_value_of_value(a);
    }
}

proof fn lemma_no_borrow(a: Seq<u8>, b: Seq<u8>, i: nat)
    requires
        forall|k: int| 0 <= k < max_len(a, b) ==> digit(a, k) >= digit(b, k),
        i <= max_len(a, b),
    ensures
        borrow_into(a, b, i) == 0,
    decreases i,
{
    if i > 0 {
        lemma_no_borrow(a, b, (i - 1) as nat);
        assert(digit(a, i - 1) >= digit(b, i - 1));
    }
}

/// A value xor-ed with itself is all zeros, at its own length.
pub proof fn xor_self_is_zero(a: Seq<u8>)
    ensures
        xor_seq(a, a) == Seq::new(a.len(), |i: int| 0u8),
{
    assert(forall|x: u8| #[trigger] (x ^ x) == 0u8) by (bit_vector);
    assert(xor_seq(a, a) =~= Seq::new(a.len(), |i: int| 0u8));
}

/// Exclusive or is commutative.
pub proof fn xor_commutes(a: Seq<u8>, b: Seq<u8>)
    ensures
        xor_seq(a, b) == xor_seq(b, a),
{
    assert(forall|x: u8, y: u8| #[trigger] (x ^ y) == y ^ x) by (bit_vector);
    assert(xor_seq(a, b) =~= xor_seq(b, a));
}

/// Multiplying by zero gives the single byte 0, whatever the value.
pub proof fn scalar_multiply_by_zero(a: Seq<u8>)
    ensures
        mul_seq(a, 0) == seq![0u8],
{
}

/// Wrapped addition leaves the sum untouched when it already fits in the width.
pub proof fn wrapped_add_fits(a: Seq<u8>, b: Seq<u8>, w: nat)
    requires
        sum_len(a, b) <= w,
    ensures
        wrapped_add_seq(a, b, w) == add_seq(a, b),
{
    crate::model::lemma_add_seq(a, b);
}

/// Wrapped addition is addition modulo `256^w`, and its result is never longer than `w` bytes.
pub proof fn wrapped_add_is_modular(a: Seq<u8>, b: Seq<u8>, w: nat)
    ensures
        value(wrapped_add_seq(a, b, w)) == (value(a) + value(b)) % pow256(w),
        wrapped_add_seq(a, b, w).len() == if sum_len(a, b) > w {
            w
        } else {
            sum_len(a, b)
        },
{
    crate::model::lemma_add_seq(a, b);
    crate::model::lemma_truncate_value(add_seq(a, b), w);
}

/// Truncating after every addition keeps the value of the product modulo `256^w`.
pub proof fn wrapped_scalar_multiply_is_modular(a: Seq<u8>, n: nat, w: nat)
    ensures
        value(wrapped_mul_seq(a, n, w)) == (n * value(a)) % pow256(w),
    decreases n,
{
    crate::model::lemma_pow256_positive(w);
    let p = pow256(w) as int;
    if n == 0 {
        assert(value(seq![0u8]) == 0) by {
            assert(seq![0u8].drop_last() =~= Seq::<u8>::empty());
            assert(value(Seq::<u8>::empty()) == 0);
        }
        vstd::arithmetic::div_mod::lemma_small_mod(0, pow256(w));
    } else {
        let n1 = (n - 1) as nat;
        let prev = wrapped_mul_seq(a, n1, w);
        wrapped_scalar_multiply_is_modular(a, n1, w);
        wrapped_add_is_modular(prev, a, w);
        let va = value(a) as int;
        vstd::arithmetic::div_mod::lemma_add_mod_noop_right(va, n1 * va, p);
        assert(n1 * va + va == n * va) by (nonlinear_arith)
            requires
                n1 + 1 == n,
        ;
    }
}

} // verus!
