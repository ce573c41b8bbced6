//! Mathematical model of big-endian base-256 byte strings.
use vstd::prelude::*;

verus! {

/// `256^n`.
pub open spec fn pow256(n: nat) -> nat
    decreases n,
{
    if n == 0 {
        1
    } else {
        256 * pow256((n - 1) as nat)
    }
}

/// The number that `s` denotes, most significant byte first.
pub open spec fn value(s: Seq<u8>) -> nat
    decreases s.len(),
{
    if s.len() == 0 {
        0
    } else {
        value(s.drop_last()) * 256 + s.last() as nat
    }
}

/// The `n`-byte big-endian representation of `v` modulo `256^n`.
pub open spec fn from_value(v: nat, n: nat) -> Seq<u8>
    decreases n,
{
    if n == 0 {
        Seq::empty()
    } else {
        from_value(v / 256, (n - 1) as nat).push((v % 256) as u8)
    }
}

/// The byte of weight `256^i` in `s`; 0 past its most significant byte.
pub open spec fn digit(s: Seq<u8>, i: int) -> u8 {
    if 0 <= i < s.len() {
        s[s.len() - 1 - i]
    } else {
        0
    }
}

/// The byte at index `i` of `s` counted from the front; 0 past its end.
pub open spec fn lead(s: Seq<u8>, i: int) -> u8 {
    if 0 <= i < s.len() {
        s[i]
    } else {
        0
    }
}

pub open spec fn max_len(a: Seq<u8>, b: Seq<u8>) -> nat {
    if a.len() >= b.len() {
        a.len()
    } else {
        b.len()
    }
}

/// Length of the exact sum: the longer operand's length, one more on a final carry.
pub open spec fn sum_len(a: Seq<u8>, b: Seq<u8>) -> nat {
    if value(a) + value(b) < pow256(max_len(a, b)) {
        max_len(a, b)
    } else {
        max_len(a, b) + 1
    }
}

/// Exact sum of two byte strings.
pub open spec fn add_seq(a: Seq<u8>, b: Seq<u8>) -> Seq<u8> {
    from_value(value(a) + value(b), sum_len(a, b))
}

/// `s` cut down to its last `w` bytes when it is longer than that.
pub open spec fn truncate(s: Seq<u8>, w: nat) -> Seq<u8> {
    if s.len() > w {
        s.subrange(s.len() - w, s.len() as int)
    } else {
        s
    }
}

/// Sum truncated to `w` bytes.
pub open spec fn wrapped_add_seq(a: Seq<u8>, b: Seq<u8>, w: nat) -> Seq<u8> {
    truncate(add_seq(a, b), w)
}

/// `[0]` with `a` added to it `n` times.
pub open spec fn mul_seq(a: Seq<u8>, n: nat) -> Seq<u8>
    decreases n,
{
    if n == 0 {
        seq![0u8]
    } else {
        add_seq(mul_seq(a, (n - 1) as nat), a)
    }
}

/// `[0]` with `a` added to it `n` times, truncating to `w` bytes after each addition.
pub open spec fn wrapped_mul_seq(a: Seq<u8>, n: nat, w: nat) -> Seq<u8>
    decreases n,
{
    if n == 0 {
        seq![0u8]
    } else {
        wrapped_add_seq(wrapped_mul_seq(a, (n - 1) as nat, w), a, w)
    }
}

/// One byte of subtraction: the result byte and the borrow handed to the next byte.
/// When `a < b` the byte is `a + 255 - b` whatever the incoming borrow.
pub open spec fn sub_digit(a: u8, b: u8, borrow: u8) -> (u8, u8) {
    if a < b {
        ((a + 255 - b) as u8, 1u8)
    } else if a - b < borrow {
        (((a - b + 255) % 256) as u8, 1u8)
    } else {
        ((a - b - borrow) as u8, 0u8)
    }
}

/// Borrow that reaches the byte of weight `256^i` when subtracting `b` from `a`.
pub open spec fn borrow_into(a: Seq<u8>, b: Seq<u8>, i: nat) -> u8
    decreases i,
{
    if i == 0 {
        0
    } else {
        sub_digit(
            digit(a, i - 1),
            digit(b, i - 1),
            borrow_into(a, b, (i - 1) as nat),
        ).1
    }
}

/// Result of subtracting `b` from `a` byte by byte, aligned at the least significant end.
pub open spec fn sub_seq(a: Seq<u8>, b: Seq<u8>) -> Seq<u8> {
    let m = max_len(a, b);
    Seq::new(
        m,
        |j: int|
            sub_digit(
                digit(a, m - 1 - j),
                digit(b, m - 1 - j),
                borrow_into(a, b, (m - 1 - j) as nat),
            ).0,
    )
}

/// `a` comes strictly before `b` in lexicographic byte order.
pub open spec fn lex_lt(a: Seq<u8>, b: Seq<u8>) -> bool {
    exists|k: int|
        #![trigger a.subrange(0, k)]
        0 <= k <= a.len() && k <= b.len() && a.subrange(0, k) == b.subrange(0, k) && (if k
            == a.len() {
            k < b.len()
        } else {
            k < b.len() && a[k] < b[k]
        })
}

/// Byte-wise exclusive or, aligned at the front.
pub open spec fn xor_seq(a: Seq<u8>, b: Seq<u8>) -> Seq<u8> {
    Seq::new(max_len(a, b), |i: int| lead(a, i) ^ lead(b, i))
}

/// The last `min(i, s.len())` bytes of `s`.
pub open spec fn low_part(s: Seq<u8>, i: nat) -> Seq<u8> {
    if i >= s.len() {
        s
    } else {
        s.subrange(s.len() - i, s.len() as int)
    }
}

pub proof fn lemma_pow256_positive(n: nat)
    ensures
        pow256(n) >= 1,
    decreases n,
{
    if n > 0 {
        lemma_pow256_positive((n - 1) as nat);
    }
}

pub proof fn lemma_value_bound(s: Seq<u8>)
    ensures
        value(s) < pow256(s.len()),
    decreases s.len(),
{
    if s.len() > 0 {
        let p = s.drop_last();
        lemma_value_bound(p);
        let v = value(p);
        let q = pow256(p.len());
        assert(v * 256 + (s.last() as nat) < 256 * q) by (nonlinear_arith)
            requires
                v < q,
                s.last() < 256,
        ;
    }
}

pub proof fn lemma_from_value(v: nat, n: nat)
    ensures
        from_value(v, n).len() == n,
        value(from_value(v, n)) == v % pow256(n),
    decreases n,
{
    if n > 0 {
        let n1 = (n - 1) as nat;
        lemma_from_value(v / 256, n1);
        let s = from_value(v, n);
        assert(s.drop_last() =~= from_value(v / 256, n1));
        let q = pow256(n1);
        lemma_pow256_positive(n1);
        let w = v / 256;
        let r = v % 256;
        assert(v == w * 256 + r);
        assert(v % (256 * q) == (w % q) * 256 + r) by {
            vstd::arithmetic::div_mod::lemma_breakdown(v as int, 256, q as int);
        }
    }
}

/// A byte string is the representation of its own value at its own length.
pub proof fn lemma_from_value_of_value(s: Seq<u8>)
    ensures
        from_value(value(s), s.len()) == s,
    decreases s.len(),
{
    if s.len() > 0 {
        let p = s.drop_last();
        lemma_from_value_of_value(p);
        let v = value(s);
        assert(v / 256 == value(p));
        assert(v % 256 == s.last() as nat);
        assert(from_value(v, s.len()) =~= s);
    }
}

pub proof fn lemma_value_prepend(d: u8, s: Seq<u8>)
    ensures
        value(seq![d] + s) == d as nat * pow256(s.len()) + value(s),
    decreases s.len(),
{
    let t = seq![d] + s;
    if s.len() > 0 {
        let p = s.drop_last();
        lemma_value_prepend(d, p);
        assert(t.drop_last() =~= seq![d] + p);
        let q = pow256(p.len());
        let x = d as nat;
        let vp = value(p);
        let l = s.last() as nat;
        assert(t.last() == s.last());
        assert(pow256(s.len()) == 256 * q);
        assert(value(s) == vp * 256 + l);
        assert(value(t) == (x * q + vp) * 256 + l);
        assert((x * q + vp) * 256 + l == x * (256 * q) + (vp * 256 + l)) by (nonlinear_arith);
        assert(x * pow256(s.len()) == x * (256 * q));
    } else {
        assert(t.drop_last() =~= Seq::<u8>::empty());
        assert(value(Seq::<u8>::empty()) == 0);
        assert(value(t) == d as nat);
        assert(pow256(0) == 1);
    }
}

pub proof fn lemma_low_part_step(s: Seq<u8>, i: nat)
    ensures
        value(low_part(s, i + 1)) == digit(s, i as int) as nat * pow256(i) + value(low_part(s, i)),
        low_part(s, i).len() == if i < s.len() {
            i
        } else {
            s.len()
        },
{
    if i < s.len() {
        assert(low_part(s, i + 1) =~= seq![digit(s, i as int)] + low_part(s, i));
        lemma_value_prepend(digit(s, i as int), low_part(s, i));
    }
}

pub proof fn lemma_low_part_zero(s: Seq<u8>)
    ensures
        low_part(s, 0) == Seq::<u8>::empty(),
{
    assert(low_part(s, 0) =~= Seq::<u8>::empty());
}

/// The exact sum has the value of the two operands together.
pub proof fn lemma_add_seq(a: Seq<u8>, b: Seq<u8>)
    ensures
        value(add_seq(a, b)) == value(a) + value(b),
        add_seq(a, b).len() == sum_len(a, b),
        sum_len(a, b) >= max_len(a, b),
{
    let m = max_len(a, b);
    let v = value(a) + value(b);
    lemma_value_bound(a);
    lemma_value_bound(b);
    lemma_pow_monotone(a.len(), m);
    lemma_pow_monotone(b.len(), m);
    lemma_from_value(v, sum_len(a, b));
    if v >= pow256(m) {
        assert(pow256(m + 1) == 256 * pow256(m));
    }
    vstd::arithmetic::div_mod::lemma_small_mod(v, pow256(sum_len(a, b)));
}

/// Keeping the last `w` bytes keeps the value modulo `256^w`.
pub proof fn lemma_truncate_value(s: Seq<u8>, w: nat)
    ensures
        value(truncate(s, w)) == value(s) % pow256(w),
        truncate(s, w).len() == if s.len() > w {
            w
        } else {
            s.len()
        },
    decreases s.len(),
{
    lemma_pow256_positive(w);
    if s.len() <= w {
        lemma_value_bound(s);
        lemma_pow_monotone(s.len(), w);
        vstd::arithmetic::div_mod::lemma_small_mod(value(s), pow256(w));
    } else if w == 0 {
        assert(truncate(s, w) =~= Seq::<u8>::empty());
        assert(value(Seq::<u8>::empty()) == 0);
    } else {
        let p = s.drop_last();
        let w1 = (w - 1) as nat;
        lemma_truncate_value(p, w1);
        let t = truncate(s, w);
        assert(t.drop_last() =~= truncate(p, w1));
        assert(t.last() == s.last());
        let q = pow256(w1);
        lemma_pow256_positive(w1);
        let v = value(s);
        assert(v / 256 == value(p));
        assert(v % 256 == s.last() as nat);
        assert(v % (256 * q) == ((v / 256) % q) * 256 + v % 256) by {
            vstd::arithmetic::div_mod::lemma_breakdown(v as int, 256, q as int);
        }
    }
}

pub proof fn lemma_pow_monotone(i: nat, j: nat)
    requires
        i <= j,
    ensures
        pow256(i) <= pow256(j),
    decreases j - i,
{
    if i < j {
        lemma_pow_monotone(i, (j - 1) as nat);
        lemma_pow256_positive((j - 1) as nat);
    }
}

} // verus!
