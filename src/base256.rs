//! The `Base256` value type and its arithmetic.
use crate::model::{
    add_seq, borrow_into, digit, lead, lemma_from_value_of_value, lemma_low_part_step,
    lemma_low_part_zero, lemma_value_bound, lemma_value_prepend, lex_lt, low_part, max_len,
    mul_seq, pow256, sub_digit, sub_seq, value, wrapped_add_seq, wrapped_mul_seq, xor_seq,
};
use itertools::{EitherOrBoth, Itertools};
use vstd::prelude::*;

verus! {

/// An unsigned integer held as big-endian base-256 digits, most significant byte first.
///
/// Leading zeros are significant: `[0, 1]` and `[1]` are different values.
#[derive(PartialEq, Eq, PartialOrd, Ord, Debug, Clone, Hash)]
pub struct Base256 {
    inner: Vec<u8>,
}

/// Failure of a checked operation on `Base256` values.
#[derive(PartialEq, Eq, Debug, Clone, Copy, Structural)]
pub enum Base256Error {
    /// The subtrahend comes after the minuend in byte order.
    Underflow,
}

impl View for Base256 {
    type V = Seq<u8>;

    closed spec fn view(&self) -> Seq<u8> {
        self.inner@
    }
}

/// Relies on itertools' `zip_longest` followed by `EitherOrBoth::or_default`: the bytes of
/// `a` and `b` are paired index by index from the front, and past the end of the shorter
/// one its side of the pair is `u8::default()`, which is 0.
#[verifier::external_body]
fn zip_longest_bytes(a: &Vec<u8>, b: &Vec<u8>) -> (r: Vec<(u8, u8)>)
    ensures
        r@.len() == max_len(a@, b@),
        forall|i: int| 0 <= i < r@.len() ==> #[trigger] r@[i] == (lead(a@, i), lead(b@, i)),
{
    a.iter().copied().zip_longest(b.iter().copied()).map(EitherOrBoth::or_default).collect()
}

/// The bytes of `v` in the opposite order.
fn reversed(v: &Vec<u8>) -> (r: Vec<u8>)
    ensures
        r@.len() == v@.len(),
        forall|i: int| 0 <= i < v@.len() ==> #[trigger] r@[i] == v@[v@.len() - 1 - i],
{
    let mut r: Vec<u8> = Vec::with_capacity(v.len());
    let mut i: usize = v.len();
    while i > 0
        invariant
            i <= v@.len(),
            r@.len() == v@.len() - i,
            forall|k: int| 0 <= k < r@.len() ==> #[trigger] r@[k] == v@[v@.len() - 1 - k],
        decreases i,
    {
        i = i - 1;
        r.push(v[i]);
    }
    r
}

/// Pairs of digits of `a` and `b` from the least significant up, 0 past either's end.
fn digit_pairs(a: &Vec<u8>, b: &Vec<u8>) -> (r: Vec<(u8, u8)>)
    ensures
        r@.len() == max_len(a@, b@),
        forall|i: int| 0 <= i < r@.len() ==> #[trigger] r@[i] == (digit(a@, i), digit(b@, i)),
{
    let rev_a = reversed(a);
    let rev_b = reversed(b);
    let r = zip_longest_bytes(&rev_a, &rev_b);
    assert forall|i: int| 0 <= i < r@.len() implies #[trigger] r@[i] == (digit(a@, i), digit(b@, i)) by {
        assert(lead(rev_a@, i) == digit(a@, i));
        assert(lead(rev_b@, i) == digit(b@, i));
    }
    r
}

/// Adds two bytes and an incoming carry: the low byte of the total and the carry out.
pub fn add_scalar_overflow(a: u8, b: u8, overflow: u8) -> (r: (u8, u8))
    ensures
        r.0 as int + 256 * r.1 as int == a as int + b as int + overflow as int,
{
    let total: u16 = a as u16 + b as u16 + overflow as u16;
    ((total % 256) as u8, (total / 256) as u8)
}

/// Subtracts byte `b` and an incoming borrow from byte `a`: the result byte and the borrow out.
pub fn sub_scalar_underflow(a: u8, b: u8, underflow: u8) -> (r: (u8, u8))
    ensures
        r == sub_digit(a, b, underflow),
{
    if a < b {
        ((a as u16 + 255 - b as u16) as u8, 1)
    } else if a - b < underflow {
        (((a as u16 + 255 - b as u16) % 256) as u8, 1)
    } else {
        (a - b - underflow, 0)
    }
}

/// Whether `a` comes strictly before `b` in lexicographic byte order.
fn lex_less(a: &Vec<u8>, b: &Vec<u8>) -> (r: bool)
    ensures
        r == lex_lt(a@, b@),
{
    let mut i: usize = 0;
    while i < a.len() && i < b.len() && a[i] == b[i]
        invariant
            i <= a@.len(),
            i <= b@.len(),
            forall|k: int| 0 <= k < i ==> a@[k] == b@[k],
        decreases a@.len() - i,
    {
        i = i + 1;
    }
    let r = if i < a.len() && i < b.len() {
        a[i] < b[i]
    } else {
        i == a.len() && i < b.len()
    };
    proof {
        assert(a@.subrange(0, i as int) =~= b@.subrange(0, i as int));
        if !r {
            if lex_lt(a@, b@) {
                let k = choose|k: int|
                    #![trigger a@.subrange(0, k)]
                    0 <= k <= a@.len() && k <= b@.len() && a@.subrange(0, k) == b@.subrange(0, k)
                        && (if k == a@.len() {
                        k < b@.len()
                    } else {
                        k < b@.len() && a@[k] < b@[k]
                    });
                if k > i {
                    assert(a@.subrange(0, k)[i as int] == b@.subrange(0, k)[i as int]);
                }
            }
        }
    }
    r
}

impl Base256 {
    /// Wraps `inner` as a value; the bytes are kept as given.
    pub fn new(inner: Vec<u8>) -> (r: Self)
        ensures
            r@ == inner@,
    {
        Base256 { inner }
    }

    /// The zero-length value.
    pub fn empty() -> (r: Self)
        ensures
            r@ == Seq::<u8>::empty(),
    {
        Base256 { inner: Vec::new() }
    }

    /// Gives back the bytes of the value.
    pub fn into_bytes(self) -> (r: Vec<u8>)
        ensures
            r@ == self@,
    {
        self.inner
    }

    /// The bytes of the value.
    pub fn as_bytes(&self) -> (r: &Vec<u8>)
        ensures
            r@ == self@,
    {
        &self.inner
    }

    /// Exact sum, aligned at the least significant byte; one byte longer on a final carry.
    pub fn plus(self, rhs: Base256) -> (r: Base256)
        ensures
            r@ == add_seq(self@, rhs@),
            value(r@) == value(self@) + value(rhs@),
    {
        let ghost a = self@;
        let ghost b = rhs@;
        let pairs = digit_pairs(&self.inner, &rhs.inner);
        let mut carry: u8 = 0;
        let mut res: Vec<u8> = Vec::with_capacity(pairs.len());
        let mut i: usize = 0;
        proof {
            lemma_low_part_zero(a);
            lemma_low_part_zero(b);
            assert(value(Seq::<u8>::empty()) == 0);
        }
        while i < pairs.len()
            invariant
                pairs@.len() == max_len(a, b),
                forall|k: int| 0 <= k < pairs@.len() ==> #[trigger] pairs@[k] == (digit(a, k), digit(b, k)),
                i <= pairs@.len(),
                res@.len() == i,
                carry <= 1,
                value(res@) + carry * pow256(i as nat) == value(low_part(a, i as nat)) + value(
                    low_part(b, i as nat),
                ),
            decreases pairs.len() - i,
        {
            let (x, y) = pairs[i];
            let (d, c) = add_scalar_overflow(x, y, carry);
            proof {
                let p = pow256(i as nat);
                lemma_low_part_step(a, i as nat);
                lemma_low_part_step(b, i as nat);
                lemma_value_prepend(d, res@);
                assert(pow256((i + 1) as nat) == 256 * p);
                let vr = value(res@);
                assert(d as int * p + vr + c as int * (256 * p) == x as int * p + y as int * p + (vr
                    + carry as int * p)) by (nonlinear_arith)
                    requires
                        d as int + 256 * c as int == x as int + y as int + carry as int,
                ;
            }
            let ghost before = res@;
            res.insert(0, d);
            proof {
                assert(res@ =~= seq![d] + before);
            }
            carry = c;
            i = i + 1;
        }
        proof {
            let m = max_len(a, b);
            assert(low_part(a, m) == a);
            assert(low_part(b, m) == b);
            lemma_value_bound(res@);
        }
        if carry > 0 {
            proof {
                lemma_value_prepend(carry, res@);
            }
            let ghost before = res@;
            res.insert(0, carry);
            proof {
                assert(res@ =~= seq![carry] + before);
            }
        }
        proof {
            lemma_from_value_of_value(res@);
        }
        Base256 { inner: res }
    }
    /// Subtraction aligned at the least significant byte, with a borrow carried upwards.
    /// Fails with `Underflow` exactly when `self` comes before `rhs` in byte order.
    pub fn subtract(self, rhs: Base256) -> (r: Result<Base256, Base256Error>)
        ensures
            match r {
                Ok(v) => !lex_lt(self@, rhs@) && v@ == sub_seq(self@, rhs@),
                Err(e) => lex_lt(self@, rhs@) && e == Base256Error::Underflow,
            },
    {
        if lex_less(&self.inner, &rhs.inner) {
            return Err(Base256Error::Underflow);
        }
        let ghost a = self@;
        let ghost b = rhs@;
        let pairs = digit_pairs(&self.inner, &rhs.inner);
        let mut borrow: u8 = 0;
        let mut res: Vec<u8> = Vec::with_capacity(pairs.len());
        let mut i: usize = 0;
        while i < pairs.len()
            invariant
                pairs@.len() == max_len(a, b),
                forall|k: int| 0 <= k < pairs@.len() ==> #[trigger] pairs@[k] == (digit(a, k), digit(b, k)),
                i <= pairs@.len(),
                res@.len() == i,
                borrow == borrow_into(a, b, i as nat),
                forall|j: int|
                    0 <= j < i ==> #[trigger] res@[j] == sub_digit(
                        digit(a, i - 1 - j),
                        digit(b, i - 1 - j),
                        borrow_into(a, b, (i - 1 - j) as nat),
                    ).0,
            decreases pairs.len() - i,
        {
            let (x, y) = pairs[i];
            let (d, next) = sub_scalar_underflow(x, y, borrow);
            let ghost before = res@;
            res.insert(0, d);
            borrow = next;
            i = i + 1;
            assert forall|j: int| 0 <= j < i implies #[trigger] res@[j] == sub_digit(
                digit(a, i - 1 - j),
                digit(b, i - 1 - j),
                borrow_into(a, b, (i - 1 - j) as nat),
            ).0 by {
                if j > 0 {
                    assert(res@[j] == before[j - 1]);
                }
            }
        }
        proof {
            assert(res@ =~= sub_seq(a, b));
        }
        Ok(Base256 { inner: res })
    }

    /// Byte-wise exclusive or aligned at the front; the longer operand's extra bytes are kept.
    pub fn xor(self, rhs: Base256) -> (r: Base256)
        ensures
            r@ == xor_seq(self@, rhs@),
    {
        let pairs = zip_longest_bytes(&self.inner, &rhs.inner);
        let mut res: Vec<u8> = Vec::with_capacity(pairs.len());
        let mut i: usize = 0;
        while i < pairs.len()
            invariant
                pairs@.len() == max_len(self@, rhs@),
                forall|k: int| 0 <= k < pairs@.len() ==> #[trigger] pairs@[k] == (lead(self@, k), lead(rhs@, k)),
                i <= pairs@.len(),
                res@.len() == i,
                forall|k: int| 0 <= k < i ==> #[trigger] res@[k] == lead(self@, k) ^ lead(rhs@, k),
            decreases pairs.len() - i,
        {
            let (x, y) = pairs[i];
            res.push(x ^ y);
            i = i + 1;
        }
        proof {
            assert(res@ =~= xor_seq(self@, rhs@));
        }
        Base256 { inner: res }
    }

    /// Exact sum cut down to its last `byte_length` bytes when it is longer than that.
    pub fn wrapped_add(self, other: Self, byte_length: usize) -> (r: Self)
        ensures
            r@ == wrapped_add_seq(self@, other@, byte_length as nat),
    {
        let sum = self.plus(other);
        let n = sum.inner.len();
        if n > byte_length {
            let start = n - byte_length;
            let mut res: Vec<u8> = Vec::with_capacity(byte_length);
            let mut i: usize = start;
            while i < n
                invariant
                    n == sum@.len(),
                    start <= i <= n,
                    res@ == sum@.subrange(start as int, i as int),
                decreases n - i,
            {
                res.push(sum.inner[i]);
                i = i + 1;
                proof {
                    assert(res@ =~= sum@.subrange(start as int, i as int));
                }
            }
            Base256 { inner: res }
        } else {
            sum
        }
    }

    /// `[0]` with `self` added to it `value` times: the exact product, never truncated.
    pub fn scalar_multiply(self, value: u8) -> (r: Self)
        ensures
            r@ == mul_seq(self@, value as nat),
            crate::model::value(r@) == value as nat * crate::model::value(self@),
    {
        let mut zero: Vec<u8> = Vec::new();
        zero.push(0);
        let mut res = Base256::new(zero);
        let mut k: u8 = 0;
        proof {
            assert(res@ =~= seq![0u8]);
            assert(crate::model::value(res@) == 0) by {
                assert(res@.drop_last() =~= Seq::<u8>::empty());
                assert(crate::model::value(Seq::<u8>::empty()) == 0);
            }
        }
        while k < value
            invariant
                k <= value,
                res@ == mul_seq(self@, k as nat),
                crate::model::value(res@) == k as nat * crate::model::value(self@),
            decreases value - k,
        {
            res = res.plus(Base256::new(self.inner.clone()));
            k = k + 1;
            proof {
                assert(k as nat * crate::model::value(self@) == (k - 1) as nat * crate::model::value(self@)
                    + crate::model::value(self@)) by (nonlinear_arith)
                    requires k >= 1;
            }
        }
        res
    }

    /// `[0]` with `self` added to it `value` times, each sum cut down to `byte_length` bytes.
    pub fn wrapped_scalar_multiply(self, value: u8, byte_length: usize) -> (r: Self)
        ensures
            r@ == wrapped_mul_seq(self@, value as nat, byte_length as nat),
    {
        let mut zero: Vec<u8> = Vec::new();
        zero.push(0);
        let mut res = Base256::new(zero);
        let mut k: u8 = 0;
        proof {
            assert(res@ =~= seq![0u8]);
        }
        while k < value
            invariant
                k <= value,
                res@ == wrapped_mul_seq(self@, k as nat, byte_length as nat),
            decreases value - k,
        {
            res = res.wrapped_add(Base256::new(self.inner.clone()), byte_length);
            k = k + 1;
        }
        res
    }
}

/// The result of `add` is given by its own `ensures` over the view; this spec is not relied on.
impl vstd::std_specs::ops::AddSpecImpl for Base256 {
    open spec fn obeys_add_spec() -> bool {
        false
    }

    open spec fn add_req(self, rhs: Base256) -> bool {
        true
    }

    closed spec fn add_spec(self, rhs: Base256) -> Base256 {
        self
    }
}

impl std::ops::Add for Base256 {
    type Output = Base256;

    fn add(self, rhs: Base256) -> (r: Base256)
        ensures
            r@ == add_seq(self@, rhs@),
    {
        self.plus(rhs)
    }
}

/// Subtraction through `-` is defined only when the minuend does not come first in byte order;
/// its result is given by the `ensures` of `sub`.
impl vstd::std_specs::ops::SubSpecImpl for Base256 {
    open spec fn obeys_sub_spec() -> bool {
        false
    }

    open spec fn sub_req(self, rhs: Base256) -> bool {
        !lex_lt(self@, rhs@)
    }

    closed spec fn sub_spec(self, rhs: Base256) -> Base256 {
        self
    }
}

impl std::ops::Sub for Base256 {
    type Output = Base256;

    fn sub(self, rhs: Base256) -> (r: Base256)
        ensures
            r@ == sub_seq(self@, rhs@),
    {
        match self.subtract(rhs) {
            Ok(v) => v,
            Err(_) => {
                // `sub_req` rules out an underflow here.
                proof {
                    assert(false);
                }
                Base256::empty()
            },
        }
    }
}

/// The result of `bitxor` is given by its own `ensures` over the view; this spec is not relied on.
impl vstd::std_specs::ops::BitXorSpecImpl for Base256 {
    open spec fn obeys_bitxor_spec() -> bool {
        false
    }

    open spec fn bitxor_req(self, rhs: Base256) -> bool {
        true
    }

    closed spec fn bitxor_spec(self, rhs: Base256) -> Base256 {
        self
    }
}

impl std::ops::BitXor for Base256 {
    type Output = Base256;

    fn bitxor(self, rhs: Base256) -> (r: Base256)
        ensures
            r@ == xor_seq(self@, rhs@),
    {
        self.xor(rhs)
    }
}

/// The result of `mul` is given by its own `ensures` over the view; this spec is not relied on.
impl vstd::std_specs::ops::MulSpecImpl<u8> for Base256 {
    open spec fn obeys_mul_spec() -> bool {
        false
    }

    open spec fn mul_req(self, rhs: u8) -> bool {
        true
    }

    closed spec fn mul_spec(self, rhs: u8) -> Base256 {
        self
    }
}

impl std::ops::Mul<u8> for Base256 {
    type Output = Base256;

    fn mul(self, rhs: u8) -> (r: Base256)
        ensures
            r@ == mul_seq(self@, rhs as nat),
    {
        self.scalar_multiply(rhs)
    }
}

impl From<Vec<u8>> for Base256 {
    fn from(buffer: Vec<u8>) -> (r: Base256)
        ensures
            r@ == buffer@,
    {
        Base256 { inner: buffer }
    }
}

impl vstd::std_specs::convert::FromSpecImpl<Vec<u8>> for Base256 {
    open spec fn obeys_from_spec() -> bool {
        true
    }

    closed spec fn from_spec(v: Vec<u8>) -> Base256 {
        Base256 { inner: v }
    }
}

impl From<Base256> for Vec<u8> {
    fn from(base256: Base256) -> (r: Vec<u8>)
        ensures
            r@ == base256@,
    {
        base256.inner
    }
}

impl vstd::std_specs::convert::FromSpecImpl<Base256> for Vec<u8> {
    open spec fn obeys_from_spec() -> bool {
        true
    }

    closed spec fn from_spec(v: Base256) -> Vec<u8> {
        v.inner
    }
}

impl std::ops::Deref for Base256 {
    type Target = Vec<u8>;

    fn deref(&self) -> (r: &Vec<u8>)
        ensures
            r@ == self@,
    {
        &self.inner
    }
}

} // verus!
