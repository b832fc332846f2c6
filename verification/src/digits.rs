//! Sequences of decimal digits and the numbers they write.

use vstd::prelude::*;

verus! {

/// Ten to the power `n`.
pub open spec fn pow10(n: nat) -> nat
    decreases n,
{
    if n == 0 {
        1
    } else {
        10 * pow10((n - 1) as nat)
    }
}

/// The number that a sequence of decimal digits writes, most significant digit first.
pub open spec fn digits_value(digits: Seq<u8>) -> nat
    decreases digits.len(),
{
    if digits.len() == 0 {
        0
    } else {
        digits_value(digits.drop_last()) * 10 + digits.last() as nat
    }
}

/// Every element is a decimal digit.
pub open spec fn all_digits(digits: Seq<u8>) -> bool {
    forall|i: int| 0 <= i < digits.len() ==> #[trigger] digits[i] < 10
}

/// A power of ten is not zero.
pub proof fn lemma_pow10_positive(n: nat)
    ensures
        pow10(n) > 0,
    decreases n,
{
    if n > 0 {
        lemma_pow10_positive((n - 1) as nat);
    }
}

/// Ten to a sum is the product of the powers.
pub proof fn lemma_pow10_adds(a: nat, b: nat)
    ensures
        pow10(a + b) == pow10(a) * pow10(b),
    decreases a,
{
    if a == 0 {
        assert(pow10(0) == 1);
        assert(1 * pow10(b) == pow10(b));
    } else {
        lemma_pow10_adds((a - 1) as nat, b);
        let p = pow10((a - 1) as nat);
        let q = pow10(b);
        assert(pow10(a + b) == 10 * pow10((a + b - 1) as nat));
        assert((a - 1 + b) as nat == (a + b - 1) as nat);
        assert(10 * (p * q) == (10 * p) * q) by (nonlinear_arith);
    }
}

/// Appending digits shifts what stood before and adds what came.
pub proof fn lemma_digits_value_concat(a: Seq<u8>, b: Seq<u8>)
    ensures
        digits_value(a + b) == digits_value(a) * pow10(b.len()) + digits_value(b),
    decreases b.len(),
{
    let va = digits_value(a);
    if b.len() == 0 {
        assert(a + b =~= a);
        assert(va * 1 == va) by (nonlinear_arith);
    } else {
        let b0 = b.drop_last();
        lemma_digits_value_concat(a, b0);
        assert((a + b).drop_last() =~= a + b0);
        assert((a + b).last() == b.last());
        let p = pow10(b0.len());
        let vb0 = digits_value(b0);
        let d = b.last() as nat;
        assert(pow10(b.len()) == 10 * p);
        assert(digits_value(a + b) == digits_value(a + b0) * 10 + d);
        assert(digits_value(b) == vb0 * 10 + d);
        assert((va * p + vb0) * 10 + d == va * (10 * p) + (vb0 * 10 + d)) by (nonlinear_arith);
    }
}

/// A number of `n` digits is below ten to the `n`.
pub proof fn lemma_digits_value_bound(digits: Seq<u8>)
    requires
        all_digits(digits),
    ensures
        digits_value(digits) < pow10(digits.len()),
    decreases digits.len(),
{
    if digits.len() > 0 {
        lemma_digits_value_bound(digits.drop_last());
        assert(digits.last() < 10);
    }
}

/// A single digit writes itself.
pub proof fn lemma_single_digit(d: u8)
    ensures
        digits_value(seq![d]) == d as nat,
{
    let one = seq![d];
    assert(one.drop_last() =~= Seq::<u8>::empty());
    assert(digits_value(one.drop_last()) == 0);
    assert(one.last() == d);
}

/// Of two numbers of equal length, the one with the smaller digit at the
/// first place where they differ is the smaller.
pub proof fn lemma_first_difference_decides(a: Seq<u8>, b: Seq<u8>, i: int)
    requires
        a.len() == b.len(),
        all_digits(a),
        all_digits(b),
        0 <= i < a.len(),
        a.take(i) == b.take(i),
        a[i] < b[i],
    ensures
        digits_value(a) < digits_value(b),
    decreases a.len(),
{
    let a0 = a.drop_last();
    let b0 = b.drop_last();
    assert(a.last() < 10);
    assert(b.last() < 10);
    if i == a.len() - 1 {
        assert(a0 =~= a.take(i));
        assert(b0 =~= b.take(i));
    } else {
        assert(a0.take(i) =~= a.take(i));
        assert(b0.take(i) =~= b.take(i));
        assert(a0[i] == a[i]);
        assert(b0[i] == b[i]);
        lemma_first_difference_decides(a0, b0, i);
    }
}

/// A number whose last digit is not zero is not zero.
pub proof fn lemma_last_nonzero_positive(digits: Seq<u8>)
    requires
        digits.len() > 0,
        0 < digits.last() < 10,
    ensures
        digits_value(digits) > 0,
        digits_value(digits) % 10 == digits.last(),
{
}

/// A number of `n` digits that does not start with zero is at least ten to
/// the `n - 1`.
pub proof fn lemma_first_nonzero_bound(digits: Seq<u8>)
    requires
        digits.len() > 0,
        digits[0] != 0,
    ensures
        digits_value(digits) >= pow10((digits.len() - 1) as nat),
{
    let head = seq![digits[0]];
    let rest = digits.drop_first();
    assert(digits =~= head + rest);
    lemma_digits_value_concat(head, rest);
    lemma_single_digit(digits[0]);
    let p = pow10(rest.len());
    lemma_pow10_positive(rest.len());
    assert(digits[0] as nat * p >= p) by (nonlinear_arith)
        requires
            digits[0] >= 1,
            p > 0,
    ;
}

/// The powers of ten do not fall.
pub proof fn lemma_pow10_monotonic(a: nat, b: nat)
    requires
        a <= b,
    ensures
        pow10(a) <= pow10(b),
    decreases b,
{
    if a < b {
        lemma_pow10_monotonic(a, (b - 1) as nat);
    }
}

/// Of two numbers without leading zeros the shorter is the smaller.
pub proof fn lemma_shorter_is_smaller(a: Seq<u8>, b: Seq<u8>)
    requires
        all_digits(a),
        a.len() < b.len(),
        b[0] != 0,
    ensures
        digits_value(a) < digits_value(b),
{
    lemma_digits_value_bound(a);
    lemma_first_nonzero_bound(b);
    lemma_pow10_monotonic(a.len(), (b.len() - 1) as nat);
}

/// `n` zeros.
pub open spec fn zeros(n: nat) -> Seq<u8> {
    Seq::new(n, |i: int| 0u8)
}

/// Zeros write zero.
pub proof fn lemma_zeros_value(n: nat)
    ensures
        digits_value(zeros(n)) == 0,
    decreases n,
{
    if n > 0 {
        lemma_zeros_value((n - 1) as nat);
        assert(zeros(n).drop_last() =~= zeros((n - 1) as nat));
    }
}

/// Of two fractions, the one with the smaller digit at the first place
/// where they differ is the smaller.
pub proof fn lemma_fraction_first_difference(a: Seq<u8>, b: Seq<u8>, k: int)
    requires
        all_digits(a),
        all_digits(b),
        0 <= k < a.len(),
        k < b.len(),
        a.take(k) == b.take(k),
        a[k] < b[k],
    ensures
        digits_value(a) * pow10(b.len()) < digits_value(b) * pow10(a.len()),
{
    let pa = a + zeros(b.len());
    let pb = b + zeros(a.len());
    lemma_digits_value_concat(a, zeros(b.len()));
    lemma_digits_value_concat(b, zeros(a.len()));
    lemma_zeros_value(a.len());
    lemma_zeros_value(b.len());
    assert(pa.take(k) =~= a.take(k));
    assert(pb.take(k) =~= b.take(k));
    assert(all_digits(pa));
    assert(all_digits(pb));
    lemma_first_difference_decides(pa, pb, k);
}

/// A fraction that continues another with digits that do not end in zero is
/// the larger.
pub proof fn lemma_fraction_prefix(a: Seq<u8>, b: Seq<u8>)
    requires
        all_digits(b),
        a.len() < b.len(),
        a == b.take(a.len() as int),
        b.last() != 0,
    ensures
        digits_value(a) * pow10(b.len()) < digits_value(b) * pow10(a.len()),
{
    let rest = b.skip(a.len() as int);
    assert(b =~= a + rest);
    lemma_digits_value_concat(a, rest);
    assert(rest.last() == b.last());
    lemma_last_nonzero_positive(rest);
    lemma_pow10_adds(a.len(), rest.len());
    lemma_pow10_positive(a.len());
    let va = digits_value(a);
    let vr = digits_value(rest);
    let qa = pow10(a.len());
    let qr = pow10(rest.len());
    assert(va * (qa * qr) < (va * qr + vr) * qa) by (nonlinear_arith)
        requires
            vr > 0,
            qa > 0,
    ;
}

/// One more digit at the end: ten times what stood there, and the digit.
pub proof fn lemma_digits_value_push(digits: Seq<u8>, d: u8)
    ensures
        digits_value(digits.push(d)) == digits_value(digits) * 10 + d as nat,
{
    assert(digits.push(d).drop_last() =~= digits);
}

} // verus!
