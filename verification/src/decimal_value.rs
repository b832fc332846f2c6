//! The mathematical value of a decimal, and the order of such values.

use crate::digits::{lemma_pow10_adds, lemma_pow10_positive, pow10};
use vstd::prelude::*;

verus! {

/// The mathematical value of a decimal: `unscaled / 10^scale`, negated where
/// `negative` is set.
pub struct DecimalValue {
    pub negative: bool,
    pub unscaled: nat,
    pub scale: nat,
}

impl DecimalValue {
    /// The numerator with its sign.
    pub open spec fn signed(self) -> int {
        if self.negative {
            -(self.unscaled as int)
        } else {
            self.unscaled as int
        }
    }

    /// Numeric order: `self < other`.
    pub open spec fn lt(self, other: DecimalValue) -> bool {
        self.signed() * pow10(other.scale) < other.signed() * pow10(self.scale)
    }

    /// The two denote the same number.
    pub open spec fn same_number(self, other: DecimalValue) -> bool {
        self.signed() * pow10(other.scale) == other.signed() * pow10(self.scale)
    }

    /// The one representation chosen for each number: no trailing zero after
    /// the point, and no negative zero.
    pub open spec fn is_canonical(self) -> bool {
        &&& self.scale > 0 ==> self.unscaled % 10 != 0
        &&& self.unscaled == 0 ==> !self.negative
    }

    /// The number zero.
    pub open spec fn zero() -> DecimalValue {
        DecimalValue { negative: false, unscaled: 0, scale: 0 }
    }
}

/// The canonical representation of `unscaled / 10^scale` with the given sign.
pub open spec fn normalized(negative: bool, unscaled: nat, scale: nat) -> DecimalValue
    decreases scale,
{
    if scale > 0 && unscaled % 10 == 0 {
        normalized(negative, unscaled / 10, (scale - 1) as nat)
    } else {
        DecimalValue { negative: negative && unscaled != 0, unscaled, scale }
    }
}

proof fn lemma_cross_order_transitive(a: int, b: int, c: int, pa: int, pb: int, pc: int)
    by (nonlinear_arith)
    requires
        pa > 0,
        pb > 0,
        pc > 0,
        a * pb < b * pa,
        b * pc <= c * pb,
    ensures
        a * pc < c * pa,
{
    assert(a * pb * pc < b * pa * pc);
    assert(b * pc * pa <= c * pb * pa);
    assert((a * pc) * pb < (c * pa) * pb);
}

proof fn lemma_cross_order_transitive_right(a: int, b: int, c: int, pa: int, pb: int, pc: int)
    by (nonlinear_arith)
    requires
        pa > 0,
        pb > 0,
        pc > 0,
        a * pb <= b * pa,
        b * pc < c * pb,
    ensures
        a * pc < c * pa,
{
    assert(a * pb * pc <= b * pa * pc);
    assert(b * pc * pa < c * pb * pa);
    assert((a * pc) * pb < (c * pa) * pb);
}

proof fn lemma_cross_equal_transitive(a: int, b: int, c: int, pa: int, pb: int, pc: int)
    by (nonlinear_arith)
    requires
        pa > 0,
        pb > 0,
        pc > 0,
        a * pb == b * pa,
        b * pc == c * pb,
    ensures
        a * pc == c * pa,
{
    assert(a * pb * pc == b * pa * pc);
    assert(b * pc * pa == c * pb * pa);
    assert((a * pc) * pb == (c * pa) * pb);
}

/// The order on decimals is transitive.
pub proof fn lemma_lt_transitive(a: DecimalValue, b: DecimalValue, c: DecimalValue)
    requires
        a.lt(b),
        b.lt(c) || b.same_number(c),
    ensures
        a.lt(c),
{
    lemma_pow10_positive(a.scale);
    lemma_pow10_positive(b.scale);
    lemma_pow10_positive(c.scale);
    lemma_cross_order_transitive(
        a.signed(),
        b.signed(),
        c.signed(),
        pow10(a.scale) as int,
        pow10(b.scale) as int,
        pow10(c.scale) as int,
    );
}

/// A number equal to one below `c` is below `c`.
pub proof fn lemma_same_then_lt(a: DecimalValue, b: DecimalValue, c: DecimalValue)
    requires
        a.same_number(b),
        b.lt(c),
    ensures
        a.lt(c),
{
    lemma_pow10_positive(a.scale);
    lemma_pow10_positive(b.scale);
    lemma_pow10_positive(c.scale);
    lemma_cross_order_transitive_right(
        a.signed(),
        b.signed(),
        c.signed(),
        pow10(a.scale) as int,
        pow10(b.scale) as int,
        pow10(c.scale) as int,
    );
}

/// Of two decimals exactly one is the smaller, or they are the same number.
pub proof fn lemma_lt_trichotomy(a: DecimalValue, b: DecimalValue)
    ensures
        a.lt(b) || b.lt(a) || a.same_number(b),
        !(a.lt(b) && b.lt(a)),
        !(a.lt(b) && a.same_number(b)),
        !(b.lt(a) && a.same_number(b)),
        a.same_number(b) == b.same_number(a),
{
}

proof fn lemma_mul_cancel(x: int, y: int, p: int)
    by (nonlinear_arith)
    requires
        p > 0,
        x * p == y * p,
    ensures
        x == y,
{
}

proof fn lemma_multiple_of_ten(u: int, v: int, q: int)
    by (nonlinear_arith)
    requires
        u == v * (10 * q),
        u >= 0,
    ensures
        u % 10 == 0,
{
    assert(u == 10 * (v * q));
}

/// Two canonical decimals that denote the same number are the same decimal.
pub proof fn lemma_canonical_unique(a: DecimalValue, b: DecimalValue)
    requires
        a.is_canonical(),
        b.is_canonical(),
        a.same_number(b),
    ensures
        a == b,
{
    lemma_pow10_positive(a.scale);
    lemma_pow10_positive(b.scale);
    let pa = pow10(a.scale) as int;
    let pb = pow10(b.scale) as int;
    if a.scale > b.scale {
        let k = (a.scale - b.scale) as nat;
        lemma_pow10_adds(k, b.scale);
        lemma_pow10_positive((k - 1) as nat);
        let q = pow10((k - 1) as nat) as int;
        assert(pow10(k) == 10 * q);
        assert(pa == (10 * q) * pb);
        assert(b.signed() * ((10 * q) * pb) == (b.signed() * (10 * q)) * pb) by (nonlinear_arith);
        lemma_mul_cancel(a.signed(), b.signed() * (10 * q), pb);
        if a.negative {
            assert(a.unscaled as int == (-b.signed()) * (10 * q)) by (nonlinear_arith)
                requires
                    -(a.unscaled as int) == b.signed() * (10 * q),
            ;
            lemma_multiple_of_ten(a.unscaled as int, -b.signed(), q);
        } else {
            lemma_multiple_of_ten(a.unscaled as int, b.signed(), q);
        }
        assert(false);
    } else if b.scale > a.scale {
        let k = (b.scale - a.scale) as nat;
        lemma_pow10_adds(k, a.scale);
        lemma_pow10_positive((k - 1) as nat);
        let q = pow10((k - 1) as nat) as int;
        assert(pow10(k) == 10 * q);
        assert(pb == (10 * q) * pa);
        assert(a.signed() * ((10 * q) * pa) == (a.signed() * (10 * q)) * pa) by (nonlinear_arith);
        lemma_mul_cancel(b.signed(), a.signed() * (10 * q), pa);
        if b.negative {
            assert(b.unscaled as int == (-a.signed()) * (10 * q)) by (nonlinear_arith)
                requires
                    -(b.unscaled as int) == a.signed() * (10 * q),
            ;
            lemma_multiple_of_ten(b.unscaled as int, -a.signed(), q);
        } else {
            lemma_multiple_of_ten(b.unscaled as int, a.signed(), q);
        }
        assert(false);
    } else {
        lemma_mul_cancel(a.signed(), b.signed(), pa);
    }
}

/// Normalizing gives the canonical decimal of the same number.
pub proof fn lemma_normalized(negative: bool, unscaled: nat, scale: nat)
    ensures
        normalized(negative, unscaled, scale).is_canonical(),
        normalized(negative, unscaled, scale).same_number(
            DecimalValue { negative, unscaled, scale },
        ),
    decreases scale,
{
    let given = DecimalValue { negative, unscaled, scale };
    if scale > 0 && unscaled % 10 == 0 {
        let smaller = DecimalValue { negative, unscaled: unscaled / 10, scale: (scale - 1) as nat };
        lemma_normalized(negative, unscaled / 10, (scale - 1) as nat);
        let n = normalized(negative, unscaled, scale);
        lemma_pow10_positive(n.scale);
        lemma_pow10_positive(scale);
        lemma_pow10_positive((scale - 1) as nat);
        let p = pow10((scale - 1) as nat) as int;
        assert(pow10(scale) == 10 * p);
        assert(unscaled == 10 * (unscaled / 10));
        assert(smaller.signed() * (10 * p) == given.signed() * p) by (nonlinear_arith)
            requires
                given.signed() == 10 * smaller.signed(),
        ;
        assert(smaller.same_number(given));
        lemma_cross_equal_transitive(
            n.signed(),
            smaller.signed(),
            given.signed(),
            pow10(n.scale) as int,
            p,
            pow10(scale) as int,
        );
    } else {
    }
}

} // verus!
