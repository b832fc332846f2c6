//! Exact decimal numbers of any length, read from text.

use crate::decimal_text::{
    all_digit_chars, chars_of, decimal_text_value, digit_char, digit_of, digits_of, field_value,
    fraction_text, has_sign, is_decimal_text, is_digit_char, is_plain_form,
    lemma_decimal_text_is_ascii, lemma_digits_of_chars, lemma_digits_of_concat,
    lemma_digits_of_push, lemma_point_at, point_at, unsigned_part, whole_text,
};
use crate::decimal_value::{lemma_lt_trichotomy, normalized, DecimalValue};
use crate::digits::{
    all_digits, digits_value, lemma_digits_value_bound, lemma_digits_value_concat,
    lemma_digits_value_push, lemma_first_difference_decides, lemma_first_nonzero_bound,
    lemma_fraction_first_difference, lemma_fraction_prefix, lemma_last_nonzero_positive,
    lemma_pow10_positive, lemma_shorter_is_smaller, lemma_single_digit, pow10,
};
use vstd::prelude::*;
use vstd::string::*;

verus! {

/// Where the whole parts differ, they decide the order of two magnitudes.
proof fn lemma_whole_part_decides(va: nat, xa: nat, pa: nat, vb: nat, xb: nat, pb: nat)
    by (nonlinear_arith)
    requires
        va < vb,
        xa < pa,
        pb > 0,
    ensures
        (va * pa + xa) * pb < (vb * pb + xb) * pa,
{
    assert((va * pa + xa) * pb < (va + 1) * pa * pb);
    assert((va + 1) * pa * pb <= vb * pa * pb);
    assert(vb * pa * pb <= (vb * pb + xb) * pa);
}

/// Where the whole parts agree, the fractions decide.
proof fn lemma_fraction_decides(v: nat, xa: nat, pa: nat, xb: nat, pb: nat)
    by (nonlinear_arith)
    requires
        xa * pb < xb * pa,
    ensures
        (v * pa + xa) * pb < (v * pb + xb) * pa,
{
}

/// How one value stands to another.
#[derive(Debug, Clone, Copy, PartialEq, Eq)]
pub enum Relation {
    Below,
    Equal,
    Above,
}

/// An exact decimal number.
///
/// The digits are kept as written, without leading zeros before the point
/// and without trailing zeros after it, so that each number has one
/// representation.
#[derive(Debug, PartialEq, Eq)]
pub struct Decimal {
    negative: bool,
    whole: Vec<u8>,
    fraction: Vec<u8>,
}

impl View for Decimal {
    type V = DecimalValue;

    closed spec fn view(&self) -> DecimalValue {
        DecimalValue {
            negative: self.negative,
            unscaled: digits_value(self.whole@ + self.fraction@),
            scale: self.fraction@.len(),
        }
    }
}

/// The digits of a magnitude are in canonical form.
spec fn canonical_digits(whole: Seq<u8>, fraction: Seq<u8>) -> bool {
    &&& all_digits(whole)
    &&& all_digits(fraction)
    &&& whole.len() > 0 ==> whole[0] != 0
    &&& fraction.len() > 0 ==> fraction.last() != 0
}

proof fn lemma_canonical_digits_nonzero(whole: Seq<u8>, fraction: Seq<u8>)
    requires
        canonical_digits(whole, fraction),
        whole.len() + fraction.len() > 0,
    ensures
        digits_value(whole + fraction) > 0,
{
    if fraction.len() > 0 {
        assert((whole + fraction).last() == fraction.last());
        lemma_last_nonzero_positive(whole + fraction);
    } else {
        assert(whole + fraction =~= whole);
        lemma_first_nonzero_bound(whole);
        lemma_pow10_positive((whole.len() - 1) as nat);
    }
}

/// `a / 10^|fa|` stands below `b / 10^|fb|`, as magnitudes.
spec fn magnitude_below(wa: Seq<u8>, fa: Seq<u8>, wb: Seq<u8>, fb: Seq<u8>) -> bool {
    digits_value(wa + fa) * pow10(fb.len()) < digits_value(wb + fb) * pow10(fa.len())
}

proof fn lemma_magnitude_by_whole(wa: Seq<u8>, fa: Seq<u8>, wb: Seq<u8>, fb: Seq<u8>)
    requires
        all_digits(fa),
        digits_value(wa) < digits_value(wb),
    ensures
        magnitude_below(wa, fa, wb, fb),
{
    lemma_digits_value_concat(wa, fa);
    lemma_digits_value_concat(wb, fb);
    lemma_digits_value_bound(fa);
    lemma_pow10_positive(fb.len());
    lemma_whole_part_decides(
        digits_value(wa),
        digits_value(fa),
        pow10(fa.len()),
        digits_value(wb),
        digits_value(fb),
        pow10(fb.len()),
    );
}

proof fn lemma_magnitude_by_fraction(w: Seq<u8>, fa: Seq<u8>, fb: Seq<u8>)
    requires
        digits_value(fa) * pow10(fb.len()) < digits_value(fb) * pow10(fa.len()),
    ensures
        magnitude_below(w, fa, w, fb),
{
    lemma_digits_value_concat(w, fa);
    lemma_digits_value_concat(w, fb);
    lemma_fraction_decides(
        digits_value(w),
        digits_value(fa),
        pow10(fa.len()),
        digits_value(fb),
        pow10(fb.len()),
    );
}

/// Compares two magnitudes in canonical form, digit by digit.
fn magnitude_relation(wa: &Vec<u8>, fa: &Vec<u8>, wb: &Vec<u8>, fb: &Vec<u8>) -> (r: Relation)
    requires
        canonical_digits(wa@, fa@),
        canonical_digits(wb@, fb@),
    ensures
        r == Relation::Below ==> magnitude_below(wa@, fa@, wb@, fb@),
        r == Relation::Above ==> magnitude_below(wb@, fb@, wa@, fa@),
        r == Relation::Equal ==> wa@ == wb@ && fa@ == fb@,
{
    if wa.len() < wb.len() {
        proof {
            lemma_shorter_is_smaller(wa@, wb@);
            lemma_magnitude_by_whole(wa@, fa@, wb@, fb@);
        }
        return Relation::Below;
    }
    if wb.len() < wa.len() {
        proof {
            lemma_shorter_is_smaller(wb@, wa@);
            lemma_magnitude_by_whole(wb@, fb@, wa@, fa@);
        }
        return Relation::Above;
    }
    let mut i: usize = 0;
    while i < wa.len()
        invariant
            i <= wa.len(),
            wa.len() == wb.len(),
            wa@.take(i as int) == wb@.take(i as int),
            canonical_digits(wa@, fa@),
            canonical_digits(wb@, fb@),
        decreases wa.len() - i,
    {
        if wa[i] < wb[i] {
            proof {
                lemma_first_difference_decides(wa@, wb@, i as int);
                lemma_magnitude_by_whole(wa@, fa@, wb@, fb@);
            }
            return Relation::Below;
        }
        if wb[i] < wa[i] {
            proof {
                lemma_first_difference_decides(wb@, wa@, i as int);
                lemma_magnitude_by_whole(wb@, fb@, wa@, fa@);
            }
            return Relation::Above;
        }
        assert(wa@.take(i + 1) =~= wa@.take(i as int).push(wa@[i as int]));
        assert(wb@.take(i + 1) =~= wb@.take(i as int).push(wb@[i as int]));
        i += 1;
    }
    assert(wa@ =~= wa@.take(i as int));
    assert(wb@ =~= wb@.take(i as int));
    let mut k: usize = 0;
    while k < fa.len() && k < fb.len()
        invariant
            k <= fa.len(),
            k <= fb.len(),
            wa@ == wb@,
            fa@.take(k as int) == fb@.take(k as int),
            canonical_digits(wa@, fa@),
            canonical_digits(wb@, fb@),
        decreases fa.len() - k,
    {
        if fa[k] < fb[k] {
            proof {
                lemma_fraction_first_difference(fa@, fb@, k as int);
                lemma_magnitude_by_fraction(wa@, fa@, fb@);
            }
            return Relation::Below;
        }
        if fb[k] < fa[k] {
            proof {
                lemma_fraction_first_difference(fb@, fa@, k as int);
                lemma_magnitude_by_fraction(wa@, fb@, fa@);
            }
            return Relation::Above;
        }
        assert(fa@.take(k + 1) =~= fa@.take(k as int).push(fa@[k as int]));
        assert(fb@.take(k + 1) =~= fb@.take(k as int).push(fb@[k as int]));
        k += 1;
    }
    if fa.len() < fb.len() {
        proof {
            assert(fa@ =~= fa@.take(k as int));
            lemma_fraction_prefix(fa@, fb@);
            lemma_magnitude_by_fraction(wa@, fa@, fb@);
        }
        Relation::Below
    } else if fb.len() < fa.len() {
        proof {
            assert(fb@ =~= fb@.take(k as int));
            lemma_fraction_prefix(fb@, fa@);
            lemma_magnitude_by_fraction(wa@, fb@, fa@);
        }
        Relation::Above
    } else {
        proof {
            assert(fa@ =~= fa@.take(k as int));
            assert(fb@ =~= fb@.take(k as int));
        }
        Relation::Equal
    }
}

proof fn lemma_sign_decides(na: int, pa: int, nb: int, pb: int)
    by (nonlinear_arith)
    requires
        na > 0,
        nb >= 0,
        pa > 0,
        pb > 0,
    ensures
        (-na) * pb < nb * pa,
{
}

proof fn lemma_negation_reverses(na: int, pa: int, nb: int, pb: int)
    by (nonlinear_arith)
    requires
        nb * pa < na * pb,
    ensures
        (-na) * pb < (-nb) * pa,
{
}

impl Decimal {
    #[verifier::type_invariant]
    spec fn well_formed(self) -> bool {
        &&& canonical_digits(self.whole@, self.fraction@)
        &&& self.negative ==> self.whole@.len() + self.fraction@.len() > 0
    }

    /// The number zero.
    pub fn zero() -> (r: Decimal)
        ensures
            r@ == DecimalValue::zero(),
    {
        let r = Decimal { negative: false, whole: Vec::new(), fraction: Vec::new() };
        assert(r.whole@ + r.fraction@ =~= Seq::<u8>::empty());
        r
    }

    /// Whether this is the number zero.
    pub fn is_zero(&self) -> (r: bool)
        ensures
            r == (self@ == DecimalValue::zero()),
            self@.is_canonical(),
    {
        proof {
            use_type_invariant(self);
            self.lemma_canonical();
        }
        let r = self.whole.len() == 0 && self.fraction.len() == 0;
        proof {
            if r {
                assert(self.whole@ + self.fraction@ =~= Seq::<u8>::empty());
            } else {
                lemma_canonical_digits_nonzero(self.whole@, self.fraction@);
            }
        }
        r
    }

    /// Whether this number is below zero.
    pub fn is_negative(&self) -> (r: bool)
        ensures
            r == self@.negative,
    {
        self.negative
    }

    proof fn lemma_canonical(self)
        requires
            self.well_formed(),
        ensures
            self@.is_canonical(),
    {
        if self.fraction@.len() > 0 {
            assert((self.whole@ + self.fraction@).last() == self.fraction@.last());
            lemma_last_nonzero_positive(self.whole@ + self.fraction@);
        }
        if self.whole@.len() + self.fraction@.len() > 0 {
            lemma_canonical_digits_nonzero(self.whole@, self.fraction@);
        }
    }

    /// How this number stands to `other` in numeric order.
    pub fn relation_to(&self, other: &Decimal) -> (r: Relation)
        ensures
            r == Relation::Below <==> self@.lt(other@),
            r == Relation::Above <==> other@.lt(self@),
            r == Relation::Equal <==> self@ == other@,
            self@.is_canonical(),
            other@.is_canonical(),
    {
        proof {
            use_type_invariant(self);
            use_type_invariant(other);
            self.lemma_canonical();
            other.lemma_canonical();
            lemma_lt_trichotomy(self@, other@);
            lemma_pow10_positive(self@.scale);
            lemma_pow10_positive(other@.scale);
            if self.whole@.len() + self.fraction@.len() > 0 {
                lemma_canonical_digits_nonzero(self.whole@, self.fraction@);
            }
            if other.whole@.len() + other.fraction@.len() > 0 {
                lemma_canonical_digits_nonzero(other.whole@, other.fraction@);
            }
        }
        let ghost na = self@.unscaled as int;
        let ghost nb = other@.unscaled as int;
        let ghost pa = pow10(self@.scale) as int;
        let ghost pb = pow10(other@.scale) as int;
        if self.negative && !other.negative {
            proof {
                lemma_sign_decides(na, pa, nb, pb);
            }
            return Relation::Below;
        }
        if !self.negative && other.negative {
            proof {
                lemma_sign_decides(nb, pb, na, pa);
            }
            return Relation::Above;
        }
        let m = magnitude_relation(&self.whole, &self.fraction, &other.whole, &other.fraction);
        if self.negative {
            match m {
                Relation::Below => {
                    proof {
                        lemma_negation_reverses(nb, pb, na, pa);
                    }
                    Relation::Above
                },
                Relation::Above => {
                    proof {
                        lemma_negation_reverses(na, pa, nb, pb);
                    }
                    Relation::Below
                },
                Relation::Equal => Relation::Equal,
            }
        } else {
            m
        }
    }

    /// Whether this number is below `other`.
    pub fn less_than(&self, other: &Decimal) -> (r: bool)
        ensures
            r == self@.lt(other@),
    {
        match self.relation_to(other) {
            Relation::Below => true,
            _ => false,
        }
    }
}

impl Clone for Decimal {
    fn clone(&self) -> (r: Decimal)
        ensures
            r@ == self@,
    {
        proof {
            use_type_invariant(self);
        }
        let whole = self.whole.clone();
        let fraction = self.fraction.clone();
        assert(whole@ =~= self.whole@);
        assert(fraction@ =~= self.fraction@);
        Decimal { negative: self.negative, whole, fraction }
    }
}

const MINUS: u8 = 45;

const PLUS: u8 = 43;

const POINT: u8 = 46;

const DIGIT_ZERO: u8 = 48;

const DIGIT_NINE: u8 = 57;

/// The bytes are the characters of an ASCII text, one for one.
spec fn mirrors(bytes: Seq<u8>, text: Seq<char>) -> bool {
    &&& bytes.len() == text.len()
    &&& forall|j: int| 0 <= j < text.len() ==> (#[trigger] bytes[j]) as int == text[j] as int
}

impl Decimal {
    /// Reads a number in plain decimal notation: an optional sign, digits
    /// and at most one decimal point. Text that is not in that notation
    /// gives `None`; so does a number with an exponent, as `1e3`.
    pub fn parse(text: &str) -> (r: Option<Decimal>)
        ensures
            r is Some <==> is_decimal_text(text@),
            r matches Some(d) ==> d@ == decimal_text_value(text@),
    {
        if !text.is_ascii() {
            proof {
                if is_decimal_text(text@) {
                    lemma_decimal_text_is_ascii(text@);
                }
            }
            return None;
        }
        let bytes = text.as_bytes();
        let n = bytes.len();
        proof {
            vstd::string::is_ascii_spec_bytes(text);
            assert(bytes@.len() == text@.len());
            assert forall|j: int| 0 <= j < text@.len() implies (#[trigger] bytes@[j]) as int
                == text@[j] as int by {
                assert('\0' <= text@[j] <= '\u{7f}');
            }
            assert(mirrors(bytes@, text@));
        }
        let mut negative = false;
        let mut i: usize = 0;
        if n > 0 && (bytes[0] == MINUS || bytes[0] == PLUS) {
            negative = bytes[0] == MINUS;
            i = 1;
        }
        let start = i;
        let ghost body = unsigned_part(text@);
        proof {
            assert(has_sign(text@) == (start == 1));
            assert(negative == (has_sign(text@) && text@[0] == '-'));
            assert(body.len() == n - start);
            assert forall|j: int| 0 <= j < body.len() implies body[j] == text@[j + start] by {}
            lemma_point_at(body);
        }
        let mut whole: Vec<u8> = Vec::new();
        while i < n && DIGIT_ZERO <= bytes[i] && bytes[i] <= DIGIT_NINE
            invariant
                start <= i <= n,
                n == bytes@.len(),
                n == text@.len(),
                body.len() == n - start,
                mirrors(bytes@, text@),
                forall|j: int| 0 <= j < body.len() ==> body[j] == text@[j + start],
                forall|j: int| 0 <= j < i - start ==> is_digit_char(#[trigger] body[j]),
                all_digits(whole@),
                whole@.len() > 0 ==> whole@[0] != 0,
                digits_value(whole@) == digits_value(digits_of(body.take(i - start))),
            decreases n - i,
        {
            let d = bytes[i] - DIGIT_ZERO;
            proof {
                let c = body[i - start];
                assert(c == text@[i as int]);
                assert(is_digit_char(c));
                assert(d == digit_of(c));
                assert(body.take(i + 1 - start) =~= body.take(i - start).push(c));
                lemma_digits_of_push(body.take(i - start), c);
                lemma_digits_value_push(digits_of(body.take(i - start)), d);
                lemma_digits_value_push(whole@, d);
            }
            if d != 0 || whole.len() > 0 {
                whole.push(d);
            }
            i += 1;
        }
        let point = i;
        if i < n {
            if bytes[i] != POINT {
                proof {
                    let k = i - start;
                    assert(body[k] == text@[i as int]);
                    assert(body[k] != '.');
                    assert(!is_digit_char(body[k]));
                    assert(point_at(body) > k);
                    assert(whole_text(body)[k] == body[k]);
                }
                return None;
            }
            proof {
                assert(body[i - start] == text@[i as int]);
                assert(body[i - start] == '.');
            }
            i += 1;
        }
        proof {
            assert(point_at(body) == point - start);
        }
        let mut fraction: Vec<u8> = Vec::new();
        while i < n
            invariant
                point <= i <= n,
                start <= point,
                point < n ==> point < i,
                n == bytes@.len(),
                n == text@.len(),
                body.len() == n - start,
                point_at(body) == point - start,
                mirrors(bytes@, text@),
                forall|j: int| 0 <= j < body.len() ==> body[j] == text@[j + start],
                point < n ==> fraction@ == digits_of(body.subrange(point - start + 1, i - start)),
                point < n ==> all_digit_chars(body.subrange(point - start + 1, i - start)),
                point == n ==> fraction@.len() == 0,
                body == unsigned_part(text@),
                all_digits(fraction@),
            decreases n - i,
        {
            if !(DIGIT_ZERO <= bytes[i] && bytes[i] <= DIGIT_NINE) {
                proof {
                    let k = i - start;
                    assert(body[k] == text@[i as int]);
                    assert(!is_digit_char(body[k]));
                    assert(fraction_text(body)[k - point_at(body) - 1] == body[k]);
                }
                return None;
            }
            let d = bytes[i] - DIGIT_ZERO;
            proof {
                let c = body[i - start];
                assert(c == text@[i as int]);
                assert(d == digit_of(c));
                let before = body.subrange(point - start + 1, i - start);
                let after = body.subrange(point - start + 1, i + 1 - start);
                assert(after =~= before.push(c));
                lemma_digits_of_push(before, c);
            }
            fraction.push(d);
            i += 1;
        }
        let ghost whole_chars = whole_text(body);
        let ghost fraction_chars = fraction_text(body);
        proof {
            if point < n {
                assert(fraction_chars =~= body.subrange(point - start + 1, n - start));
            } else {
                assert(fraction@ =~= digits_of(fraction_chars));
            }
            assert(fraction@ == digits_of(fraction_chars));
            assert(all_digit_chars(fraction_chars));
            assert(all_digit_chars(whole_chars));
            assert(fraction@.len() == fraction_chars.len());
            assert(whole_chars.len() == point - start);
        }
        if point - start + fraction.len() == 0 {
            return None;
        }
        let ghost unscaled = digits_value(digits_of(whole_chars + fraction_chars));
        let ghost scale = fraction_chars.len();
        proof {
            lemma_digits_of_concat(whole_chars, fraction_chars);
            lemma_digits_value_concat(digits_of(whole_chars), digits_of(fraction_chars));
            lemma_digits_value_concat(whole@, fraction@);
            assert(digits_value(whole@ + fraction@) == unscaled);
        }
        while fraction.len() > 0 && fraction[fraction.len() - 1] == 0
            invariant
                all_digits(whole@),
                all_digits(fraction@),
                whole@.len() > 0 ==> whole@[0] != 0,
                normalized(negative, digits_value(whole@ + fraction@), fraction@.len())
                    == normalized(negative, unscaled, scale),
            decreases fraction.len(),
        {
            proof {
                let all = whole@ + fraction@;
                assert(all.last() == 0);
                assert(all.drop_last() =~= whole@ + fraction@.drop_last());
                assert(digits_value(all) == digits_value(all.drop_last()) * 10);
            }
            let ghost before = fraction@;
            fraction.pop();
            assert(fraction@ =~= before.drop_last());
        }
        let nonzero = whole.len() > 0 || fraction.len() > 0;
        proof {
            if nonzero {
                lemma_canonical_digits_nonzero(whole@, fraction@);
            } else {
                assert(whole@ + fraction@ =~= Seq::<u8>::empty());
            }
            if fraction@.len() > 0 {
                assert((whole@ + fraction@).last() == fraction@.last());
                lemma_last_nonzero_positive(whole@ + fraction@);
            }
        }
        Some(Decimal { negative: negative && nonzero, whole, fraction })
    }

    /// Reads a number in plain decimal notation; text that writes none in
    /// that notation stands for zero.
    pub fn parse_or_zero(text: &str) -> (r: Decimal)
        ensures
            r@ == field_value(text@),
    {
        match Decimal::parse(text) {
            Some(d) => d,
            None => Decimal::zero(),
        }
    }
}

fn digit_text(d: u8) -> (r: &'static str)
    requires
        d < 10,
    ensures
        r@ == seq![digit_char(d)],
{
    proof {
        reveal_strlit("0");
        reveal_strlit("1");
        reveal_strlit("2");
        reveal_strlit("3");
        reveal_strlit("4");
        reveal_strlit("5");
        reveal_strlit("6");
        reveal_strlit("7");
        reveal_strlit("8");
        reveal_strlit("9");
    }
    let r = if d == 0 {
        "0"
    } else if d == 1 {
        "1"
    } else if d == 2 {
        "2"
    } else if d == 3 {
        "3"
    } else if d == 4 {
        "4"
    } else if d == 5 {
        "5"
    } else if d == 6 {
        "6"
    } else if d == 7 {
        "7"
    } else if d == 8 {
        "8"
    } else {
        "9"
    };
    assert(r@ =~= seq![digit_char(d)]);
    r
}

fn append_digits(out: &mut String, digits: &Vec<u8>)
    requires
        all_digits(digits@),
    ensures
        final(out)@ == old(out)@ + chars_of(digits@),
{
    let ghost before = out@;
    let mut i: usize = 0;
    assert(chars_of(digits@.take(0)) =~= Seq::<char>::empty());
    assert(before + Seq::<char>::empty() =~= before);
    while i < digits.len()
        invariant
            i <= digits.len(),
            all_digits(digits@),
            out@ == before + chars_of(digits@.take(i as int)),
        decreases digits.len() - i,
    {
        let t = digit_text(digits[i]);
        out.append(t);
        proof {
            assert(digits@.take(i + 1) =~= digits@.take(i as int).push(digits@[i as int]));
            assert(chars_of(digits@.take(i + 1)) =~= chars_of(digits@.take(i as int)) + t@);
            assert(out@ =~= before + chars_of(digits@.take(i + 1)));
        }
        i += 1;
    }
    assert(digits@.take(i as int) =~= digits@);
}

impl Decimal {
    /// Writes the number in plain decimal notation, in its shortest form.
    pub fn to_string(&self) -> (r: String)
        ensures
            is_plain_form(r@),
            decimal_text_value(r@) == self@,
    {
        proof {
            use_type_invariant(self);
            self.lemma_canonical();
            reveal_strlit("-");
            reveal_strlit("0");
            reveal_strlit(".");
            lemma_digits_of_chars(self.whole@);
            lemma_digits_of_chars(self.fraction@);
        }
        let mut out = String::new();
        if self.negative {
            out.append("-");
        }
        let ghost sign = out@;
        if self.whole.len() == 0 {
            out.append("0");
        } else {
            append_digits(&mut out, &self.whole);
        }
        let ghost whole_chars = if self.whole@.len() == 0 {
            seq!['0']
        } else {
            chars_of(self.whole@)
        };
        assert(out@ =~= sign + whole_chars);
        if self.fraction.len() > 0 {
            out.append(".");
            append_digits(&mut out, &self.fraction);
        }
        let ghost fraction_chars = chars_of(self.fraction@);
        proof {
            let text = out@;
            let body = whole_chars + (if self.fraction@.len() > 0 {
                seq!['.'] + fraction_chars
            } else {
                Seq::<char>::empty()
            });
            assert(text =~= sign + body);
            assert(whole_chars[0] != '-' && whole_chars[0] != '+') by {
                if self.whole@.len() > 0 {
                    assert(self.whole@[0] < 10);
                    assert(whole_chars[0] == digit_char(self.whole@[0]));
                }
            }
            assert(has_sign(text) == self.negative);
            assert(unsigned_part(text) =~= body);
            lemma_point_at(body);
            assert forall|j: int| 0 <= j < whole_chars.len() implies body[j] != '.' by {
                assert(body[j] == whole_chars[j]);
                if self.whole@.len() > 0 {
                    assert(chars_of(self.whole@)[j] != '.');
                }
            }
            assert(point_at(body) == whole_chars.len()) by {
                if point_at(body) < whole_chars.len() {
                    assert(body[point_at(body)] == '.');
                }
                if self.fraction@.len() > 0 {
                    assert(body[whole_chars.len() as int] == '.');
                }
            }
            assert(whole_text(body) =~= whole_chars);
            assert(fraction_text(body) =~= fraction_chars);
            assert(all_digit_chars(whole_chars));
            let whole_digits = digits_of(whole_chars);
            assert(digits_value(whole_digits) == digits_value(self.whole@)) by {
                if self.whole@.len() == 0 {
                    assert(whole_digits =~= seq![0u8]);
                    lemma_single_digit(0u8);
                }
            }
            lemma_digits_of_concat(whole_chars, fraction_chars);
            lemma_digits_value_concat(whole_digits, self.fraction@);
            lemma_digits_value_concat(self.whole@, self.fraction@);
            assert(digits_value(digits_of(whole_chars + fraction_chars)) == self@.unscaled);
            if self.whole@.len() > 1 {
                assert(whole_chars[0] == digit_char(self.whole@[0]));
            }
            if self.fraction@.len() > 0 {
                assert(fraction_chars.last() == digit_char(self.fraction@.last()));
            }
            if self.negative {
                lemma_canonical_digits_nonzero(self.whole@, self.fraction@);
            }
        }
        out
    }
}

} // verus!
