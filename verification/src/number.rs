//! Exact non-negative decimal numbers, as numeric literals denote them.

use crate::text::text_of;
use vstd::prelude::*;

verus! {

/// The mathematical value of a decimal: `numerator / 10^scale`.
pub struct DecimalModel {
    pub numerator: nat,
    pub scale: nat,
}

/// A non-negative decimal number in lowest terms.
///
/// `digits` holds the decimal digits of the numerator, most significant
/// first and without leading zeros; `scale` is the number of them that stand
/// behind the decimal point. A number with a positive scale does not end in
/// zero, so that each value has exactly one representation.
#[derive(Debug, PartialEq, Eq)]
pub struct Decimal {
    digits: Vec<u8>,
    scale: usize,
}

/// The number that a sequence of decimal digits denotes, most significant
/// digit first.
pub open spec fn digits_value(ds: Seq<u8>) -> nat
    decreases ds.len(),
{
    if ds.len() == 0 {
        0
    } else {
        digits_value(ds.drop_last()) * 10 + ds.last() as nat
    }
}

/// `numerator / 10^scale` in lowest terms: factors of ten are cancelled
/// while the scale allows it.
pub open spec fn reduce(numerator: nat, scale: nat) -> DecimalModel
    decreases scale,
{
    if scale > 0 && numerator % 10 == 0 {
        reduce(numerator / 10, (scale - 1) as nat)
    } else {
        DecimalModel { numerator, scale }
    }
}

/// Ten to the power `k`.
pub open spec fn pow10(k: nat) -> nat
    decreases k,
{
    if k == 0 {
        1
    } else {
        10 * pow10((k - 1) as nat)
    }
}

/// Whether a decimal is in lowest terms: with a positive scale, its
/// numerator is no multiple of ten.
pub open spec fn lowest_terms(d: DecimalModel) -> bool {
    d.scale > 0 ==> d.numerator % 10 != 0
}

/// Reducing keeps the value and ends in lowest terms.
pub proof fn lemma_reduce(numerator: nat, scale: nat)
    ensures
        reduce(numerator, scale).scale <= scale,
        reduce(numerator, scale).numerator * pow10(
            (scale - reduce(numerator, scale).scale) as nat,
        ) == numerator,
        lowest_terms(reduce(numerator, scale)),
    decreases scale,
{
    if scale > 0 && numerator % 10 == 0 {
        let r = reduce(numerator / 10, (scale - 1) as nat);
        lemma_reduce(numerator / 10, (scale - 1) as nat);
        let k = (scale - 1 - r.scale) as nat;
        assert(reduce(numerator, scale) == r);
        assert((scale - r.scale) as nat == k + 1);
        assert(pow10((k + 1) as nat) == 10 * pow10(k));
        assert(r.numerator * (10 * pow10(k)) == (r.numerator * pow10(k)) * 10)
            by (nonlinear_arith);
        assert(r.numerator * pow10(k) == numerator / 10);
        assert((numerator / 10) * 10 == numerator);
    } else {
        assert(reduce(numerator, scale) == DecimalModel { numerator, scale });
        assert(pow10(0) == 1);
        assert(numerator * 1 == numerator);
    }
}

/// Powers of ten are positive, and a positive power is a multiple of ten.
pub proof fn lemma_pow10(k: nat)
    ensures
        pow10(k) > 0,
        k > 0 ==> pow10(k) % 10 == 0,
    decreases k,
{
    if k > 0 {
        lemma_pow10((k - 1) as nat);
    }
}

/// Powers of ten multiply by adding their exponents.
pub proof fn lemma_pow10_add(j: nat, k: nat)
    ensures
        pow10(j + k) == pow10(j) * pow10(k),
    decreases j,
{
    if j > 0 {
        lemma_pow10_add((j - 1) as nat, k);
        assert(pow10(j + k) == 10 * pow10((j - 1 + k) as nat));
        assert(10 * (pow10((j - 1) as nat) * pow10(k)) == (10 * pow10((j - 1) as nat)) * pow10(k))
            by (nonlinear_arith);
    } else {
        assert(pow10(j) == 1);
        assert(1 * pow10(k) == pow10(k));
    }
}

/// Each value has one decimal in lowest terms: two such decimals that
/// denote the same number, `a.numerator / 10^a.scale == b.numerator /
/// 10^b.scale`, are the same decimal.
pub proof fn lemma_lowest_terms_unique(a: DecimalModel, b: DecimalModel)
    requires
        lowest_terms(a),
        lowest_terms(b),
        a.numerator * pow10(b.scale) == b.numerator * pow10(a.scale),
    ensures
        a == b,
{
    lemma_pow10(a.scale);
    lemma_pow10(b.scale);
    if a.scale < b.scale {
        lemma_greater_scale_reduces(a, b);
    } else if b.scale < a.scale {
        lemma_greater_scale_reduces(b, a);
    }
    let p = pow10(a.scale);
    assert(a.numerator * p == b.numerator * p && p > 0 ==> a.numerator == b.numerator)
        by (nonlinear_arith);
}

/// Of two decimals that denote the same number, the one with the greater
/// scale is not in lowest terms.
pub proof fn lemma_greater_scale_reduces(a: DecimalModel, b: DecimalModel)
    requires
        a.scale < b.scale,
        a.numerator * pow10(b.scale) == b.numerator * pow10(a.scale),
    ensures
        !lowest_terms(b),
{
    let k = (b.scale - a.scale) as nat;
    let p = pow10(a.scale);
    let q = pow10(k);
    lemma_pow10(a.scale);
    lemma_pow10(k);
    lemma_pow10_add(a.scale, k);
    assert(pow10(b.scale) == p * q);
    assert(a.numerator * (p * q) == (a.numerator * q) * p) by (nonlinear_arith);
    assert((a.numerator * q) * p == b.numerator * p && p > 0 ==> a.numerator * q == b.numerator)
        by (nonlinear_arith);
    assert(q % 10 == 0);
    assert(q == 10 * (q / 10));
    assert(a.numerator * (10 * (q / 10)) == 10 * (a.numerator * (q / 10)))
        by (nonlinear_arith);
    assert(b.numerator == 10 * (a.numerator * (q / 10)));
    assert(b.numerator % 10 == 0);
}

/// Whether `c` is one of the ten ASCII digits.
pub open spec fn is_decimal_digit(c: char) -> bool {
    '0' <= c <= '9'
}

/// The value of an ASCII digit.
pub open spec fn digit_value(c: char) -> u8
    recommends
        is_decimal_digit(c),
{
    (c as u32 - '0' as u32) as u8
}

/// The index of the first `.` in `text`, or its length if it holds none.
pub open spec fn point_index(text: Seq<char>) -> int
    decreases text.len(),
{
    if text.len() == 0 || text[0] == '.' {
        0
    } else {
        1 + point_index(text.skip(1))
    }
}

/// The digits of `text` as numbers, its decimal point left out.
pub open spec fn text_digits(text: Seq<char>) -> Seq<u8>
    decreases text.len(),
{
    if text.len() == 0 {
        Seq::empty()
    } else if text.last() == '.' {
        text_digits(text.drop_last())
    } else {
        text_digits(text.drop_last()).push(digit_value(text.last()))
    }
}

/// Whether `text` is written as one or more ASCII digits, optionally followed
/// by a point and zero or more ASCII digits.
pub open spec fn is_decimal_text(text: Seq<char>) -> bool {
    let p = point_index(text);
    &&& p > 0
    &&& forall|i: int| 0 <= i < text.len() && i != p ==> is_decimal_digit(#[trigger] text[i])
}

/// The number of digits of `text` behind its decimal point.
pub open spec fn text_scale(text: Seq<char>) -> nat {
    let p = point_index(text);
    if p < text.len() {
        (text.len() - p - 1) as nat
    } else {
        0
    }
}

/// The value that `text` denotes, if it is written as a decimal number.
pub open spec fn decimal_of(text: Seq<char>) -> Option<DecimalModel> {
    if is_decimal_text(text) {
        Some(reduce(digits_value(text_digits(text)), text_scale(text)))
    } else {
        None
    }
}

/// `point_index` is within the text, no `.` stands before it, and one stands
/// at it unless it is the length.
pub proof fn lemma_point_index(text: Seq<char>)
    ensures
        0 <= point_index(text) <= text.len(),
        forall|i: int| 0 <= i < point_index(text) ==> text[i] != '.',
        point_index(text) < text.len() ==> text[point_index(text)] == '.',
    decreases text.len(),
{
    if text.len() == 0 || text[0] == '.' {
    } else {
        lemma_point_index(text.skip(1));
        let p = point_index(text.skip(1));
        assert forall|i: int| 0 <= i < point_index(text) implies text[i] != '.' by {
            if i > 0 {
                assert(text.skip(1)[i - 1] == text[i]);
            }
        }
        if p + 1 < text.len() {
            assert(text.skip(1)[p] == text[p + 1]);
        }
    }
}

/// The first `.` of a text is found at `p` when none stands before `p` and
/// either one stands at `p` or `p` is the length.
pub proof fn lemma_point_index_is(text: Seq<char>, p: int)
    requires
        0 <= p <= text.len(),
        forall|i: int| 0 <= i < p ==> text[i] != '.',
        p < text.len() ==> text[p] == '.',
    ensures
        point_index(text) == p,
{
    lemma_point_index(text);
    let q = point_index(text);
    if q < p {
        assert(text[q] == '.');
    } else if p < q {
        assert(text[p] == '.');
    }
}

/// Leading zeros do not change the value of a digit sequence.
pub proof fn lemma_leading_zeros(ds: Seq<u8>, k: int)
    requires
        0 <= k <= ds.len(),
        forall|i: int| 0 <= i < k ==> ds[i] == 0,
    ensures
        digits_value(ds.skip(k)) == digits_value(ds),
    decreases ds.len(),
{
    if ds.len() == k {
        assert(ds.skip(k).len() == 0);
        if k > 0 {
            lemma_leading_zeros(ds.drop_last(), k - 1);
            assert(ds.drop_last().skip(k - 1).len() == 0);
        }
    } else {
        lemma_leading_zeros(ds.drop_last(), k);
        assert(ds.skip(k).drop_last() == ds.drop_last().skip(k));
        assert(ds.skip(k).last() == ds.last());
    }
}

/// The ASCII digit that stands for a number below ten.
pub open spec fn digit_char(d: u8) -> char
    recommends
        d < 10,
{
    (d + 48) as char
}

/// The ASCII digits that stand for a sequence of numbers below ten.
pub open spec fn digit_chars(ds: Seq<u8>) -> Seq<char> {
    Seq::new(ds.len(), |i: int| digit_char(ds[i]))
}

/// `n` times the digit `0`.
pub open spec fn zeros(n: nat) -> Seq<char> {
    Seq::new(n, |i: int| '0')
}

/// The shortest text that denotes `digits / 10^scale` with at least one
/// digit before the point, and with a point only where the scale is not zero.
pub open spec fn decimal_text(digits: Seq<u8>, scale: nat) -> Seq<char> {
    if scale == 0 {
        if digits.len() == 0 {
            seq!['0']
        } else {
            digit_chars(digits)
        }
    } else if digits.len() > scale {
        digit_chars(digits.take(digits.len() - scale)) + seq!['.'] + digit_chars(
            digits.skip(digits.len() - scale),
        )
    } else {
        seq!['0', '.'] + zeros((scale - digits.len()) as nat) + digit_chars(digits)
    }
}

/// The digits of a text that is written in two parts are the digits of the
/// parts.
pub proof fn lemma_text_digits_concat(a: Seq<char>, b: Seq<char>)
    ensures
        text_digits(a + b) == text_digits(a) + text_digits(b),
    decreases b.len(),
{
    if b.len() == 0 {
        assert(a + b == a);
        assert(text_digits(a) + text_digits(b) == text_digits(a));
    } else {
        lemma_text_digits_concat(a, b.drop_last());
        assert((a + b).drop_last() == a + b.drop_last());
        assert((a + b).last() == b.last());
        if b.last() != '.' {
            assert((text_digits(a) + text_digits(b.drop_last())).push(digit_value(b.last()))
                == text_digits(a) + text_digits(b.drop_last()).push(digit_value(b.last())));
        }
    }
}

/// Written as ASCII digits and read back, a sequence of digits is itself.
pub proof fn lemma_text_digits_of_digit_chars(ds: Seq<u8>)
    requires
        forall|i: int| 0 <= i < ds.len() ==> ds[i] < 10,
    ensures
        text_digits(digit_chars(ds)) == ds,
        forall|i: int|
            0 <= i < ds.len() ==> is_decimal_digit(#[trigger] digit_chars(ds)[i]),
    decreases ds.len(),
{
    if ds.len() > 0 {
        lemma_text_digits_of_digit_chars(ds.drop_last());
        assert(digit_chars(ds).drop_last() == digit_chars(ds.drop_last()));
        assert(digit_chars(ds).last() == digit_char(ds.last()));
        assert(digit_value(digit_char(ds.last())) == ds.last());
        assert(ds.drop_last().push(ds.last()) == ds);
    } else {
        assert(text_digits(digit_chars(ds)) == ds);
    }
}

/// A run of the digit `0` has the value zero in front of any digits.
pub proof fn lemma_zeros_have_no_value(n: nat, ds: Seq<u8>)
    ensures
        text_digits(zeros(n)).len() == n,
        forall|i: int| 0 <= i < n ==> text_digits(zeros(n))[i] == 0,
        digits_value(text_digits(zeros(n)) + ds) == digits_value(ds),
    decreases n,
{
    if n > 0 {
        lemma_zeros_have_no_value((n - 1) as nat, ds);
        assert(zeros(n).drop_last() == zeros((n - 1) as nat));
        assert(zeros(n).last() == '0');
    }
    let all = text_digits(zeros(n)) + ds;
    lemma_leading_zeros(all, n as int);
    assert(all.skip(n as int) == ds);
}

/// The text of a decimal in lowest terms denotes that decimal.
pub proof fn lemma_decimal_text(digits: Seq<u8>, scale: nat)
    requires
        forall|i: int| 0 <= i < digits.len() ==> digits[i] < 10,
        scale > 0 ==> digits.len() > 0 && digits.last() != 0,
    ensures
        decimal_of(decimal_text(digits, scale)) == Some(
            DecimalModel { numerator: digits_value(digits), scale },
        ),
{
    let t = decimal_text(digits, scale);
    lemma_text_digits_of_digit_chars(digits);
    if scale == 0 {
        if digits.len() == 0 {
            assert(text_digits(seq!['0'].drop_last()) == Seq::<u8>::empty());
            assert(text_digits(t) == seq![0u8]);
            assert(digits_value(seq![0u8].drop_last()) == 0);
        }
        lemma_point_index_is(t, t.len() as int);
    } else if digits.len() > scale {
        let cut = digits.len() - scale;
        let whole = digits.take(cut);
        let part = digits.skip(cut);
        lemma_text_digits_of_digit_chars(whole);
        lemma_text_digits_of_digit_chars(part);
        assert forall|i: int| 0 <= i < t.len() && i != cut implies is_decimal_digit(
            #[trigger] t[i],
        ) by {
            if i < cut {
                assert(t[i] == digit_chars(whole)[i]);
            } else {
                assert(t[i] == digit_chars(part)[i - cut - 1]);
            }
        }
        assert(t[cut] == '.');
        lemma_point_index_is(t, cut);
        lemma_text_digits_concat(digit_chars(whole) + seq!['.'], digit_chars(part));
        lemma_text_digits_concat(digit_chars(whole), seq!['.']);
        assert(text_digits(seq!['.'].drop_last()) == Seq::<u8>::empty());
        assert(text_digits(seq!['.']) == Seq::<u8>::empty());
        assert(text_digits(t) == whole + part);
        assert(whole + part == digits);
    } else {
        let pad = (scale - digits.len()) as nat;
        assert forall|i: int| 0 <= i < t.len() && i != 1 implies is_decimal_digit(
            #[trigger] t[i],
        ) by {
            if i >= 2 + pad {
                assert(t[i] == digit_chars(digits)[i - 2 - pad]);
            }
        }
        assert(t[0] == '0');
        assert(t[1] == '.');
        lemma_point_index_is(t, 1);
        lemma_text_digits_concat(seq!['0', '.'] + zeros(pad), digit_chars(digits));
        lemma_text_digits_concat(seq!['0', '.'], zeros(pad));
        assert(seq!['0', '.'].drop_last() == seq!['0']);
        assert(text_digits(seq!['0'].drop_last()) == Seq::<u8>::empty());
        assert(text_digits(seq!['0']) == seq![0u8]);
        assert(text_digits(seq!['0', '.']) == seq![0u8]);
        lemma_zeros_have_no_value(pad, digits);
        let padded = text_digits(zeros(pad)) + digits;
        assert(text_digits(t) == seq![0u8] + padded);
        lemma_leading_zeros(seq![0u8] + padded, 1);
        assert((seq![0u8] + padded).skip(1) == padded);
    }
    assert(digits_value(text_digits(t)) == digits_value(digits));
    assert(text_scale(t) == scale);
    assert(is_decimal_text(t));
    if scale > 0 {
        assert(digits_value(digits) % 10 == digits.last() as nat);
    }
}

/// The decimal digits of a number, most significant first; none for zero.
pub open spec fn digits_of(n: nat) -> Seq<u8>
    decreases n,
{
    if n == 0 {
        Seq::empty()
    } else {
        digits_of(n / 10).push((n % 10) as u8)
    }
}

/// The digits of a number are decimal digits and denote it.
pub proof fn lemma_digits_of(n: nat)
    ensures
        digits_value(digits_of(n)) == n,
        forall|i: int| 0 <= i < digits_of(n).len() ==> digits_of(n)[i] < 10,
        n > 0 ==> digits_of(n).len() > 0 && digits_of(n).last() == n % 10,
    decreases n,
{
    if n > 0 {
        lemma_digits_of(n / 10);
        assert(digits_of(n).drop_last() == digits_of(n / 10));
    }
}

/// The text of a decimal: the shortest that denotes it with at least one
/// digit before the point.
pub open spec fn model_text(d: DecimalModel) -> Seq<char> {
    decimal_text(digits_of(d.numerator), d.scale)
}

/// The text of a decimal in lowest terms denotes that decimal. It is
/// written with ASCII digits and at most one point, and begins with a
/// digit.
pub proof fn lemma_model_text(d: DecimalModel)
    requires
        lowest_terms(d),
    ensures
        decimal_of(model_text(d)) == Some(d),
        is_decimal_text(model_text(d)),
        model_text(d).len() > 0,
{
    lemma_digits_of(d.numerator);
    lemma_decimal_text(digits_of(d.numerator), d.scale);
    lemma_point_index(model_text(d));
}

impl View for Decimal {
    type V = DecimalModel;

    closed spec fn view(&self) -> DecimalModel {
        DecimalModel { numerator: digits_value(self.digits@), scale: self.scale as nat }
    }
}

impl Decimal {
    /// The representation invariant: decimal digits, no leading zero, and no
    /// trailing zero behind the point.
    #[verifier::type_invariant]
    spec fn wf(&self) -> bool {
        &&& forall|i: int| 0 <= i < self.digits@.len() ==> self.digits@[i] < 10
        &&& self.digits@.len() > 0 ==> self.digits@[0] != 0
        &&& self.scale > 0 ==> self.digits@.len() > 0 && self.digits@.last() != 0
    }

    /// Reads a decimal number: one or more ASCII digits, optionally followed
    /// by a point and zero or more ASCII digits. Any other text gives `None`.
    pub fn from_text(text: &str) -> (r: Option<Decimal>)
        ensures
            match decimal_of(text@) {
                Some(value) => r matches Some(d) && d@ == value,
                None => r is None,
            },
    {
        let mut digits: Vec<u8> = Vec::new();
        let mut scale: usize = 0;
        let mut pointed = false;
        let mut started = false;
        let ghost mut count: int = 0;
        for c in it: text.chars()
            invariant
                it.seq() == text@,
                count == it.index(),
                started == (count > 0),
                digits@ == text_digits(text@.take(count)),
                scale <= digits@.len(),
                forall|i: int| 0 <= i < digits@.len() ==> digits@[i] < 10,
                !pointed ==> scale == 0 && forall|i: int| 0 <= i < count ==> text@[i] != '.',
                pointed ==> point_index(text@) < count && scale == count - point_index(text@) - 1,
                count > 0 ==> point_index(text@) > 0,
                forall|i: int|
                    0 <= i < count && i != point_index(text@) ==> is_decimal_digit(
                        #[trigger] text@[i],
                    ),
        {
            proof {
                lemma_point_index(text@);
                assert(text@.take(count + 1).drop_last() == text@.take(count));
                assert(text@.take(count + 1).last() == c);
            }
            if c == '.' {
                if pointed || !started {
                    proof {
                        if !pointed {
                            lemma_point_index_is(text@, 0);
                        }
                    }
                    return None;
                }
                proof {
                    lemma_point_index_is(text@, count);
                }
                pointed = true;
            } else if '0' <= c && c <= '9' {
                let d: u8 = (c as u32 - '0' as u32) as u8;
                digits.push(d);
                if pointed {
                    assert(scale < digits.len());
                    scale = scale + 1;
                }
            } else {
                proof {
                    if count == point_index(text@) {
                        assert(text@[count] == '.');
                    }
                }
                return None;
            }
            started = true;
            proof {
                count = count + 1;
            }
        }
        if !started {
            return None;
        }
        proof {
            assert(text@.take(count) == text@);
            lemma_point_index(text@);
            if !pointed {
                lemma_point_index_is(text@, count);
            }
            assert(scale == text_scale(text@));
            assert(is_decimal_text(text@));
        }
        Some(Decimal::reduced(digits, scale))
    }

    /// The decimal `digits / 10^scale` in lowest terms.
    fn reduced(digits: Vec<u8>, scale: usize) -> (r: Decimal)
        requires
            forall|i: int| 0 <= i < digits@.len() ==> digits@[i] < 10,
        ensures
            r@ == reduce(digits_value(digits@), scale as nat),
    {
        let ghost target = reduce(digits_value(digits@), scale as nat);
        let mut all = digits;
        let mut scale = scale;
        while scale > 0 && (all.len() == 0 || all[all.len() - 1] == 0)
            invariant
                forall|i: int| 0 <= i < all@.len() ==> all@[i] < 10,
                reduce(digits_value(all@), scale as nat) == target,
            decreases scale,
        {
            if all.len() > 0 {
                all.pop();
            }
            scale = scale - 1;
        }
        let mut first: usize = 0;
        while first < all.len() && all[first] == 0
            invariant
                first <= all.len(),
                forall|i: int| 0 <= i < first ==> all@[i] == 0,
            decreases all.len() - first,
        {
            first = first + 1;
        }
        let mut digits: Vec<u8> = Vec::new();
        let mut i: usize = first;
        while i < all.len()
            invariant
                first <= i <= all.len(),
                digits@ == all@.subrange(first as int, i as int),
            decreases all.len() - i,
        {
            digits.push(all[i]);
            i = i + 1;
        }
        proof {
            assert(digits@ == all@.skip(first as int));
            lemma_leading_zeros(all@, first as int);
        }
        Decimal { digits, scale }
    }

    /// The decimal digits of the numerator, most significant first and
    /// without leading zeros.
    pub closed spec fn spec_digits(&self) -> Seq<u8> {
        self.digits@
    }

    /// The decimal digits of the numerator, most significant first and
    /// without leading zeros. The number is in lowest terms: with a positive
    /// scale, its last digit is not zero.
    pub fn digits(&self) -> (r: &Vec<u8>)
        ensures
            r@ == self.spec_digits(),
            forall|i: int| 0 <= i < r@.len() ==> r@[i] < 10,
            r@.len() > 0 ==> r@[0] != 0,
            self@.scale > 0 ==> r@.len() > 0 && r@.last() != 0,
            digits_value(r@) == self@.numerator,
            lowest_terms(self@),
    {
        proof {
            use_type_invariant(self);
            if self.scale > 0 {
                assert(digits_value(self.digits@) % 10 == self.digits@.last() as nat);
            }
        }
        &self.digits
    }

    /// Writes the number as text: its digits, with a point before the last
    /// `scale` of them, and with zeros put in front as far as needed for one
    /// digit to stand before the point. Reading the text gives the number
    /// back.
    pub fn to_text(&self) -> (text: String)
        ensures
            text@ == decimal_text(self.spec_digits(), self@.scale),
            decimal_of(text@) == Some(self@),
    {
        proof {
            use_type_invariant(self);
        }
        let n = self.digits.len();
        let mut chars: Vec<char> = Vec::new();
        let whole: usize = if n > self.scale {
            n - self.scale
        } else {
            0
        };
        if whole == 0 {
            chars.push('0');
        }
        let mut i: usize = 0;
        while i < whole
            invariant
                i <= whole <= n,
                n == self.digits@.len(),
                self.wf(),
                chars@ == if whole == 0 {
                    seq!['0']
                } else {
                    digit_chars(self.digits@.take(i as int))
                },
            decreases whole - i,
        {
            chars.push((self.digits[i] + 48u8) as char);
            i = i + 1;
            assert(chars@ == digit_chars(self.digits@.take(i as int)));
        }
        if self.scale > 0 {
            chars.push('.');
            let ghost head = chars@;
            let mut pad: usize = n;
            while pad < self.scale
                invariant
                    n <= pad,
                    n < self.scale ==> pad <= self.scale,
                    n >= self.scale ==> pad == n,
                    chars@ == head + zeros((pad - n) as nat),
                decreases self.scale - pad,
            {
                chars.push('0');
                pad = pad + 1;
                assert(chars@ == head + zeros((pad - n) as nat));
            }
            let ghost padded = chars@;
            let mut j: usize = whole;
            while j < n
                invariant
                    whole <= j <= n,
                    n == self.digits@.len(),
                    self.wf(),
                    chars@ == padded + digit_chars(self.digits@.subrange(whole as int, j as int)),
                decreases n - j,
            {
                chars.push((self.digits[j] + 48u8) as char);
                j = j + 1;
                assert(chars@ == padded + digit_chars(
                    self.digits@.subrange(whole as int, j as int),
                ));
            }
            assert(self.digits@.subrange(whole as int, n as int) == self.digits@.skip(
                whole as int,
            ));
            proof {
                let tail = digit_chars(self.digits@.skip(whole as int));
                if whole == 0 {
                    assert(self.digits@.skip(0) == self.digits@);
                    assert(head == seq!['0', '.']);
                    assert(pad == self.scale);
                    assert(chars@ == seq!['0', '.'] + zeros((self.scale - n) as nat) + tail);
                } else {
                    assert(pad == n);
                    assert(head == digit_chars(self.digits@.take(whole as int)) + seq!['.']);
                    assert(padded =~= head);
                    assert(chars@ == digit_chars(self.digits@.take(whole as int)) + seq!['.']
                        + tail);
                }
            }
        } else {
            assert(self.digits@.take(n as int) == self.digits@);
        }
        proof {
            assert(chars@ == decimal_text(self.digits@, self.scale as nat));
            lemma_decimal_text(self.digits@, self.scale as nat);
        }
        let text = text_of(&chars, 0, chars.len());
        assert(chars@.subrange(0, chars.len() as int) == chars@);
        text
    }

    /// The number of digits behind the decimal point.
    pub fn scale(&self) -> (r: usize)
        ensures
            r == self@.scale,
    {
        self.scale
    }
}

impl Clone for Decimal {
    fn clone(&self) -> (r: Self)
        ensures
            r@ == self@,
    {
        proof {
            use_type_invariant(self);
        }
        let digits = self.digits.clone();
        assert(digits@ == self.digits@);
        Decimal { digits, scale: self.scale }
    }
}

} // verus!
