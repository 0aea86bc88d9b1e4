//! Quality values: the decimal numbers by which a client weighs what it
//! accepts. A value is kept as its digits, so that values of any length
//! compare exactly.

use crate::text::{
    chars_of, find_in, first_index, lemma_lex_lt_irreflexive, lemma_lex_lt_total, lex_less, lex_lt,
};
use vstd::prelude::*;

verus! {

/// Whether `c` is one of the digits `0` to `9`.
pub open spec fn is_digit(c: char) -> bool {
    0x30 <= c as int <= 0x39
}

/// Whether `s` holds digits only.
pub open spec fn all_digits(s: Seq<char>) -> bool {
    forall|i: int| 0 <= i < s.len() ==> is_digit(#[trigger] s[i])
}

/// The number of `0` characters at the start of `s`.
pub open spec fn leading_zeros(s: Seq<char>) -> nat
    decreases s.len(),
{
    if s.len() > 0 && s[0] == '0' {
        1 + leading_zeros(s.drop_first())
    } else {
        0
    }
}

/// The number of `0` characters at the end of `s`.
pub open spec fn trailing_zeros(s: Seq<char>) -> nat
    decreases s.len(),
{
    if s.len() > 0 && s.last() == '0' {
        1 + trailing_zeros(s.drop_last())
    } else {
        0
    }
}

/// The length of the sign that `text` starts with: 1 or 0.
pub open spec fn sign_len(text: Seq<char>) -> int {
    if text.len() > 0 && (text[0] == '+' || text[0] == '-') {
        1
    } else {
        0
    }
}

/// What stands between the sign of `text` and its first `.`.
pub open spec fn whole_part(text: Seq<char>) -> Seq<char> {
    let unsigned = text.skip(sign_len(text));
    unsigned.take(first_index(unsigned, '.'))
}

/// What follows the first `.` of `text`; empty where it has none.
pub open spec fn fraction_part(text: Seq<char>) -> Seq<char> {
    let unsigned = text.skip(sign_len(text));
    let point = first_index(unsigned, '.');
    if 0 <= point < unsigned.len() {
        unsigned.skip(point + 1)
    } else {
        Seq::empty()
    }
}

/// Whether `text` is a decimal number: an optional sign, then digits with at
/// most one `.` among them, and at least one digit.
pub open spec fn is_decimal(text: Seq<char>) -> bool {
    &&& all_digits(whole_part(text))
    &&& all_digits(fraction_part(text))
    &&& whole_part(text).len() + fraction_part(text).len() > 0
}

/// A decimal number: its sign, the digits before the point without the zeros
/// that lead them, and the digits after the point without the zeros that
/// trail them. Zero has no digits left on either side.
pub struct Decimal {
    pub negative: bool,
    pub whole: Seq<char>,
    pub fraction: Seq<char>,
}

impl Decimal {
    /// Whether the number is greater than zero.
    pub open spec fn is_positive(self) -> bool {
        !self.negative && (self.whole.len() > 0 || self.fraction.len() > 0)
    }

    /// Whether the number is nearer to zero than `other` is. The one with
    /// fewer digits before the point is; of two with as many, the one whose
    /// digits come first, those before the point and then those after it.
    pub open spec fn magnitude_lt(self, other: Decimal) -> bool {
        ||| self.whole.len() < other.whole.len()
        ||| self.whole.len() == other.whole.len() && lex_lt(self.whole, other.whole)
        ||| self.whole == other.whole && lex_lt(self.fraction, other.fraction)
    }
}

/// The number that the decimal `text` denotes.
pub open spec fn decimal_of(text: Seq<char>) -> Decimal {
    let whole = whole_part(text);
    let fraction = fraction_part(text);
    Decimal {
        negative: text.len() > 0 && text[0] == '-',
        whole: whole.skip(leading_zeros(whole) as int),
        fraction: fraction.take(fraction.len() - trailing_zeros(fraction)),
    }
}

/// The digit that `c` stands for.
pub open spec fn digit_value(c: char) -> int {
    c as int - 0x30
}

/// Ten to the power of `n`.
pub open spec fn pow10(n: nat) -> int
    decreases n,
{
    if n == 0 {
        1
    } else {
        10 * pow10((n - 1) as nat)
    }
}

/// The number that the digits `digits` denote.
pub open spec fn number(digits: Seq<char>) -> int
    decreases digits.len(),
{
    if digits.len() == 0 {
        0
    } else {
        digit_value(digits[0]) * pow10((digits.len() - 1) as nat) + number(digits.drop_first())
    }
}

/// `n` zeros.
pub open spec fn zeros(n: nat) -> Seq<char> {
    Seq::new(n, |i: int| '0')
}

impl Decimal {
    /// Whether the digits are digits, with no zero leading those before the
    /// point and none trailing those after it.
    pub open spec fn is_normal(self) -> bool {
        &&& all_digits(self.whole)
        &&& all_digits(self.fraction)
        &&& self.whole.len() > 0 ==> self.whole[0] != '0'
        &&& self.fraction.len() > 0 ==> self.fraction.last() != '0'
    }

    /// The distance of the number from zero, in units of ten to the power of
    /// minus `scale`: the number that its digits denote once those after the
    /// point are filled up with zeros to `scale` digits.
    pub open spec fn scaled(self, scale: nat) -> int {
        number(self.whole + self.fraction + zeros((scale - self.fraction.len()) as nat))
    }
}

proof fn lemma_pow10_grows(m: nat, n: nat)
    requires
        m <= n,
    ensures
        0 < pow10(m) <= pow10(n),
    decreases n,
{
    if n == 0 {
    } else if m == n {
        lemma_pow10_grows((m - 1) as nat, (n - 1) as nat);
    } else {
        lemma_pow10_grows(m, (n - 1) as nat);
    }
}

/// Digits denote a number below the power of ten of their count, and one not
/// below the power before it unless they start with a zero.
proof fn lemma_number_bounds(digits: Seq<char>)
    requires
        all_digits(digits),
    ensures
        0 <= number(digits) < pow10(digits.len()),
        digits.len() > 0 && digits[0] != '0' ==> pow10((digits.len() - 1) as nat) <= number(digits),
    decreases digits.len(),
{
    if digits.len() > 0 {
        let rest = digits.drop_first();
        assert forall|i: int| 0 <= i < rest.len() implies is_digit(#[trigger] rest[i]) by {
            assert(rest[i] == digits[i + 1]);
        }
        lemma_number_bounds(rest);
        let d = digit_value(digits[0]);
        let p = pow10(rest.len());
        lemma_pow10_grows(0, rest.len());
        assert(0 <= d <= 9);
        assert(0 <= d * p && d * p + p <= 10 * p && (d >= 1 ==> p <= d * p)) by (nonlinear_arith)
            requires
                0 <= d <= 9,
                0 < p,
        ;
    }
}

/// Of two rows of digits of the same length, the one that comes first
/// denotes the smaller number.
proof fn lemma_number_order(x: Seq<char>, y: Seq<char>)
    requires
        all_digits(x),
        all_digits(y),
        x.len() == y.len(),
    ensures
        lex_lt(x, y) <==> number(x) < number(y),
    decreases x.len(),
{
    if x.len() > 0 {
        let xs = x.drop_first();
        let ys = y.drop_first();
        assert forall|i: int| 0 <= i < xs.len() implies is_digit(#[trigger] xs[i]) by {
            assert(xs[i] == x[i + 1]);
        }
        assert forall|i: int| 0 <= i < ys.len() implies is_digit(#[trigger] ys[i]) by {
            assert(ys[i] == y[i + 1]);
        }
        lemma_number_bounds(xs);
        lemma_number_bounds(ys);
        let p = pow10(xs.len());
        let a = digit_value(x[0]);
        let b = digit_value(y[0]);
        if x[0] == y[0] {
            lemma_number_order(xs, ys);
        } else if a < b {
            assert(a * p + p <= b * p) by (nonlinear_arith)
                requires
                    a < b,
                    0 < p,
            ;
        } else {
            assert(b * p + p <= a * p) by (nonlinear_arith)
                requires
                    b < a,
                    0 < p,
            ;
        }
    }
}

/// Where `u` and `v` are as long as each other, `u + s` comes before `v + t`
/// where `u` comes before `v`, or `u` is `v` and `s` comes before `t`.
proof fn lemma_lex_lt_concat(u: Seq<char>, s: Seq<char>, v: Seq<char>, t: Seq<char>)
    requires
        u.len() == v.len(),
    ensures
        lex_lt(u + s, v + t) <==> (lex_lt(u, v) || (u == v && lex_lt(s, t))),
    decreases u.len(),
{
    if u.len() == 0 {
        assert(u + s == s && v + t == t);
        assert(u =~= v);
    } else {
        assert((u + s)[0] == u[0] && (v + t)[0] == v[0]);
        assert((u + s).drop_first() == u.drop_first() + s);
        assert((v + t).drop_first() == v.drop_first() + t);
        if u[0] == v[0] {
            lemma_lex_lt_concat(u.drop_first(), s, v.drop_first(), t);
            if u.drop_first() == v.drop_first() {
                assert(u =~= seq![u[0]] + u.drop_first());
                assert(v =~= seq![v[0]] + v.drop_first());
            }
        }
    }
}

/// Nothing of `n` digits comes before `n` zeros, and they come before all
/// else of `n` digits.
proof fn lemma_zeros_first(y: Seq<char>)
    requires
        all_digits(y),
    ensures
        !lex_lt(y, zeros(y.len())),
        y != zeros(y.len()) ==> lex_lt(zeros(y.len()), y),
    decreases y.len(),
{
    let z = zeros(y.len());
    if y.len() > 0 {
        let ys = y.drop_first();
        assert forall|i: int| 0 <= i < ys.len() implies is_digit(#[trigger] ys[i]) by {
            assert(ys[i] == y[i + 1]);
        }
        assert(z.drop_first() =~= zeros(ys.len()));
        lemma_zeros_first(ys);
        if y[0] == '0' && ys == zeros(ys.len()) {
            assert forall|i: int| 0 <= i < y.len() implies y[i] == z[i] by {
                if i > 0 {
                    assert(y[i] == ys[i - 1]);
                }
            }
            assert(y =~= z);
        }
    } else {
        assert(y =~= z);
    }
}

/// Filling two fractions up with zeros to the same length keeps their order.
proof fn lemma_fraction_order(x: Seq<char>, y: Seq<char>, scale: nat)
    requires
        all_digits(x),
        all_digits(y),
        x.len() > 0 ==> x.last() != '0',
        y.len() > 0 ==> y.last() != '0',
        x.len() <= scale,
        y.len() <= scale,
    ensures
        lex_lt(x + zeros((scale - x.len()) as nat), y + zeros((scale - y.len()) as nat)) <==> lex_lt(
            x,
            y,
        ),
    decreases x.len(),
{
    let px = x + zeros((scale - x.len()) as nat);
    let py = y + zeros((scale - y.len()) as nat);
    if x.len() == 0 || y.len() == 0 {
        if x.len() == 0 {
            assert(px =~= zeros(scale));
            assert(py.len() == scale);
            assert forall|i: int| 0 <= i < py.len() implies is_digit(#[trigger] py[i]) by {
                if i < y.len() {
                    assert(py[i] == y[i]);
                }
            }
            lemma_zeros_first(py);
            if y.len() > 0 {
                assert(py[y.len() - 1] == y.last());
                assert(zeros(scale)[y.len() - 1] == '0');
            } else {
                assert(py =~= zeros(scale));
            }
        } else {
            assert(py =~= zeros(scale));
            assert(px.len() == scale);
            assert forall|i: int| 0 <= i < px.len() implies is_digit(#[trigger] px[i]) by {
                if i < x.len() {
                    assert(px[i] == x[i]);
                }
            }
            lemma_zeros_first(px);
        }
    } else {
        let xs = x.drop_first();
        let ys = y.drop_first();
        assert(px[0] == x[0] && py[0] == y[0]);
        if x[0] == y[0] {
            assert forall|i: int| 0 <= i < xs.len() implies is_digit(#[trigger] xs[i]) by {
                assert(xs[i] == x[i + 1]);
            }
            assert forall|i: int| 0 <= i < ys.len() implies is_digit(#[trigger] ys[i]) by {
                assert(ys[i] == y[i + 1]);
            }
            if xs.len() > 0 {
                assert(xs.last() == x.last());
            }
            if ys.len() > 0 {
                assert(ys.last() == y.last());
            }
            lemma_fraction_order(xs, ys, (scale - 1) as nat);
            assert(px.drop_first() =~= xs + zeros((scale - 1 - xs.len()) as nat));
            assert(py.drop_first() =~= ys + zeros((scale - 1 - ys.len()) as nat));
        }
    }
}

/// The order of magnitudes is the order of the numbers: of two decimal
/// numbers in normal form, one is nearer to zero than the other where,
/// counted in the same unit, it is the smaller of the two.
pub proof fn lemma_magnitude_is_value_order(a: Decimal, b: Decimal, scale: nat)
    requires
        a.is_normal(),
        b.is_normal(),
        a.fraction.len() <= scale,
        b.fraction.len() <= scale,
    ensures
        a.magnitude_lt(b) <==> a.scaled(scale) < b.scaled(scale),
{
    let fa = a.fraction + zeros((scale - a.fraction.len()) as nat);
    let fb = b.fraction + zeros((scale - b.fraction.len()) as nat);
    let pa = a.whole + fa;
    let pb = b.whole + fb;
    assert(pa =~= a.whole + a.fraction + zeros((scale - a.fraction.len()) as nat));
    assert(pb =~= b.whole + b.fraction + zeros((scale - b.fraction.len()) as nat));
    assert forall|i: int| 0 <= i < pa.len() implies is_digit(#[trigger] pa[i]) by {
        if i < a.whole.len() {
            assert(pa[i] == a.whole[i]);
        } else if i < a.whole.len() + a.fraction.len() {
            assert(pa[i] == a.fraction[i - a.whole.len()]);
        }
    }
    assert forall|i: int| 0 <= i < pb.len() implies is_digit(#[trigger] pb[i]) by {
        if i < b.whole.len() {
            assert(pb[i] == b.whole[i]);
        } else if i < b.whole.len() + b.fraction.len() {
            assert(pb[i] == b.fraction[i - b.whole.len()]);
        }
    }
    lemma_number_bounds(pa);
    lemma_number_bounds(pb);
    if a.whole.len() < b.whole.len() {
        assert(pb[0] == b.whole[0]);
        lemma_pow10_grows(pa.len(), (pb.len() - 1) as nat);
    } else if a.whole.len() > b.whole.len() {
        assert(pa[0] == a.whole[0]);
        lemma_pow10_grows(pb.len(), (pa.len() - 1) as nat);
        lemma_lex_lt_irreflexive(a.whole);
    } else {
        lemma_number_order(pa, pb);
        lemma_lex_lt_concat(a.whole, fa, b.whole, fb);
        lemma_fraction_order(a.fraction, b.fraction, scale);
    }
}

/// The count of leading zeros ends at the first digit that is not zero.
proof fn lemma_leading_zeros_end(s: Seq<char>)
    ensures
        leading_zeros(s) <= s.len(),
        leading_zeros(s) < s.len() ==> s[leading_zeros(s) as int] != '0',
    decreases s.len(),
{
    if s.len() > 0 && s[0] == '0' {
        lemma_leading_zeros_end(s.drop_first());
    }
}

/// The count of trailing zeros ends at the last digit that is not zero.
proof fn lemma_trailing_zeros_end(s: Seq<char>)
    ensures
        trailing_zeros(s) <= s.len(),
        trailing_zeros(s) < s.len() ==> s[s.len() - trailing_zeros(s) - 1] != '0',
    decreases s.len(),
{
    if s.len() > 0 && s.last() == '0' {
        lemma_trailing_zeros_end(s.drop_last());
    }
}

/// The number that a decimal text denotes is in normal form.
pub proof fn lemma_decimal_of_is_normal(text: Seq<char>)
    requires
        is_decimal(text),
    ensures
        decimal_of(text).is_normal(),
{
    let whole = whole_part(text);
    let fraction = fraction_part(text);
    let d = decimal_of(text);
    lemma_leading_zeros_end(whole);
    lemma_trailing_zeros_end(fraction);
    assert forall|i: int| 0 <= i < d.whole.len() implies is_digit(#[trigger] d.whole[i]) by {
        assert(d.whole[i] == whole[i + leading_zeros(whole)]);
    }
    assert forall|i: int| 0 <= i < d.fraction.len() implies is_digit(#[trigger] d.fraction[i]) by {
        assert(d.fraction[i] == fraction[i]);
    }
}

/// Zeros in front of digits do not change the number that they denote.
proof fn lemma_number_leading_zeros(k: nat, digits: Seq<char>)
    ensures
        number(zeros(k) + digits) == number(digits),
    decreases k,
{
    if k == 0 {
        assert(zeros(k) + digits =~= digits);
    } else {
        let all = zeros(k) + digits;
        assert(all.drop_first() =~= zeros((k - 1) as nat) + digits);
        assert(all[0] == '0');
        lemma_number_leading_zeros((k - 1) as nat, digits);
        assert(digit_value('0') * pow10((all.len() - 1) as nat) == 0) by (nonlinear_arith)
            requires
                digit_value('0') == 0,
        ;
    }
}

/// The number that a decimal text denotes has the value that the digits of
/// the text have: the zeros that were taken off do not count.
pub proof fn lemma_decimal_of_keeps_value(text: Seq<char>, scale: nat)
    requires
        is_decimal(text),
        fraction_part(text).len() <= scale,
    ensures
        decimal_of(text).scaled(scale) == number(
            whole_part(text) + fraction_part(text) + zeros(
                (scale - fraction_part(text).len()) as nat,
            ),
        ),
{
    let whole = whole_part(text);
    let fraction = fraction_part(text);
    let d = decimal_of(text);
    lemma_leading_zeros_end(whole);
    lemma_trailing_zeros_end(fraction);
    let k = leading_zeros(whole);
    let kept = d.whole + d.fraction + zeros((scale - d.fraction.len()) as nat);
    assert forall|i: int| 0 <= i < k implies whole[i] == '0' by {
        lemma_leading_zeros_prefix(whole, i);
    }
    assert forall|i: int| fraction.len() - trailing_zeros(fraction) <= i < fraction.len() implies fraction[i]
        == '0' by {
        lemma_trailing_zeros_suffix(fraction, i);
    }
    assert(whole + fraction + zeros((scale - fraction.len()) as nat) =~= zeros(k) + kept);
    lemma_number_leading_zeros(k, kept);
}

/// Each of the leading zeros is a zero.
proof fn lemma_leading_zeros_prefix(s: Seq<char>, i: int)
    requires
        0 <= i < leading_zeros(s),
    ensures
        i < s.len(),
        s[i] == '0',
    decreases s.len(),
{
    if i > 0 {
        lemma_leading_zeros_prefix(s.drop_first(), i - 1);
    }
}

/// Each of the trailing zeros is a zero.
proof fn lemma_trailing_zeros_suffix(s: Seq<char>, i: int)
    requires
        s.len() - trailing_zeros(s) <= i < s.len(),
    ensures
        0 <= i,
        s[i] == '0',
    decreases s.len(),
{
    if i < s.len() - 1 {
        lemma_trailing_zeros_suffix(s.drop_last(), i);
    }
}

/// Where `s` starts with `k` zeros and no more, `leading_zeros(s)` is `k`.
pub proof fn lemma_leading_zeros(s: Seq<char>, k: int)
    requires
        0 <= k <= s.len(),
        forall|i: int| 0 <= i < k ==> #[trigger] s[i] == '0',
        k < s.len() ==> s[k] != '0',
    ensures
        leading_zeros(s) == k,
    decreases s.len(),
{
    if k > 0 {
        lemma_leading_zeros(s.drop_first(), k - 1);
    }
}

/// Where `s` ends with `k` zeros and no more, `trailing_zeros(s)` is `k`.
pub proof fn lemma_trailing_zeros(s: Seq<char>, k: int)
    requires
        0 <= k <= s.len(),
        forall|i: int| s.len() - k <= i < s.len() ==> #[trigger] s[i] == '0',
        k < s.len() ==> s[s.len() - k - 1] != '0',
    ensures
        trailing_zeros(s) == k,
    decreases s.len(),
{
    if k > 0 {
        lemma_trailing_zeros(s.drop_last(), k - 1);
    }
}

/// Whether `chars[from..to]` holds digits only.
fn digits_only(chars: &Vec<char>, from: usize, to: usize) -> (r: bool)
    requires
        from <= to <= chars.len(),
    ensures
        r == all_digits(chars@.subrange(from as int, to as int)),
{
    let ghost part = chars@.subrange(from as int, to as int);
    let mut i: usize = from;
    while i < to
        invariant
            from <= i <= to <= chars.len(),
            part == chars@.subrange(from as int, to as int),
            forall|j: int| from <= j < i ==> is_digit(#[trigger] chars@[j]),
        decreases to - i,
    {
        let c: char = chars[i];
        if !('0' <= c && c <= '9') {
            assert(part[i - from] == chars@[i as int]);
            return false;
        }
        i = i + 1;
    }
    assert forall|j: int| 0 <= j < part.len() implies is_digit(#[trigger] part[j]) by {
        assert(part[j] == chars@[from + j]);
    }
    true
}

/// A copy of `chars[from..to]`.
fn copy_of(chars: &Vec<char>, from: usize, to: usize) -> (r: Vec<char>)
    requires
        from <= to <= chars.len(),
    ensures
        r@ == chars@.subrange(from as int, to as int),
{
    let mut out: Vec<char> = Vec::new();
    let mut i: usize = from;
    while i < to
        invariant
            from <= i <= to <= chars.len(),
            out@ == chars@.subrange(from as int, i as int),
        decreases to - i,
    {
        out.push(chars[i]);
        i = i + 1;
    }
    out
}

/// The index of the first character of `chars[from..to]` that is not `0`, or
/// `to` where there is none.
fn skip_zeros(chars: &Vec<char>, from: usize, to: usize) -> (first: usize)
    requires
        from <= to <= chars.len(),
    ensures
        from <= first <= to,
        first - from == leading_zeros(chars@.subrange(from as int, to as int)),
        chars@.subrange(first as int, to as int) == chars@.subrange(from as int, to as int).skip(
            first - from,
        ),
{
    let ghost part = chars@.subrange(from as int, to as int);
    let mut first: usize = from;
    while first < to && chars[first] == '0'
        invariant
            from <= first <= to <= chars.len(),
            forall|i: int| from <= i < first ==> #[trigger] chars@[i] == '0',
        decreases to - first,
    {
        first = first + 1;
    }
    proof {
        assert forall|i: int| 0 <= i < first - from implies #[trigger] part[i] == '0' by {
            assert(part[i] == chars@[from + i]);
        }
        lemma_leading_zeros(part, first - from);
    }
    first
}

/// The index after the last character of `chars[from..to]` that is not `0`,
/// or `from` where there is none.
fn drop_zeros(chars: &Vec<char>, from: usize, to: usize) -> (last: usize)
    requires
        from <= to <= chars.len(),
    ensures
        from <= last <= to,
        to - last == trailing_zeros(chars@.subrange(from as int, to as int)),
        chars@.subrange(from as int, last as int) == chars@.subrange(from as int, to as int).take(
            last - from,
        ),
{
    let ghost part = chars@.subrange(from as int, to as int);
    let mut last: usize = to;
    while from < last && chars[last - 1] == '0'
        invariant
            from <= last <= to <= chars.len(),
            forall|i: int| last <= i < to ==> #[trigger] chars@[i] == '0',
        decreases last - from,
    {
        last = last - 1;
    }
    proof {
        assert forall|i: int| part.len() - (to - last) <= i < part.len() implies #[trigger] part[i]
            == '0' by {
            assert(part[i] == chars@[from + i]);
        }
        lemma_trailing_zeros(part, to - last);
    }
    last
}

/// A quality value. Its view is the decimal number that it stands for.
pub struct Quality {
    negative: bool,
    whole: Vec<char>,
    fraction: Vec<char>,
}

impl View for Quality {
    type V = Decimal;

    closed spec fn view(&self) -> Decimal {
        Decimal { negative: self.negative, whole: self.whole@, fraction: self.fraction@ }
    }
}

impl Quality {
    #[verifier::type_invariant]
    spec fn well_formed(&self) -> bool {
        self@.is_normal()
    }

    /// Reads a quality value: `None` unless `text` is a decimal number.
    pub fn parse(text: &str) -> (r: Option<Quality>)
        ensures
            r is Some <==> is_decimal(text@),
            r matches Some(q) ==> q@ == decimal_of(text@) && q@.is_normal(),
    {
        let chars = chars_of(text);
        let len = chars.len();
        let negative = len > 0 && chars[0] == '-';
        let start: usize = if len > 0 && (chars[0] == '+' || chars[0] == '-') {
            1
        } else {
            0
        };
        let ghost unsigned = text@.skip(start as int);
        assert(unsigned == chars@.subrange(start as int, len as int));
        let point = find_in(&chars, start, len, '.');
        let ghost whole = chars@.subrange(start as int, point as int);
        assert(whole == whole_part(text@));
        let fraction_from: usize = if point < len {
            point + 1
        } else {
            len
        };
        let ghost fraction = chars@.subrange(fraction_from as int, len as int);
        assert(fraction == fraction_part(text@));
        if !digits_only(&chars, start, point) || !digits_only(&chars, fraction_from, len) {
            return None;
        }
        if point - start + (len - fraction_from) == 0 {
            return None;
        }
        let first = skip_zeros(&chars, start, point);
        let last = drop_zeros(&chars, fraction_from, len);
        proof {
            lemma_decimal_of_is_normal(text@);
        }
        Some(
            Quality {
                negative,
                whole: copy_of(&chars, first, point),
                fraction: copy_of(&chars, fraction_from, last),
            },
        )
    }

    /// Whether the value is greater than zero.
    pub fn is_positive(&self) -> (r: bool)
        ensures
            r == self@.is_positive(),
            self@.is_normal(),
    {
        proof {
            use_type_invariant(self);
        }
        !self.negative && (self.whole.len() > 0 || self.fraction.len() > 0)
    }

    /// Whether the value is nearer to zero than `other` is.
    pub fn magnitude_lt(&self, other: &Quality) -> (r: bool)
        ensures
            r == self@.magnitude_lt(other@),
            self@.is_normal() && other@.is_normal(),
    {
        proof {
            use_type_invariant(self);
            use_type_invariant(other);
            lemma_lex_lt_total(self.whole@, other.whole@);
            lemma_lex_lt_irreflexive(self.whole@);
        }
        if self.whole.len() != other.whole.len() {
            self.whole.len() < other.whole.len()
        } else if lex_less(&self.whole, &other.whole) {
            true
        } else if lex_less(&other.whole, &self.whole) {
            false
        } else {
            lex_less(&self.fraction, &other.fraction)
        }
    }
}

} // verus!
