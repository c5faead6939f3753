//! Exact amounts of money and their decimal notation.

use crate::text::chars_of;
use vstd::prelude::*;

verus! {

/// The number of decimal places an amount keeps.
pub const SCALE_DIGITS: usize = 6;

/// The number of units that make up one whole: ten to the power
/// `SCALE_DIGITS`.
pub const SCALE: u64 = 1_000_000;

/// An amount of money, held exactly as a number of millionths.
#[derive(Clone, Copy, Debug, PartialEq, Eq, Structural, PartialOrd, Ord, Hash)]
pub struct Amount {
    pub micros: u64,
}

/// Whether `c` is one of the digits `0` to `9`.
pub open spec fn is_digit(c: char) -> bool {
    '0' <= c && c <= '9'
}

/// The number that the digit `c` stands for; 0 for any other character.
pub open spec fn digit_value(c: char) -> nat {
    if is_digit(c) {
        (c as u8 - 48) as nat
    } else {
        0
    }
}

/// The digit that stands for `n % 10`.
pub open spec fn digit_char(n: nat) -> char {
    ((n % 10) as u8 + 48) as char
}

/// Whether every character of `s` is a digit.
pub open spec fn all_digits(s: Seq<char>) -> bool {
    forall|i: int| 0 <= i < s.len() ==> is_digit(#[trigger] s[i])
}

/// Ten to the power `n`.
pub open spec fn pow10(n: nat) -> nat
    decreases n,
{
    if n == 0 {
        1
    } else {
        10 * pow10((n - 1) as nat)
    }
}

/// The number that a string of digits denotes in base ten; 0 for the empty
/// string.
pub open spec fn digits_value(s: Seq<char>) -> nat
    decreases s.len(),
{
    if s.len() == 0 {
        0
    } else {
        digits_value(s.drop_last()) * 10 + digit_value(s.last())
    }
}

/// The length of the run of digits that `s` starts with.
pub open spec fn digit_run(s: Seq<char>) -> nat
    decreases s.len(),
{
    if s.len() > 0 && is_digit(s[0]) {
        1 + digit_run(s.drop_first())
    } else {
        0
    }
}

/// `t` without its leading plus sign, if it has one.
pub open spec fn unsigned(t: Seq<char>) -> Seq<char> {
    if t.len() > 0 && t[0] == '+' {
        t.drop_first()
    } else {
        t
    }
}

/// The digits before the decimal point of the numeral `u`.
pub open spec fn whole_digits(u: Seq<char>) -> Seq<char> {
    u.take(digit_run(u) as int)
}

/// What follows the digits before the decimal point.
pub open spec fn after_whole(u: Seq<char>) -> Seq<char> {
    u.skip(digit_run(u) as int)
}

/// Whether a decimal point follows the digits that `u` starts with.
pub open spec fn has_point(u: Seq<char>) -> bool {
    after_whole(u).len() > 0 && after_whole(u)[0] == '.'
}

/// What follows the decimal point, where `u` has one.
pub open spec fn after_point(u: Seq<char>) -> Seq<char> {
    after_whole(u).drop_first()
}

/// The digits after the decimal point; none where `u` has no point.
pub open spec fn fraction_digits(u: Seq<char>) -> Seq<char> {
    if has_point(u) {
        after_point(u).take(digit_run(after_point(u)) as int)
    } else {
        Seq::empty()
    }
}

/// What follows the digits and the point: nothing, or the exponent.
pub open spec fn after_mantissa(u: Seq<char>) -> Seq<char> {
    if has_point(u) {
        after_point(u).skip(digit_run(after_point(u)) as int)
    } else {
        after_whole(u)
    }
}

/// Whether the exponent `tail` has a sign after its `e`.
pub open spec fn exponent_is_signed(tail: Seq<char>) -> bool {
    tail.len() > 1 && (tail[1] == '+' || tail[1] == '-')
}

/// The digits of the exponent `tail`.
pub open spec fn exponent_digits(tail: Seq<char>) -> Seq<char> {
    if exponent_is_signed(tail) {
        tail.skip(2)
    } else {
        tail.skip(1)
    }
}

/// Whether `tail` is an exponent: `e` or `E`, an optional sign, and one
/// digit or more.
pub open spec fn is_exponent(tail: Seq<char>) -> bool {
    &&& tail.len() > 0
    &&& tail[0] == 'e' || tail[0] == 'E'
    &&& exponent_digits(tail).len() > 0
    &&& all_digits(exponent_digits(tail))
}

/// The power of ten that the exponent `tail` stands for; zero for the
/// empty one.
pub open spec fn exponent_value(tail: Seq<char>) -> int {
    if tail.len() == 0 {
        0
    } else if exponent_is_signed(tail) && tail[1] == '-' {
        -(digits_value(exponent_digits(tail)) as int)
    } else {
        digits_value(exponent_digits(tail)) as int
    }
}

/// The size of the exponent `tail`, sign aside.
pub open spec fn exponent_size(tail: Seq<char>) -> nat {
    if tail.len() == 0 {
        0
    } else {
        digits_value(exponent_digits(tail))
    }
}

/// Whether `u` is a numeral without sign: digits, of which some may follow
/// a decimal point, with a digit on at least one side of the point, and
/// optionally an exponent.
pub open spec fn is_numeral(u: Seq<char>) -> bool {
    &&& whole_digits(u).len() + fraction_digits(u).len() > 0
    &&& after_mantissa(u).len() == 0 || is_exponent(after_mantissa(u))
}

/// The number that `digits` denote, times ten to the power `shift`, as a
/// whole number: where `shift` is below zero, the nearest one, and of two
/// that are as near the one above.
pub open spec fn shifted_value(digits: Seq<char>, shift: int) -> nat {
    if shift >= 0 {
        digits_value(digits) * pow10(shift as nat)
    } else {
        ((digits_value(digits) + pow10((-shift) as nat) / 2) / pow10((-shift) as nat)) as nat
    }
}

/// The power of ten by which the digits of `u`, read as one number, give
/// its value in millionths.
pub open spec fn shift_of(u: Seq<char>) -> int {
    SCALE_DIGITS + exponent_value(after_mantissa(u)) - fraction_digits(u).len()
}

/// The value of the numeral `u` in millionths, to the nearest millionth.
pub open spec fn numeral_micros(u: Seq<char>) -> nat {
    shifted_value(whole_digits(u) + fraction_digits(u), shift_of(u))
}

/// The amount that `t` denotes: `t` is a numeral with or without a plus
/// sign before it, and its value to the nearest millionth is within the
/// range of an amount.
pub open spec fn amount_of(t: Seq<char>) -> Option<Amount> {
    if is_numeral(unsigned(t)) && numeral_micros(unsigned(t)) <= u64::MAX {
        Some(Amount { micros: numeral_micros(unsigned(t)) as u64 })
    } else {
        None
    }
}

/// The decimal digits of `n`, without leading zeros.
pub open spec fn digits_of(n: nat) -> Seq<char>
    decreases n,
{
    if n < 10 {
        seq![digit_char(n)]
    } else {
        digits_of(n / 10).push(digit_char(n))
    }
}

/// The last `width` decimal digits of `n`, with leading zeros.
pub open spec fn fixed_digits(n: nat, width: nat) -> Seq<char>
    decreases width,
{
    if width == 0 {
        Seq::empty()
    } else {
        fixed_digits(n / 10, (width - 1) as nat).push(digit_char(n))
    }
}

/// The last `width` decimal digits of `n` without their trailing zeros.
pub open spec fn trimmed_digits(n: nat, width: nat) -> Seq<char>
    decreases width,
{
    if width == 0 {
        Seq::empty()
    } else if n % 10 == 0 {
        trimmed_digits(n / 10, (width - 1) as nat)
    } else {
        fixed_digits(n, width)
    }
}

/// The shortest decimal numeral of `a`: the whole part, and after a point
/// the fraction without trailing zeros where it is not zero.
pub open spec fn amount_text(a: Amount) -> Seq<char> {
    let whole = digits_of((a.micros / SCALE) as nat);
    if a.micros % SCALE == 0 {
        whole
    } else {
        whole + seq!['.'] + trimmed_digits((a.micros % SCALE) as nat, SCALE_DIGITS as nat)
    }
}

/// The powers of ten up to a million.
pub proof fn lemma_pow10_values()
    ensures
        pow10(0) == 1,
        pow10(1) == 10,
        pow10(2) == 100,
        pow10(3) == 1_000,
        pow10(4) == 10_000,
        pow10(5) == 100_000,
        pow10(6) == 1_000_000,
{
    assert(pow10(1) == 10 * pow10(0));
}

/// A numeral is worth at least as much as any of its prefixes.
pub proof fn lemma_digits_value_prefix(s: Seq<char>, k: int)
    requires
        0 <= k <= s.len(),
    ensures
        digits_value(s.take(k)) <= digits_value(s),
    decreases s.len(),
{
    if k == s.len() {
        assert(s.take(k) =~= s);
    } else {
        lemma_digits_value_prefix(s.drop_last(), k);
        assert(s.drop_last().take(k) =~= s.take(k));
    }
}

/// A numeral of `n` digits is worth less than ten to the power `n`.
pub proof fn lemma_digits_value_bound(s: Seq<char>)
    ensures
        digits_value(s) < pow10(s.len()),
    decreases s.len(),
{
    if s.len() > 0 {
        lemma_digits_value_bound(s.drop_last());
    }
}

/// The run of digits that `s` starts with ends at `k`.
pub proof fn lemma_digit_run(s: Seq<char>, k: int)
    requires
        0 <= k <= s.len(),
        forall|j: int| 0 <= j < k ==> is_digit(#[trigger] s[j]),
        k < s.len() ==> !is_digit(s[k]),
    ensures
        digit_run(s) == k,
    decreases k,
{
    if k > 0 {
        lemma_digit_run(s.drop_first(), k - 1);
    }
}

/// The digit for `n` stands for the last decimal digit of `n`.
pub proof fn lemma_digit_char(n: nat)
    ensures
        is_digit(digit_char(n)),
        digit_value(digit_char(n)) == n % 10,
{
    let d = (n % 10) as u8;
    assert(0 <= d <= 9);
    assert(digit_char(n) == (d + 48) as char);
    assert(((d + 48) as char) as u8 == d + 48);
}

/// The digits of `n` are digits, at least one, and denote `n`.
pub proof fn lemma_digits_of(n: nat)
    ensures
        digits_of(n).len() >= 1,
        all_digits(digits_of(n)),
        digits_value(digits_of(n)) == n,
    decreases n,
{
    let s = digits_of(n);
    lemma_digit_char(n);
    if n < 10 {
        assert(s.drop_last() =~= Seq::<char>::empty());
        assert(digits_value(s.drop_last()) == 0);
    } else {
        lemma_digits_of(n / 10);
        assert(s.drop_last() =~= digits_of(n / 10));
    }
    assert(s.last() == digit_char(n));
}

/// The last `width` digits of a number below ten to the power `width` are
/// `width` digits and denote the number.
pub proof fn lemma_fixed_digits(n: nat, width: nat)
    requires
        n < pow10(width),
    ensures
        fixed_digits(n, width).len() == width,
        all_digits(fixed_digits(n, width)),
        digits_value(fixed_digits(n, width)) == n,
    decreases width,
{
    let s = fixed_digits(n, width);
    if width > 0 {
        lemma_fixed_digits(n / 10, (width - 1) as nat);
        assert(s.drop_last() =~= fixed_digits(n / 10, (width - 1) as nat));
    }
}

/// The trimmed digits of a number between zero and ten to the power `width`
/// are digits, at least one and at most `width`, and denote the number when
/// the zeros that were trimmed are counted in.
pub proof fn lemma_trimmed_digits(n: nat, width: nat)
    requires
        0 < n < pow10(width),
    ensures
        0 < trimmed_digits(n, width).len() <= width,
        all_digits(trimmed_digits(n, width)),
        digits_value(trimmed_digits(n, width)) * pow10(
            (width - trimmed_digits(n, width).len()) as nat,
        ) == n,
    decreases width,
{
    if n % 10 == 0 {
        lemma_trimmed_digits(n / 10, (width - 1) as nat);
        let t = trimmed_digits(n / 10, (width - 1) as nat);
        let v = digits_value(t);
        let p = pow10((width - 1 - t.len()) as nat);
        assert(v * (10 * p) == 10 * (v * p)) by (nonlinear_arith);
    } else {
        lemma_fixed_digits(n, width);
        let t = fixed_digits(n, width);
        assert(pow10((width - t.len()) as nat) == 1);
    }
}

/// The digits of two strings in a row denote the number of the first,
/// moved left by the length of the second, plus the number of the second.
pub proof fn lemma_digits_value_concat(a: Seq<char>, b: Seq<char>)
    ensures
        digits_value(a + b) == digits_value(a) * pow10(b.len()) + digits_value(b),
    decreases b.len(),
{
    if b.len() == 0 {
        assert(digits_value(a) * 1 == digits_value(a));
    } else {
        let shorter = b.drop_last();
        lemma_digits_value_concat(a, shorter);
        assert((a + b).drop_last() =~= a + shorter);
        let x = digits_value(a);
        let p = pow10(shorter.len());
        assert((x * p + digits_value(shorter)) * 10 == x * (10 * p) + digits_value(shorter) * 10)
            by (nonlinear_arith);
    }
}

/// Rounding to the nearest multiple of a power of ten looks at the first
/// digit that is cut off: of a number that is `head` times ten to the power
/// `m` plus a rest below that power, the nearest multiple is `head`, or one
/// more where the rest is at least half the power.
pub proof fn lemma_round_half_up(head: nat, rest: nat, m: nat)
    requires
        m >= 1,
        rest < pow10(m),
    ensures
        pow10(m) == 10 * pow10((m - 1) as nat),
        (head * pow10(m) + rest + pow10(m) / 2) / pow10(m) == head + (if rest >= 5 * pow10(
            (m - 1) as nat,
        ) {
            1nat
        } else {
            0nat
        }),
{
    let p = pow10(m) as int;
    let half = 5 * pow10((m - 1) as nat) as int;
    let x = head * p + rest + half;
    if rest >= half {
        assert(x == (head + 1) * p + (rest - half)) by (nonlinear_arith)
            requires
                x == head * p + rest + half,
                p == 2 * half,
        ;
        vstd::arithmetic::div_mod::lemma_fundamental_div_mod_converse(
            x,
            p,
            head as int + 1,
            rest - half,
        );
    } else {
        vstd::arithmetic::div_mod::lemma_fundamental_div_mod_converse(
            x,
            p,
            head as int,
            rest + half,
        );
    }
}

/// What is cut off from a number when it is moved right by `m` digits: the
/// digit `s[at]` is the first of the `m` digits cut off from `s`, and the
/// digits before it are what is kept.
pub proof fn lemma_shifted_value_cut(s: Seq<char>, at: int)
    requires
        all_digits(s),
        0 <= at < s.len(),
    ensures
        shifted_value(s, at - s.len()) == digits_value(s.take(at)) + (if digit_value(s[at])
            >= 5 {
            1nat
        } else {
            0nat
        }),
{
    let m = (s.len() - at) as nat;
    let head = s.take(at);
    let tail = s.skip(at);
    let lower = tail.drop_first();
    assert(s =~= head + tail);
    lemma_digits_value_concat(head, tail);
    assert(tail =~= seq![tail[0]] + lower);
    lemma_digits_value_concat(seq![tail[0]], lower);
    assert(digits_value(seq![tail[0]].drop_last()) == 0);
    lemma_digits_value_bound(lower);
    lemma_digits_value_bound(tail);
    let first = digit_value(s[at]);
    let unit = pow10((m - 1) as nat);
    lemma_round_half_up(digits_value(head), digits_value(tail), m);
    if first >= 5 {
        assert(first * unit >= 5 * unit) by (nonlinear_arith)
            requires
                first >= 5,
        ;
    } else {
        assert(first * unit <= 4 * unit) by (nonlinear_arith)
            requires
                first <= 4,
        ;
    }
}

/// A number moved right by more digits than it has is rounded to zero.
pub proof fn lemma_shifted_value_gone(s: Seq<char>, m: nat)
    requires
        m > s.len(),
    ensures
        shifted_value(s, -(m as int)) == 0,
{
    lemma_digits_value_bound(s);
    lemma_pow10_monotonic(s.len(), (m - 1) as nat);
    lemma_round_half_up(0, digits_value(s), m);
}

/// A numeral above the range of a `u64` has twenty digits or more.
pub proof fn lemma_digits_of_large(s: Seq<char>)
    requires
        digits_value(s) > u64::MAX,
    ensures
        s.len() >= 20,
{
    lemma_digits_value_bound(s);
    if s.len() < 20 {
        lemma_pow10_monotonic(s.len(), 19);
        lemma_pow10_19();
    }
}

/// Ten to the power nineteen, and twenty.
pub proof fn lemma_pow10_19()
    ensures
        pow10(19) == 10_000_000_000_000_000_000,
        pow10(20) == 100_000_000_000_000_000_000,
{
    lemma_pow10_values();
    assert(pow10(8) == 10 * pow10(7));
    assert(pow10(9) == 10 * pow10(8));
    assert(pow10(10) == 10 * pow10(9));
    assert(pow10(11) == 10 * pow10(10));
    assert(pow10(12) == 10 * pow10(11));
    assert(pow10(13) == 10 * pow10(12));
    assert(pow10(14) == 10 * pow10(13));
    assert(pow10(15) == 10 * pow10(14));
    assert(pow10(16) == 10 * pow10(15));
    assert(pow10(17) == 10 * pow10(16));
    assert(pow10(18) == 10 * pow10(17));
}

/// Powers of ten multiply by adding their exponents.
pub proof fn lemma_pow10_add(a: nat, b: nat)
    ensures
        pow10(a + b) == pow10(a) * pow10(b),
    decreases b,
{
    if b == 0 {
        assert(pow10(a) * 1 == pow10(a));
    } else {
        lemma_pow10_add(a, (b - 1) as nat);
        assert(pow10(a) * (10 * pow10((b - 1) as nat)) == 10 * (pow10(a) * pow10((b - 1) as nat)))
            by (nonlinear_arith);
    }
}

/// Reading the numeral of an amount gives the amount back. The numeral is
/// not empty and holds only digits and at most one point.
pub proof fn lemma_amount_text_round_trip(a: Amount)
    ensures
        amount_of(amount_text(a)) == Some(a),
        amount_text(a).len() > 0,
        forall|i: int|
            0 <= i < amount_text(a).len() ==> is_digit(#[trigger] amount_text(a)[i])
                || amount_text(a)[i] == '.',
{
    let whole = (a.micros / SCALE) as nat;
    let w = digits_of(whole);
    let f = (a.micros % SCALE) as nat;
    let t = amount_text(a);
    lemma_digits_of(whole);
    lemma_pow10_values();
    assert(a.micros == whole * SCALE + f);
    if f == 0 {
        lemma_digit_run(t, t.len() as int);
        assert(whole_digits(t) =~= w);
    } else {
        let d = trimmed_digits(f, SCALE_DIGITS as nat);
        lemma_trimmed_digits(f, SCALE_DIGITS as nat);
        lemma_digit_run(t, w.len() as int);
        assert(whole_digits(t) =~= w);
        assert(after_point(t) =~= d);
        lemma_digit_run(d, d.len() as int);
        assert(fraction_digits(t) =~= d);
        let gap = (SCALE_DIGITS - d.len()) as nat;
        lemma_digits_value_concat(w, d);
        lemma_pow10_add(d.len(), gap);
        let p = pow10(d.len());
        let q = pow10(gap);
        let v = digits_value(d);
        assert((whole * p + v) * q == whole * (p * q) + v * q) by (nonlinear_arith);
    }
}

/// Where the digits and the point of a numeral were found in a text.
pub(crate) struct Mantissa {
    /// The end of the digits before the point.
    pub point: usize,
    /// The start of the digits after the point.
    pub start: usize,
    /// The end of the digits after the point.
    pub end: usize,
}

/// An exponent as read: its sign, and its size where that is within the
/// range of a `u64`.
pub(crate) struct Exponent {
    pub negative: bool,
    pub magnitude: Option<u64>,
}

impl Exponent {
    /// Whether this is what the exponent `tail` reads as.
    pub(crate) open spec fn is_read_from(self, tail: Seq<char>) -> bool {
        &&& tail.len() == 0 || is_exponent(tail)
        &&& self.negative == (exponent_value(tail) < 0)
        &&& self.magnitude is Some <==> exponent_size(tail) <= u64::MAX
        &&& self.magnitude is Some ==> self.magnitude->0 == exponent_size(tail)
    }
}

/// Finds the digits and the point of the numeral that starts at `from`.
pub(crate) fn read_mantissa(cs: &Vec<char>, from: usize) -> (m: Mantissa)
    requires
        from <= cs.len(),
    ensures
        from <= m.point <= m.start <= m.end <= cs.len(),
        whole_digits(cs@.skip(from as int)) == cs@.subrange(from as int, m.point as int),
        fraction_digits(cs@.skip(from as int)) == cs@.subrange(m.start as int, m.end as int),
        after_mantissa(cs@.skip(from as int)) == cs@.skip(m.end as int),
        all_digits(cs@.subrange(from as int, m.point as int)),
        all_digits(cs@.subrange(m.start as int, m.end as int)),
{
    let n = cs.len();
    let ghost u = cs@.skip(from as int);
    let point = digits_end(cs, from);
    proof {
        lemma_digit_run(u, point - from);
    }
    if point < n && cs[point] == '.' {
        let start = point + 1;
        let end = digits_end(cs, start);
        proof {
            let rest = after_point(u);
            lemma_digit_run(rest, end - start);
        }
        Mantissa { point, start, end }
    } else {
        Mantissa { point, start: point, end: point }
    }
}

/// Reads the exponent that starts at `from`, where there is one.
pub(crate) fn read_exponent(cs: &Vec<char>, from: usize) -> (r: Option<Exponent>)
    requires
        from < cs.len(),
    ensures
        r is Some <==> is_exponent(cs@.skip(from as int)),
        r is Some ==> r->0.is_read_from(cs@.skip(from as int)),
{
    let n = cs.len();
    let ghost tail = cs@.skip(from as int);
    if cs[from] != 'e' && cs[from] != 'E' {
        return None;
    }
    let signed = from + 1 < n && (cs[from + 1] == '+' || cs[from + 1] == '-');
    let minus = signed && cs[from + 1] == '-';
    let at: usize = if signed {
        from + 2
    } else {
        from + 1
    };
    let ghost digits = exponent_digits(tail);
    assert(digits =~= cs@.subrange(at as int, n as int));
    let stop = digits_end(cs, at);
    if stop < n {
        assert(digits[stop - at] == cs[stop as int]);
        return None;
    }
    if at == n {
        return None;
    }
    let magnitude = number_in(cs, at, n, u64::MAX);
    let negative = minus && !matches!(magnitude, Some(0));
    Some(Exponent { negative, magnitude })
}

impl Amount {
    /// Reads a decimal numeral, to the nearest millionth.
    pub fn parse(token: &str) -> (r: Option<Amount>)
        ensures
            r == amount_of(token@),
    {
        let cs = chars_of(token);
        let n = cs.len();
        let from: usize = if n > 0 && cs[0] == '+' {
            1
        } else {
            0
        };
        let ghost u = unsigned(token@);
        assert(u =~= cs@.skip(from as int));
        let m = read_mantissa(&cs, from);
        if m.point - from == 0 && m.end - m.start == 0 {
            return None;
        }
        let exponent = if m.end < n {
            match read_exponent(&cs, m.end) {
                Some(exponent) => exponent,
                None => { return None; },
            }
        } else {
            Exponent { negative: false, magnitude: Some(0) }
        };
        assert(is_numeral(u));
        let digits = two_ranges(&cs, from, m.point, m.start, m.end);
        assert(digits@ == whole_digits(u) + fraction_digits(u));
        assert(all_digits(digits@)) by {
            assert forall|j: int| 0 <= j < digits.len() implies is_digit(#[trigger] digits[j]) by {
                let w = cs@.subrange(from as int, m.point as int);
                let f = cs@.subrange(m.start as int, m.end as int);
                if j < w.len() {
                    assert(digits[j] == w[j]);
                } else {
                    assert(digits[j] == f[j - w.len()]);
                }
            }
        }
        let micros = place(&digits, m.end - m.start, &exponent, Ghost(cs@.skip(m.end as int)));
        match micros {
            Some(micros) => Some(Amount { micros }),
            None => None,
        }
    }

    /// Writes the shortest decimal numeral of the amount.
    pub fn to_text(&self) -> (s: String)
        ensures
            s@ == amount_text(*self),
    {
        let mut s = String::new();
        push_digits(self.micros / SCALE, &mut s);
        let fraction = self.micros % SCALE;
        if fraction != 0 {
            s.push('.');
            push_trimmed(fraction, SCALE_DIGITS, &mut s);
        }
        s
    }
}

/// The powers of ten grow, from one.
pub proof fn lemma_pow10_monotonic(a: nat, b: nat)
    requires
        a <= b,
    ensures
        pow10(a) <= pow10(b),
        pow10(a) >= 1,
    decreases b,
{
    if a < b {
        lemma_pow10_monotonic(a, (b - 1) as nat);
    } else if a > 0 {
        lemma_pow10_monotonic((a - 1) as nat, (b - 1) as nat);
    }
}

/// Whether `c` is a decimal digit.
pub(crate) fn is_decimal_digit(c: char) -> (b: bool)
    ensures
        b == is_digit(c),
{
    c >= '0' && c <= '9'
}

/// The end of the run of digits that starts at `start`.
pub(crate) fn digits_end(cs: &Vec<char>, start: usize) -> (end: usize)
    requires
        start <= cs.len(),
    ensures
        start <= end <= cs.len(),
        forall|j: int| start <= j < end ==> is_digit(#[trigger] cs[j]),
        end < cs.len() ==> !is_digit(cs[end as int]),
{
    let mut end: usize = start;
    while end < cs.len() && is_decimal_digit(cs[end])
        invariant
            start <= end <= cs.len(),
            forall|j: int| start <= j < end ==> is_digit(#[trigger] cs[j]),
        decreases cs.len() - end,
    {
        end += 1;
    }
    end
}

/// The number that the digits `cs[from..to]` denote, where it is at most
/// `limit`.
pub(crate) fn number_in(cs: &Vec<char>, from: usize, to: usize, limit: u64) -> (r: Option<u64>)
    requires
        from <= to <= cs.len(),
        forall|j: int| from <= j < to ==> is_digit(#[trigger] cs[j]),
    ensures
        r is Some <==> digits_value(cs@.subrange(from as int, to as int)) <= limit,
        r is Some ==> r->0 == digits_value(cs@.subrange(from as int, to as int)),
{
    let ghost all = cs@.subrange(from as int, to as int);
    let mut value: u64 = 0;
    let mut i: usize = from;
    while i < to
        invariant
            from <= i <= to <= cs.len(),
            all == cs@.subrange(from as int, to as int),
            forall|j: int| from <= j < to ==> is_digit(#[trigger] cs[j]),
            value == digits_value(cs@.subrange(from as int, i as int)),
            value <= limit,
        decreases to - i,
    {
        let ghost now = cs@.subrange(from as int, i + 1);
        assert(now.drop_last() =~= cs@.subrange(from as int, i as int));
        assert(now =~= all.take(i + 1 - from));
        proof {
            lemma_digits_value_prefix(all, i + 1 - from);
        }
        let c = cs[i];
        let d: u64 = (c as u8 - 48) as u64;
        if d > limit || value > (limit - d) / 10 {
            return None;
        }
        value = value * 10 + d;
        i += 1;
    }
    Some(value)
}

/// The characters `cs[a..b]` followed by the characters `cs[c..d]`.
pub(crate) fn two_ranges(cs: &Vec<char>, a: usize, b: usize, c: usize, d: usize) -> (r: Vec<char>)
    requires
        a <= b <= cs.len(),
        c <= d <= cs.len(),
    ensures
        r@ == cs@.subrange(a as int, b as int) + cs@.subrange(c as int, d as int),
{
    let mut r: Vec<char> = Vec::new();
    let mut i: usize = a;
    while i < b
        invariant
            a <= i <= b <= cs.len(),
            r@ == cs@.subrange(a as int, i as int),
        decreases b - i,
    {
        r.push(cs[i]);
        i += 1;
    }
    let mut j: usize = c;
    while j < d
        invariant
            c <= j <= d <= cs.len(),
            r@ == cs@.subrange(a as int, b as int) + cs@.subrange(c as int, j as int),
        decreases d - j,
    {
        r.push(cs[j]);
        j += 1;
    }
    r
}

/// The number that `digits` denote, times ten to the power `shift`, to the
/// nearest whole number, where that is within the range of a `u64`.
pub(crate) fn scaled(digits: &Vec<char>, shift: i128) -> (r: Option<u64>)
    requires
        all_digits(digits@),
        -0x100_0000_0000_0000_0000 < shift < 0x100_0000_0000_0000_0000,
    ensures
        r is Some <==> shifted_value(digits@, shift as int) <= u64::MAX,
        r is Some ==> r->0 == shifted_value(digits@, shift as int),
{
    let len = digits.len();
    assert(digits@.subrange(0, len as int) =~= digits@);
    if shift >= 0 {
        proof {
            lemma_pow10_monotonic(0, shift as nat);
        }
        let mut value = match number_in(digits, 0, len, u64::MAX) {
            Some(value) => value,
            None => {
                assert(digits_value(digits@) * pow10(shift as nat) > u64::MAX)
                    by (nonlinear_arith)
                    requires
                        digits_value(digits@) > u64::MAX,
                        pow10(shift as nat) >= 1,
                ;
                return None;
            },
        };
        if value == 0 {
            return Some(0);
        }
        if shift > 19 {
            proof {
                lemma_pow10_monotonic(20, shift as nat);
                lemma_pow10_19();
                assert(value * pow10(shift as nat) >= pow10(20)) by (nonlinear_arith)
                    requires
                        value >= 1,
                        pow10(shift as nat) >= pow10(20),
                ;
            }
            return None;
        }
        let ghost start = value;
        let mut k: i128 = 0;
        assert(start * 1 == start);
        while k < shift
            invariant
                0 <= k <= shift <= 19,
                start >= 1,
                start == digits_value(digits@),
                value == start * pow10(k as nat),
            decreases shift - k,
        {
            proof {
                lemma_pow10_monotonic((k + 1) as nat, shift as nat);
                assert(start * (10 * pow10(k as nat)) == 10 * (start * pow10(k as nat)))
                    by (nonlinear_arith);
                assert(start * pow10((k + 1) as nat) <= start * pow10(shift as nat))
                    by (nonlinear_arith)
                    requires
                        pow10((k + 1) as nat) <= pow10(shift as nat),
                ;
            }
            if value > u64::MAX / 10 {
                return None;
            }
            value = value * 10;
            k += 1;
        }
        Some(value)
    } else {
        if -shift > len as i128 {
            proof {
                lemma_shifted_value_gone(digits@, (-shift) as nat);
            }
            return Some(0);
        }
        let at: usize = (len as i128 + shift) as usize;
        proof {
            lemma_shifted_value_cut(digits@, at as int);
        }
        let head = match number_in(digits, 0, at, u64::MAX) {
            Some(head) => head,
            None => { return None; },
        };
        if digits[at] >= '5' {
            if head == u64::MAX {
                None
            } else {
                Some(head + 1)
            }
        } else {
            Some(head)
        }
    }
}

/// The value in millionths of a numeral whose digits are `digits`, the last
/// `fraction` of them after the point, and whose exponent is `exponent`.
pub(crate) fn place(
    digits: &Vec<char>,
    fraction: usize,
    exponent: &Exponent,
    Ghost(tail): Ghost<Seq<char>>,
) -> (r: Option<u64>)
    requires
        all_digits(digits@),
        fraction <= digits.len(),
        digits.len() + tail.len() <= usize::MAX,
        exponent.is_read_from(tail),
    ensures
        r is Some <==> shifted_value(digits@, SCALE_DIGITS + exponent_value(tail) - fraction)
            <= u64::MAX,
        r is Some ==> r->0 == shifted_value(
            digits@,
            SCALE_DIGITS + exponent_value(tail) - fraction,
        ),
{
    let ghost shift = SCALE_DIGITS + exponent_value(tail) - fraction;
    match exponent.magnitude {
        Some(size) => {
            let power: i128 = if exponent.negative {
                -(size as i128)
            } else {
                size as i128
            };
            scaled(digits, 6 + power - (fraction as i128))
        },
        None => {
            proof {
                lemma_digits_of_large(exponent_digits(tail));
            }
            if exponent.negative {
                proof {
                    lemma_shifted_value_gone(digits@, (-shift) as nat);
                }
                Some(0)
            } else {
                let zero = number_in(digits, 0, digits.len(), 0);
                proof {
                    let value = digits_value(digits@);
                    assert(digits@.subrange(0, digits.len() as int) =~= digits@);
                    if value == 0 {
                        assert(0 * pow10(shift as nat) == 0);
                    } else {
                        lemma_pow10_monotonic(20, shift as nat);
                        lemma_pow10_19();
                        assert(value * pow10(shift as nat) >= pow10(20)) by (nonlinear_arith)
                            requires
                                value >= 1,
                                pow10(shift as nat) >= pow10(20),
                        ;
                    }
                }
                zero
            }
        },
    }
}

/// Appends the decimal digits of `n` to `out`.
pub(crate) fn push_digits(n: u64, out: &mut String)
    ensures
        final(out)@ == old(out)@ + digits_of(n as nat),
    decreases n,
{
    if n >= 10 {
        push_digits(n / 10, out);
    }
    out.push(((n % 10) as u8 + 48) as char);
}

/// Appends the last `width` decimal digits of `n`, with leading zeros.
pub(crate) fn push_fixed(n: u64, width: usize, out: &mut String)
    ensures
        final(out)@ == old(out)@ + fixed_digits(n as nat, width as nat),
    decreases width,
{
    if width > 0 {
        push_fixed(n / 10, width - 1, out);
        out.push(((n % 10) as u8 + 48) as char);
    }
}

/// Appends the last `width` decimal digits of `n` without their trailing
/// zeros.
pub(crate) fn push_trimmed(n: u64, width: usize, out: &mut String)
    ensures
        final(out)@ == old(out)@ + trimmed_digits(n as nat, width as nat),
    decreases width,
{
    if width > 0 && n % 10 == 0 {
        push_trimmed(n / 10, width - 1, out);
    } else {
        push_fixed(n, width, out);
    }
}

} // verus!
