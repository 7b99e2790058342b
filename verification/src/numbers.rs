//! Numbers as decimal text, and back.
//!
//! A time is written as a whole number, and read back as one, with an
//! optional `+` in front.
//!
//! A rank is written as a whole number of visits, followed, unless the rest
//! is zero, by a point and the millionths without their trailing zeros: `5`,
//! `4.95`, `0.000001`. It is read back from any decimal number: an optional
//! sign, digits with at most one point among them, and optionally an
//! exponent behind `e` or `E` (`5`, `.5`, `+4.95`, `1e3`, `2.5E-1`). What is
//! read is the number in millionths, rounded down, so that digits past the
//! sixth place behind the point are dropped. The store holds ranks from zero
//! to the largest `u64` in millionths: a number under zero is read as zero,
//! and a number over the largest rank as the largest rank. What is no
//! decimal number (`inf`, `nan`, `abc`) is no rank.

use crate::rank::{Rank, MICROS_PER_UNIT};
use vstd::prelude::*;

verus! {

/// The weight of the first digit behind the point, in millionths.
pub const FIRST_PLACE: u64 = 100_000;

/// `c` is one of the ten digits.
pub open spec fn is_digit(c: char) -> bool {
    '0' <= c <= '9'
}

/// The digit that stands for `d`.
pub open spec fn digit_char(d: nat) -> char {
    (d + 48) as char
}

/// The number that the digit `c` stands for.
pub open spec fn digit_value(c: char) -> nat {
    (c as nat - 48) as nat
}

/// Every character of `s` is a digit.
pub open spec fn all_digits(s: Seq<char>) -> bool {
    forall|i: int| 0 <= i < s.len() ==> is_digit(#[trigger] s[i])
}

/// The digits of `n`, the highest first, without leading zeros.
pub open spec fn decimal(n: nat) -> Seq<char>
    decreases n,
{
    if n < 10 {
        seq![digit_char(n)]
    } else {
        decimal(n / 10).push(digit_char(n % 10))
    }
}

/// The number that the digits `s` stand for.
pub open spec fn decimal_value(s: Seq<char>) -> nat
    decreases s.len(),
{
    if s.len() == 0 {
        0
    } else {
        decimal_value(s.drop_last()) * 10 + digit_value(s.last())
    }
}

/// The number of places behind the point that a rank holds.
pub const PLACES: usize = 6;

/// The bound past which the size of an exponent plays no part: ten to the
/// power thirty.
pub const EXPONENT_CAP: u128 = 1_000_000_000_000_000_000_000_000_000_000;

/// `scale` is the weight of one of the six places behind the point.
pub open spec fn is_place(scale: nat) -> bool {
    scale == 1 || scale == 10 || scale == 100 || scale == 1_000 || scale == 10_000 || scale
        == 100_000
}

/// The digits of `f` from the place that weighs `scale` on, down to the last
/// digit that is not zero.
pub open spec fn fraction(f: nat, scale: nat) -> Seq<char>
    decreases scale,
{
    if f == 0 || scale == 0 {
        Seq::empty()
    } else {
        seq![digit_char(f / scale)] + fraction(f % scale, scale / 10)
    }
}

/// Ten to the power `n`.
pub open spec fn pow10(n: nat) -> nat
    decreases n,
{
    if n == 0 {
        1
    } else {
        10 * pow10((n - 1) as nat)
    }
}

/// `at` is where `c` stands first in `s`, or the length of `s` if `c` does
/// not stand in it.
pub open spec fn is_first(s: Seq<char>, c: char, at: int) -> bool {
    &&& 0 <= at <= s.len()
    &&& forall|i: int| 0 <= i < at ==> #[trigger] s[i] != c
    &&& at < s.len() ==> s[at] == c
}

/// Where `c` stands first in `s`, or the length of `s`.
pub open spec fn first_index(s: Seq<char>, c: char) -> int
    decreases s.len(),
{
    if s.len() == 0 || s[0] == c {
        0
    } else {
        1 + first_index(s.drop_first(), c)
    }
}

/// `s` without a `+` in front.
pub open spec fn unsigned(s: Seq<char>) -> Seq<char> {
    if s.len() > 0 && s[0] == '+' {
        s.drop_first()
    } else {
        s
    }
}

/// The time that `s` stands for: digits, at least one, with an optional `+`
/// in front, and within `u64`.
pub open spec fn parse_time(s: Seq<char>) -> Option<nat> {
    let digits = unsigned(s);
    if digits.len() > 0 && all_digits(digits) && decimal_value(digits) <= u64::MAX {
        Some(decimal_value(digits))
    } else {
        None
    }
}

/// `s` begins with a minus sign.
pub open spec fn is_minus(s: Seq<char>) -> bool {
    s.len() > 0 && s[0] == '-'
}

/// `s` without a `+` or a `-` in front.
pub open spec fn without_sign(s: Seq<char>) -> Seq<char> {
    if s.len() > 0 && (s[0] == '+' || s[0] == '-') {
        s.drop_first()
    } else {
        s
    }
}

/// Where the exponent of a number begins: at the first `e` or `E`, or at the
/// end if there is neither.
pub open spec fn mark_index(body: Seq<char>) -> int {
    if first_index(body, 'e') <= first_index(body, 'E') {
        first_index(body, 'e')
    } else {
        first_index(body, 'E')
    }
}

/// The part of a number's text before the exponent.
pub open spec fn mantissa(body: Seq<char>) -> Seq<char> {
    body.take(mark_index(body))
}

/// The part of a mantissa before the point.
pub open spec fn whole_part(mantissa: Seq<char>) -> Seq<char> {
    mantissa.take(first_index(mantissa, '.'))
}

/// The part of a mantissa behind the point.
pub open spec fn fraction_part(mantissa: Seq<char>) -> Seq<char> {
    if first_index(mantissa, '.') < mantissa.len() {
        mantissa.skip(first_index(mantissa, '.') + 1)
    } else {
        Seq::empty()
    }
}

/// The whole number, under zero or not, that `text` stands for: digits, at
/// least one, with an optional sign in front.
pub open spec fn signed_value(text: Seq<char>) -> Option<int> {
    let digits = without_sign(text);
    if digits.len() > 0 && all_digits(digits) {
        Some(
            if is_minus(text) {
                -(decimal_value(digits) as int)
            } else {
                decimal_value(digits) as int
            },
        )
    } else {
        None
    }
}

/// The exponent of a number: zero if the text holds no `e` or `E`, else the
/// whole number behind the first of them.
pub open spec fn parse_exponent(body: Seq<char>) -> Option<int> {
    if mark_index(body) < body.len() {
        signed_value(body.skip(mark_index(body) + 1))
    } else {
        Some(0)
    }
}

/// `exponent`, or the cap on its side of zero if the cap is nearer to zero.
pub open spec fn clamped(exponent: int) -> int {
    if exponent > EXPONENT_CAP {
        EXPONENT_CAP as int
    } else if exponent < -(EXPONENT_CAP as int) {
        -(EXPONENT_CAP as int)
    } else {
        exponent
    }
}

/// The whole number that `digits` stand for when the point is set behind the
/// first `point` of them: the digits behind the point are dropped, and
/// where the digits end before the point, zeros fill the places.
pub open spec fn shifted_value(digits: Seq<char>, point: int) -> nat {
    if point <= 0 {
        0
    } else if point < digits.len() {
        decimal_value(digits.take(point))
    } else {
        decimal_value(digits) * pow10((point - digits.len()) as nat)
    }
}

/// `value`, or the largest `u64` if that is less.
pub open spec fn held(value: nat) -> nat {
    if value > u64::MAX {
        u64::MAX as nat
    } else {
        value
    }
}

/// The rank in millionths that `s` stands for, if `s` is a decimal number:
/// an optional sign, then digits with at most one point among them and at
/// least one digit, then optionally `e` or `E` and a whole number, the
/// exponent, with an optional sign of its own.
///
/// The rank is the number in millionths, rounded down. The store holds no
/// rank under zero and none over the largest `u64`: a number under zero is
/// read as zero, and a number over the largest rank as the largest rank.
pub open spec fn parse_rank(s: Seq<char>) -> Option<nat> {
    let body = without_sign(s);
    let whole = whole_part(mantissa(body));
    let frac = fraction_part(mantissa(body));
    if whole.len() + frac.len() > 0 && all_digits(whole) && all_digits(frac) {
        match parse_exponent(body) {
            Some(exponent) => Some(
                if is_minus(s) {
                    0
                } else {
                    held(shifted_value(whole + frac, whole.len() + PLACES + exponent))
                },
            ),
            None => None,
        }
    } else {
        None
    }
}

/// The text of a rank of `micros` millionths.
pub open spec fn rank_text(micros: nat) -> Seq<char> {
    let whole = decimal(micros / (MICROS_PER_UNIT as nat));
    let rest = micros % (MICROS_PER_UNIT as nat);
    if rest == 0 {
        whole
    } else {
        whole + seq!['.'] + fraction(rest, FIRST_PLACE as nat)
    }
}

/// `first_index` is where the character stands first.
pub proof fn lemma_first_index_is_first(s: Seq<char>, c: char)
    ensures
        is_first(s, c, first_index(s, c)),
    decreases s.len(),
{
    if s.len() != 0 && s[0] != c {
        let rest = s.drop_first();
        lemma_first_index_is_first(rest, c);
        let at = first_index(s, c);
        assert forall|i: int| 0 <= i < at implies #[trigger] s[i] != c by {
            if i > 0 {
                assert(s[i] == rest[i - 1]);
            }
        }
        if at < s.len() {
            assert(s[at] == rest[at - 1]);
        }
    }
}

/// Only one place can be the first.
pub proof fn lemma_first_index(s: Seq<char>, c: char, at: int)
    requires
        is_first(s, c, at),
    ensures
        first_index(s, c) == at,
{
    let other = first_index(s, c);
    lemma_first_index_is_first(s, c);
    if other < at {
        assert(s[other] != c);
    }
    if at < other {
        assert(s[at] != c);
    }
}

/// The digits of a number are digits, at least one, and stand for the number.
pub proof fn lemma_decimal(n: nat)
    ensures
        decimal(n).len() >= 1,
        all_digits(decimal(n)),
        decimal_value(decimal(n)) == n,
    decreases n,
{
    if n < 10 {
        assert(decimal(n).drop_last() =~= Seq::<char>::empty());
        assert(decimal_value(decimal(n).drop_last()) == 0);
    } else {
        lemma_decimal(n / 10);
        assert(decimal(n).drop_last() =~= decimal(n / 10));
    }
}

/// A power of ten is one or more, and ten or more unless the power is zero.
pub proof fn lemma_pow10(n: nat)
    ensures
        pow10(n) >= 1,
        n >= 1 ==> pow10(n) >= 10,
    decreases n,
{
    if n > 0 {
        lemma_pow10((n - 1) as nat);
    }
}

/// The powers of ten up to the sixth, and the twentieth, which no `u64`
/// reaches.
pub proof fn lemma_pow10_values()
    ensures
        pow10(0) == 1,
        pow10(1) == 10,
        pow10(2) == 100,
        pow10(3) == 1_000,
        pow10(4) == 10_000,
        pow10(5) == 100_000,
        pow10(6) == 1_000_000,
        pow10(20) == 100_000_000_000_000_000_000,
{
    reveal_with_fuel(pow10, 22);
}

/// Powers of ten multiply as their exponents add.
pub proof fn lemma_pow10_adds(a: nat, b: nat)
    ensures
        pow10(a + b) == pow10(a) * pow10(b),
    decreases a,
{
    if a == 0 {
        assert(pow10(0) == 1);
        assert(a + b == b);
        assert(pow10(a) * pow10(b) == pow10(b)) by (nonlinear_arith)
            requires
                pow10(a) == 1,
        ;
    } else {
        let less = (a - 1) as nat;
        lemma_pow10_adds(less, b);
        assert(a + b - 1 == less + b);
        assert(pow10(a + b) == 10 * pow10(less + b));
        assert(pow10(a) == 10 * pow10(less));
        assert(10 * (pow10(less) * pow10(b)) == (10 * pow10(less)) * pow10(b))
            by (nonlinear_arith);
    }
}

/// A higher power of ten is not less.
pub proof fn lemma_pow10_grows(a: nat, b: nat)
    requires
        a <= b,
    ensures
        pow10(a) <= pow10(b),
{
    lemma_pow10_adds(a, (b - a) as nat);
    lemma_pow10((b - a) as nat);
    assert(pow10(a) * pow10((b - a) as nat) >= pow10(a)) by (nonlinear_arith)
        requires
            pow10((b - a) as nat) >= 1,
    ;
}

/// One digit stands for its own number.
pub proof fn lemma_one_digit(c: char)
    ensures
        decimal_value(seq![c]) == digit_value(c),
{
    assert(seq![c].drop_last() =~= Seq::<char>::empty());
    assert(decimal_value(seq![c].drop_last()) == 0);
}

/// Digits behind digits: the first run weighs ten to the length of the
/// second.
pub proof fn lemma_decimal_value_concat(a: Seq<char>, b: Seq<char>)
    ensures
        decimal_value(a + b) == decimal_value(a) * pow10(b.len()) + decimal_value(b),
    decreases b.len(),
{
    if b.len() == 0 {
        assert(a + b =~= a);
        assert(pow10(b.len()) == 1);
        assert(decimal_value(b) == 0);
        assert(decimal_value(a) * pow10(b.len()) == decimal_value(a)) by (nonlinear_arith)
            requires
                pow10(b.len()) == 1,
        ;
    } else {
        let init = b.drop_last();
        let both = a + b;
        lemma_decimal_value_concat(a, init);
        assert(both.drop_last() =~= a + init);
        assert(both.last() == b.last());
        assert(decimal_value(both) == decimal_value(both.drop_last()) * 10 + digit_value(
            both.last(),
        ));
        assert(decimal_value(b) == decimal_value(init) * 10 + digit_value(b.last()));
        assert(pow10(b.len()) == 10 * pow10(init.len()));
        assert((decimal_value(a) * pow10(init.len()) + decimal_value(init)) * 10 == decimal_value(a)
            * (10 * pow10(init.len())) + decimal_value(init) * 10) by (nonlinear_arith);
    }
}

/// The digits behind the point are digits, at most as many as there are
/// places, and with zeros for the places that are left they stand for the
/// number they were made of.
pub proof fn lemma_fraction(f: nat, scale: nat, places: nat)
    requires
        1 <= places <= 6,
        scale == pow10((places - 1) as nat),
        f < 10 * scale,
    ensures
        all_digits(fraction(f, scale)),
        fraction(f, scale).len() <= places,
        decimal_value(fraction(f, scale)) * pow10((places - fraction(f, scale).len()) as nat) == f,
    decreases places,
{
    lemma_pow10_values();
    let text = fraction(f, scale);
    if f == 0 {
        assert(text =~= Seq::<char>::empty());
        assert(decimal_value(text) == 0);
        assert(decimal_value(text) * pow10(places) == 0) by (nonlinear_arith)
            requires
                decimal_value(text) == 0,
        ;
    } else {
        let digit = f / scale;
        let left = f % scale;
        let rest = fraction(left, scale / 10);
        assert(digit < 10 && f == digit * scale + left && left < scale) by (nonlinear_arith)
            requires
                scale > 0,
                f < 10 * scale,
                digit == f / scale,
                left == f % scale,
        ;
        if places == 1 {
            assert(left == 0);
            assert(rest =~= Seq::<char>::empty());
        } else {
            lemma_fraction(left, scale / 10, (places - 1) as nat);
        }
        let first = seq![digit_char(digit)];
        assert(text == first + rest);
        lemma_one_digit(digit_char(digit));
        lemma_decimal_value_concat(first, rest);
        assert(digit_value(digit_char(digit)) == digit);
        let filled = (places - text.len()) as nat;
        assert(decimal_value(text) == digit * pow10(rest.len()) + decimal_value(rest));
        lemma_pow10_adds(rest.len(), filled);
        assert(rest.len() + filled == places - 1);
        assert(text.len() == 1 + rest.len());
        assert(decimal_value(rest) * pow10(filled) == left) by {
            if places == 1 {
                assert(decimal_value(rest) == 0);
                assert(decimal_value(rest) * pow10(filled) == 0) by (nonlinear_arith)
                    requires
                        decimal_value(rest) == 0,
                ;
            }
        }
        assert((digit * pow10(rest.len()) + decimal_value(rest)) * pow10(filled) == digit * (pow10(
            rest.len(),
        ) * pow10(filled)) + decimal_value(rest) * pow10(filled)) by (nonlinear_arith);
        assert forall|i: int| 0 <= i < text.len() implies is_digit(#[trigger] text[i]) by {
            if i > 0 {
                assert(text[i] == rest[i - 1]);
            }
        }
    }
}

/// A rank's text stands for the rank.
pub proof fn lemma_rank_text(micros: nat)
    requires
        micros <= u64::MAX,
    ensures
        parse_rank(rank_text(micros)) == Some(micros),
        rank_text(micros).len() >= 1,
        forall|i: int|
            0 <= i < rank_text(micros).len() ==> is_digit(#[trigger] rank_text(micros)[i])
                || rank_text(micros)[i] == '.',
{
    let units = micros / (MICROS_PER_UNIT as nat);
    let whole = decimal(units);
    let rest = micros % (MICROS_PER_UNIT as nat);
    let text = rank_text(micros);
    let frac = if rest == 0 {
        Seq::<char>::empty()
    } else {
        fraction(rest, FIRST_PLACE as nat)
    };
    lemma_decimal(units);
    lemma_pow10_values();
    lemma_fraction(rest, FIRST_PLACE as nat, 6);
    assert(rest == 0 ==> fraction(rest, FIRST_PLACE as nat) =~= Seq::<char>::empty());
    assert(frac == fraction(rest, FIRST_PLACE as nat));
    assert forall|i: int| 0 <= i < text.len() implies is_digit(#[trigger] text[i]) || text[i]
        == '.' by {
        if i < whole.len() {
            assert(text[i] == whole[i]);
        } else if rest != 0 && i > whole.len() {
            assert(text[i] == frac[i - whole.len() - 1]);
        }
    }
    assert(text[0] == whole[0]);
    assert(without_sign(text) == text);
    assert(!is_minus(text));
    lemma_first_index(text, 'e', text.len() as int);
    lemma_first_index(text, 'E', text.len() as int);
    assert(mantissa(text) =~= text);
    if rest == 0 {
        lemma_first_index(text, '.', text.len() as int);
        assert(whole_part(text) =~= whole);
        assert(fraction_part(text) =~= frac);
    } else {
        assert(text[whole.len() as int] == '.');
        assert forall|i: int| 0 <= i < whole.len() implies #[trigger] text[i] != '.' by {
            assert(text[i] == whole[i]);
        }
        lemma_first_index(text, '.', whole.len() as int);
        assert(whole_part(text) =~= whole);
        assert(fraction_part(text) =~= frac);
    }
    let digits = whole + frac;
    let filled = (6 - frac.len()) as nat;
    lemma_decimal_value_concat(whole, frac);
    lemma_pow10_adds(frac.len(), filled);
    assert(shifted_value(digits, whole.len() + PLACES + 0) == decimal_value(digits) * pow10(filled));
    assert((units * pow10(frac.len()) + decimal_value(frac)) * pow10(filled) == units * (pow10(
        frac.len(),
    ) * pow10(filled)) + decimal_value(frac) * pow10(filled)) by (nonlinear_arith);
    assert(micros == units * 1_000_000 + rest);
}

/// An exponent past the cap moves the point as far as the cap does: out of
/// the digits on the one side, or past every rank on the other.
pub proof fn lemma_capped_exponent(digits: Seq<char>, whole: nat, exponent: int)
    requires
        whole <= digits.len() <= u64::MAX,
    ensures
        held(shifted_value(digits, whole + PLACES + exponent)) == held(
            shifted_value(digits, whole + PLACES + clamped(exponent)),
        ),
{
    if exponent > EXPONENT_CAP {
        let far = (whole + PLACES + exponent - digits.len()) as nat;
        let near = (whole + PLACES + clamped(exponent) - digits.len()) as nat;
        lemma_pow10_values();
        lemma_pow10_grows(20, far);
        lemma_pow10_grows(20, near);
        let value = decimal_value(digits);
        if value == 0 {
            assert(0 * pow10(far) == 0);
            assert(0 * pow10(near) == 0);
        } else {
            assert(value * pow10(far) >= pow10(20)) by (nonlinear_arith)
                requires
                    value >= 1,
                    pow10(far) >= pow10(20),
            ;
            assert(value * pow10(near) >= pow10(20)) by (nonlinear_arith)
                requires
                    value >= 1,
                    pow10(near) >= pow10(20),
            ;
        }
    }
}

/// A time's text stands for the time.
pub proof fn lemma_time_text(time: nat)
    requires
        time <= u64::MAX,
    ensures
        parse_time(decimal(time)) == Some(time),
{
    lemma_decimal(time);
    assert(is_digit(decimal(time)[0]));
}

/// More digits never stand for less.
pub proof fn lemma_decimal_value_grows(s: Seq<char>, n: int)
    requires
        0 <= n <= s.len(),
    ensures
        decimal_value(s.take(n)) <= decimal_value(s),
    decreases s.len() - n,
{
    if n < s.len() {
        lemma_decimal_value_grows(s, n + 1);
        assert(s.take(n + 1).drop_last() =~= s.take(n));
    } else {
        assert(s.take(n) =~= s);
    }
}

/// `found` is the number `value`, or neither is there.
pub open spec fn is_number(found: Option<u64>, value: Option<nat>) -> bool {
    match (found, value) {
        (Some(a), Some(b)) => a == b,
        (None, None) => true,
        _ => false,
    }
}

/// What a run of digits stands for, if it is one and the number is within
/// `u64`. The empty run stands for zero.
pub open spec fn digits_value(s: Seq<char>) -> Option<nat> {
    if all_digits(s) && decimal_value(s) <= u64::MAX {
        Some(decimal_value(s))
    } else {
        None
    }
}

/// Tests whether `c` is a digit.
pub fn is_digit_char(c: char) -> (b: bool)
    ensures
        b == is_digit(c),
{
    '0' <= c && c <= '9'
}

/// The digit that stands for `d`.
fn digit_of(d: u64) -> (c: char)
    requires
        d < 10,
    ensures
        c == digit_char(d as nat),
        is_digit(c),
{
    (d as u8 + 48) as char
}

/// The number that the digit `c` stands for.
fn value_of(c: char) -> (d: u64)
    requires
        is_digit(c),
    ensures
        d == digit_value(c),
        d < 10,
{
    (c as u32 - 48) as u64
}

/// Appends the digits of `n` to `out`.
pub fn push_decimal(out: &mut String, n: u64)
    ensures
        final(out)@ == old(out)@ + decimal(n as nat),
    decreases n,
{
    if n >= 10 {
        push_decimal(out, n / 10);
    }
    out.push(digit_of(n % 10));
    proof {
        if n >= 10 {
            assert(old(out)@ + decimal((n / 10) as nat).push(digit_char((n % 10) as nat)) =~= (
            old(out)@ + decimal((n / 10) as nat)).push(digit_char((n % 10) as nat)));
        } else {
            assert(old(out)@ + seq![digit_char(n as nat)] =~= old(out)@.push(
                digit_char(n as nat),
            ));
        }
    }
}

/// Appends to `out` the digits of `f` from the place that weighs `scale` on.
fn push_fraction(out: &mut String, f: u64, scale: u64)
    requires
        f == 0 || (is_place(scale as nat) && f < 10 * scale),
    ensures
        final(out)@ == old(out)@ + fraction(f as nat, scale as nat),
    decreases scale,
{
    if f != 0 && scale != 0 {
        assert(f / scale < 10 && f % scale < scale) by (nonlinear_arith)
            requires
                scale > 0,
                f < 10 * scale,
        ;
        out.push(digit_of(f / scale));
        let ghost middle = out@;
        push_fraction(out, f % scale, scale / 10);
        assert(out@ =~= old(out)@ + fraction(f as nat, scale as nat));
    } else {
        assert(old(out)@ + fraction(f as nat, scale as nat) =~= old(out)@);
    }
}

/// Appends the text of `rank` to `out`.
pub fn push_rank(out: &mut String, rank: Rank)
    ensures
        final(out)@ == old(out)@ + rank_text(rank@),
{
    push_decimal(out, rank.micros / MICROS_PER_UNIT);
    let rest = rank.micros % MICROS_PER_UNIT;
    if rest != 0 {
        out.push('.');
        push_fraction(out, rest, FIRST_PLACE);
        assert(out@ =~= old(out)@ + rank_text(rank@));
    }
}

/// Where `c` stands first in `chars[from..to]`, or `to`.
pub fn find_char(chars: &Vec<char>, from: usize, to: usize, c: char) -> (at: usize)
    requires
        from <= to <= chars.len(),
    ensures
        from <= at <= to,
        at - from == first_index(chars@.subrange(from as int, to as int), c),
        is_first(chars@.subrange(from as int, to as int), c, at - from),
{
    let mut at: usize = from;
    while at < to && chars[at] != c
        invariant
            from <= at <= to <= chars.len(),
            forall|i: int| from <= i < at ==> #[trigger] chars@[i] != c,
        decreases to - at,
    {
        at += 1;
    }
    proof {
        let s = chars@.subrange(from as int, to as int);
        assert forall|i: int| 0 <= i < at - from implies #[trigger] s[i] != c by {
            assert(s[i] == chars@[from + i]);
        }
        lemma_first_index(s, c, at - from);
    }
    at
}

/// Reads `chars[from..to]` as a run of digits.
pub fn read_digits(chars: &Vec<char>, from: usize, to: usize) -> (found: Option<u64>)
    requires
        from <= to <= chars.len(),
    ensures
        is_number(found, digits_value(chars@.subrange(from as int, to as int))),
{
    let ghost s = chars@.subrange(from as int, to as int);
    let mut acc: u64 = 0;
    let mut i: usize = from;
    assert(chars@.subrange(from as int, from as int) =~= Seq::<char>::empty());
    while i < to
        invariant
            from <= i <= to <= chars.len(),
            s == chars@.subrange(from as int, to as int),
            all_digits(chars@.subrange(from as int, i as int)),
            acc == decimal_value(chars@.subrange(from as int, i as int)),
        decreases to - i,
    {
        let c = chars[i];
        if !is_digit_char(c) {
            assert(s[i - from] == c);
            return None;
        }
        let d = value_of(c);
        proof {
            let next = chars@.subrange(from as int, i + 1);
            assert(next.drop_last() =~= chars@.subrange(from as int, i as int));
            assert(next.last() == c);
            assert(decimal_value(next) == acc * 10 + d);
            assert(next =~= s.take(i + 1 - from));
            lemma_decimal_value_grows(s, i + 1 - from);
            assert forall|k: int| 0 <= k < next.len() implies is_digit(#[trigger] next[k]) by {
                if k < next.len() - 1 {
                    assert(next[k] == chars@.subrange(from as int, i as int)[k]);
                }
            }
        }
        if acc > (u64::MAX - d) / 10 {
            return None;
        }
        acc = acc * 10 + d;
        i += 1;
    }
    Some(acc)
}

/// Reads `chars[from..to]` as a time.
pub fn read_time(chars: &Vec<char>, from: usize, to: usize) -> (found: Option<u64>)
    requires
        from <= to <= chars.len(),
    ensures
        is_number(found, parse_time(chars@.subrange(from as int, to as int))),
{
    let start = if from < to && chars[from] == '+' {
        from + 1
    } else {
        from
    };
    assert(unsigned(chars@.subrange(from as int, to as int)) =~= chars@.subrange(
        start as int,
        to as int,
    ));
    if start == to {
        None
    } else {
        read_digits(chars, start, to)
    }
}

/// Tests whether `chars[from..to]` holds digits only.
pub fn are_digits(chars: &Vec<char>, from: usize, to: usize) -> (b: bool)
    requires
        from <= to <= chars.len(),
    ensures
        b == all_digits(chars@.subrange(from as int, to as int)),
{
    let ghost s = chars@.subrange(from as int, to as int);
    let mut i: usize = from;
    while i < to
        invariant
            from <= i <= to <= chars.len(),
            s == chars@.subrange(from as int, to as int),
            forall|k: int| from <= k < i ==> is_digit(#[trigger] chars@[k]),
        decreases to - i,
    {
        if !is_digit_char(chars[i]) {
            assert(s[i - from] == chars@[i as int]);
            return false;
        }
        i += 1;
    }
    assert forall|k: int| 0 <= k < s.len() implies is_digit(#[trigger] s[k]) by {
        assert(s[k] == chars@[from + k]);
    }
    true
}

/// Reads `chars[from..to]` as a whole number with an optional sign. A
/// number past the cap comes back as the cap on its side of zero.
pub fn read_exponent(chars: &Vec<char>, from: usize, to: usize) -> (found: Option<i128>)
    requires
        from <= to <= chars.len(),
    ensures
        match found {
            Some(exponent) => signed_value(chars@.subrange(from as int, to as int)) matches Some(
                value,
            ) && exponent == clamped(value),
            None => signed_value(chars@.subrange(from as int, to as int)) is None,
        },
{
    let ghost text = chars@.subrange(from as int, to as int);
    let minus = from < to && chars[from] == '-';
    let start = if from < to && (chars[from] == '+' || chars[from] == '-') {
        from + 1
    } else {
        from
    };
    let ghost digits = chars@.subrange(start as int, to as int);
    assert(without_sign(text) =~= digits);
    if start == to {
        return None;
    }
    let mut acc: u128 = 0;
    let mut i: usize = start;
    assert(chars@.subrange(start as int, start as int) =~= Seq::<char>::empty());
    while i < to
        invariant
            start <= i <= to <= chars.len(),
            text == chars@.subrange(from as int, to as int),
            digits == chars@.subrange(start as int, to as int),
            without_sign(text) == digits,
            all_digits(chars@.subrange(start as int, i as int)),
            acc <= EXPONENT_CAP,
            acc < EXPONENT_CAP ==> acc == decimal_value(chars@.subrange(start as int, i as int)),
            acc == EXPONENT_CAP ==> decimal_value(chars@.subrange(start as int, i as int))
                >= EXPONENT_CAP,
        decreases to - i,
    {
        let c = chars[i];
        if !is_digit_char(c) {
            assert(digits[i - start] == c);
            return None;
        }
        let d = value_of(c) as u128;
        proof {
            let next = chars@.subrange(start as int, i + 1);
            assert(next.drop_last() =~= chars@.subrange(start as int, i as int));
            assert(next.last() == c);
            assert(decimal_value(next) == decimal_value(next.drop_last()) * 10 + d);
            assert forall|k: int| 0 <= k < next.len() implies is_digit(#[trigger] next[k]) by {
                if k < next.len() - 1 {
                    assert(next[k] == chars@.subrange(start as int, i as int)[k]);
                }
            }
        }
        if acc < EXPONENT_CAP {
            let more = acc * 10 + d;
            acc = if more > EXPONENT_CAP {
                EXPONENT_CAP
            } else {
                more
            };
        }
        i += 1;
    }
    if minus {
        Some(-(acc as i128))
    } else {
        Some(acc as i128)
    }
}

/// Appends `chars[from..to]` to `out`.
fn append_chars(out: &mut Vec<char>, chars: &Vec<char>, from: usize, to: usize)
    requires
        from <= to <= chars.len(),
    ensures
        final(out)@ == old(out)@ + chars@.subrange(from as int, to as int),
{
    let mut i: usize = from;
    assert(out@ =~= old(out)@ + chars@.subrange(from as int, from as int));
    while i < to
        invariant
            from <= i <= to <= chars.len(),
            out@ == old(out)@ + chars@.subrange(from as int, i as int),
        decreases to - i,
    {
        out.push(chars[i]);
        i += 1;
        assert(out@ =~= old(out)@ + chars@.subrange(from as int, i as int));
    }
}

/// The number that `digits` stand for with the point behind the first
/// `point` of them, held at the largest `u64`.
fn read_shifted(digits: &Vec<char>, point: i128) -> (value: u64)
    requires
        all_digits(digits@),
    ensures
        value == held(shifted_value(digits@, point as int)),
{
    if point <= 0 {
        return 0;
    }
    let n = digits.len();
    let taken: usize = if point < n as i128 {
        point as usize
    } else {
        n
    };
    let ghost front = digits@.subrange(0, taken as int);
    proof {
        assert(front =~= digits@.take(taken as int));
        assert forall|k: int| 0 <= k < front.len() implies is_digit(#[trigger] front[k]) by {
            assert(front[k] == digits@[k]);
        }
        assert(digits@.take(n as int) =~= digits@);
        lemma_pow10((point - n) as nat);
    }
    let mut acc: u64 = match read_digits(digits, 0, taken) {
        Some(value) => value,
        None => {
            proof {
                if point >= n {
                    assert(decimal_value(digits@) * pow10((point - n) as nat) >= decimal_value(
                        digits@,
                    )) by (nonlinear_arith)
                        requires
                            pow10((point - n) as nat) >= 1,
                    ;
                }
            }
            return u64::MAX;
        },
    };
    if point < n as i128 {
        return acc;
    }
    let mut left: i128 = point - n as i128;
    while left > 0 && acc != 0
        invariant
            0 <= left,
            0 < point,
            digits.len() <= point,
            n == digits.len(),
            acc * pow10(left as nat) == decimal_value(digits@) * pow10((point - n) as nat),
        decreases left,
    {
        proof {
            let less = pow10((left - 1) as nat);
            lemma_pow10((left - 1) as nat);
            assert(pow10(left as nat) == 10 * less);
            assert(acc * (10 * less) == (acc * 10) * less) by (nonlinear_arith);
            assert(acc * (10 * less) >= acc * 10) by (nonlinear_arith)
                requires
                    less >= 1,
            ;
        }
        if acc > u64::MAX / 10 {
            return u64::MAX;
        }
        acc = acc * 10;
        left = left - 1;
    }
    proof {
        let power = pow10(left as nat);
        if acc == 0 {
            assert(acc * power == 0) by (nonlinear_arith)
                requires
                    acc == 0,
            ;
        } else {
            assert(power == 1);
            assert(acc * power == acc) by (nonlinear_arith)
                requires
                    power == 1,
            ;
        }
    }
    acc
}

/// Reads `chars[from..to]` as a rank.
pub fn read_rank(chars: &Vec<char>, from: usize, to: usize) -> (found: Option<Rank>)
    requires
        from <= to <= chars.len(),
    ensures
        match found {
            Some(rank) => parse_rank(chars@.subrange(from as int, to as int)) == Some(rank@),
            None => parse_rank(chars@.subrange(from as int, to as int)) is None,
        },
{
    let ghost text = chars@.subrange(from as int, to as int);
    let minus = from < to && chars[from] == '-';
    let (start, dot, behind, mark) = number_parts(chars, from, to);
    let ghost body = without_sign(text);
    let ghost whole = chars@.subrange(start as int, dot as int);
    if dot == start && behind == mark {
        return None;
    }
    if !are_digits(chars, start, dot) || !are_digits(chars, behind, mark) {
        return None;
    }
    let exponent: i128 = if mark < to {
        match read_exponent(chars, mark + 1, to) {
            Some(exponent) => exponent,
            None => {
                return None;
            },
        }
    } else {
        0
    };
    if minus {
        return Some(Rank::from_micros(0));
    }
    let digits = joined(chars, start, dot, behind, mark);
    proof {
        lemma_capped_exponent(digits@, whole.len(), parse_exponent(body).unwrap());
    }
    let point: i128 = (dot - start) as i128 + PLACES as i128 + exponent;
    Some(Rank::from_micros(read_shifted(&digits, point)))
}

/// Where the parts of the number in `chars[from..to]` lie: behind the sign
/// `start`; the point at `dot`, or `dot` at the end of the mantissa; the
/// digits behind the point from `behind` on; the exponent's mark at `mark`,
/// or `mark` at the end.
fn number_parts(chars: &Vec<char>, from: usize, to: usize) -> (parts: (usize, usize, usize, usize))
    requires
        from <= to <= chars.len(),
    ensures
        from <= parts.0 <= parts.1 <= parts.2 <= parts.3 <= to,
        without_sign(chars@.subrange(from as int, to as int)) == chars@.subrange(
            parts.0 as int,
            to as int,
        ),
        parts.3 - parts.0 == mark_index(chars@.subrange(parts.0 as int, to as int)),
        whole_part(mantissa(chars@.subrange(parts.0 as int, to as int))) == chars@.subrange(
            parts.0 as int,
            parts.1 as int,
        ),
        fraction_part(mantissa(chars@.subrange(parts.0 as int, to as int))) == chars@.subrange(
            parts.2 as int,
            parts.3 as int,
        ),
        parts.3 < to ==> chars@.subrange(parts.0 as int, to as int).skip(
            parts.3 - parts.0 + 1,
        ) == chars@.subrange(parts.3 + 1, to as int),
{
    let start = if from < to && (chars[from] == '+' || chars[from] == '-') {
        from + 1
    } else {
        from
    };
    let small = find_char(chars, start, to, 'e');
    let large = find_char(chars, start, to, 'E');
    let mark = if small <= large {
        small
    } else {
        large
    };
    let dot = find_char(chars, start, mark, '.');
    let behind = if dot < mark {
        dot + 1
    } else {
        mark
    };
    proof {
        let text = chars@.subrange(from as int, to as int);
        let body = chars@.subrange(start as int, to as int);
        let front = chars@.subrange(start as int, mark as int);
        assert(without_sign(text) =~= body);
        assert(mantissa(body) =~= front);
        assert(front.take(dot - start) =~= chars@.subrange(start as int, dot as int));
        if dot < mark {
            assert(front.skip(dot - start + 1) =~= chars@.subrange(behind as int, mark as int));
        } else {
            assert(chars@.subrange(behind as int, mark as int) =~= Seq::<char>::empty());
        }
        if mark < to {
            assert(body.skip(mark - start + 1) =~= chars@.subrange(mark + 1, to as int));
        }
    }
    (start, dot, behind, mark)
}

/// The characters `chars[a..b]` followed by `chars[c..d]`.
fn joined(chars: &Vec<char>, a: usize, b: usize, c: usize, d: usize) -> (both: Vec<char>)
    requires
        a <= b <= chars.len(),
        c <= d <= chars.len(),
    ensures
        both@ == chars@.subrange(a as int, b as int) + chars@.subrange(c as int, d as int),
        all_digits(chars@.subrange(a as int, b as int)) && all_digits(
            chars@.subrange(c as int, d as int),
        ) ==> all_digits(both@),
{
    let mut both: Vec<char> = Vec::new();
    append_chars(&mut both, chars, a, b);
    append_chars(&mut both, chars, c, d);
    proof {
        let first = chars@.subrange(a as int, b as int);
        let second = chars@.subrange(c as int, d as int);
        assert(both@ =~= first + second);
        if all_digits(first) && all_digits(second) {
            assert forall|k: int| 0 <= k < both@.len() implies is_digit(#[trigger] both@[k]) by {
                if k < first.len() {
                    assert(both@[k] == first[k]);
                } else {
                    assert(both@[k] == second[k - first.len()]);
                }
            }
        }
    }
    both
}

} // verus!
