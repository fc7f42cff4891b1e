//! Decimal fractions, read exactly.
//!
//! The text formats write lengths, tempos and temperatures as decimal fractions. They are
//! held as whole billionths, so that sums and comparisons are exact. Where a literal says more
//! than the count, by digits finer than a billionth or by being past the largest count, that is
//! noted beside it.

use crate::scan::{
    capped, capped_value, decimal, digit, digits_end, end_of_digits, lowered, push_text,
    push_wide, spells, value_of,
};
use vstd::arithmetic::power::{lemma_pow0, lemma_pow1, lemma_pow_adds, lemma_pow_increases, lemma_pow_positive, pow};
use vstd::prelude::*;
use vstd::slice::slice_subrange;

verus! {

/// How many parts one is counted in.
pub const ONE: u64 = 1_000_000_000;

/// The largest count of billionths that is kept.
pub const MOST: u128 = 1_000_000_000_000_000_000_000_000_000_000_000_000;

/// What a decimal literal says.
#[derive(Debug, Clone, Copy, PartialEq, Eq, Structural)]
pub enum Number {
    /// `nanos` billionths, below zero where `negative`. The magnitude is larger than that where
    /// there is `more`.
    Finite { negative: bool, nanos: u128, more: bool },
    /// `inf`.
    Infinite { negative: bool },
    Nan,
}

impl Number {
    /// A length of time or of music: finite and above zero.
    pub open spec fn positive(self) -> bool {
        self matches Number::Finite { negative, nanos, more } && !negative && (nanos > 0 || more)
    }

    /// What a positive number counts for: its billionths, and one at the least.
    pub open spec fn count(self) -> u128 {
        match self {
            Number::Finite { negative, nanos, more } => if nanos > 0 {
                nanos
            } else {
                1
            },
            _ => 0,
        }
    }

    /// How many billionths a number counts for, if it is positive.
    pub fn counted(self) -> (count: Option<u128>)
        ensures
            count == (if self.positive() {
                Some(self.count())
            } else {
                None
            }),
            count matches Some(n) ==> n > 0,
    {
        match self {
            Number::Finite { negative, nanos, more } => {
                if negative {
                    None
                } else if nanos > 0 {
                    Some(nanos)
                } else if more {
                    Some(1)
                } else {
                    None
                }
            },
            _ => None,
        }
    }
}

/// How many whole units a digit string makes once its point has moved `shift` places to the
/// right. Digits that end up behind the point are cut off.
pub open spec fn shifted(digits: Seq<char>, shift: int) -> nat {
    if shift >= 0 {
        (value_of(digits) * pow(10, shift as nat)) as nat
    } else if digits.len() + shift <= 0 {
        0
    } else {
        value_of(digits.take(digits.len() + shift))
    }
}

/// Whether digits other than zero end up behind the point when it moves `shift` places.
pub open spec fn spilled(digits: Seq<char>, shift: int) -> bool {
    shift < 0 && value_of(
        digits.skip(
            if digits.len() + shift > 0 {
                digits.len() + shift
            } else {
                0
            },
        ),
    ) > 0
}

/// The exponent written at `s[at..]`: nothing, or `e`, an optional sign and digits to the end.
pub open spec fn exponent(s: Seq<char>, at: int) -> Option<int> {
    if at >= s.len() {
        Some(0)
    } else if s[at] != 'e' {
        None
    } else {
        let signed = at + 1 < s.len() && (s[at + 1] == '+' || s[at + 1] == '-');
        let from = if signed {
            at + 2
        } else {
            at + 1
        };
        if from < s.len() && digits_end(s, from) == s.len() {
            let magnitude = value_of(s.subrange(from, s.len() as int)) as int;
            Some(
                if signed && s[at + 1] == '-' {
                    -magnitude
                } else {
                    magnitude
                },
            )
        } else {
            None
        }
    }
}

/// The magnitude of an unsigned lower-case literal: whole billionths, and whether digits finer
/// than that follow.
pub open spec fn magnitude(s: Seq<char>) -> Option<(nat, bool)> {
    let whole = digits_end(s, 0);
    let pointed = whole < s.len() && s[whole] == '.';
    let from = if pointed {
        whole + 1
    } else {
        whole
    };
    let end = if pointed {
        digits_end(s, from)
    } else {
        whole
    };
    let digits = s.subrange(0, whole) + s.subrange(from, end);
    match exponent(s, end) {
        Some(e) if digits.len() > 0 => {
            let shift = e - (end - from) + 9;
            Some((shifted(digits, shift), spilled(digits, shift)))
        },
        _ => None,
    }
}

/// What a literal says, case aside: an optional sign, then `inf`, `infinity`, `nan`, or digits
/// with an optional point and an optional exponent.
pub open spec fn number(text: Seq<char>) -> Option<Number> {
    let s = crate::scan::ascii_lowered(text);
    let signed = s.len() > 0 && (s[0] == '+' || s[0] == '-');
    let negative = signed && s[0] == '-';
    let body = if signed {
        s.skip(1)
    } else {
        s
    };
    if body == "inf"@ || body == "infinity"@ {
        Some(Number::Infinite { negative })
    } else if body == "nan"@ {
        Some(Number::Nan)
    } else {
        match magnitude(body) {
            Some((nanos, finer)) => Some(
                if nanos <= MOST {
                    Number::Finite { negative, nanos: nanos as u128, more: finer }
                } else {
                    Number::Finite { negative, nanos: MOST, more: true }
                },
            ),
            None => None,
        }
    }
}

proof fn lemma_big_shift(m: nat, shift: int)
    requires
        m >= 1,
        shift >= 37,
    ensures
        m * pow(10, shift as nat) > MOST,
{
    lemma_pow_increases(10, 37, shift as nat);
    assert(pow(10, 37) == 10_000_000_000_000_000_000_000_000_000_000_000_000) by {
        reveal_with_fuel(pow, 38);
    }
    lemma_pow_positive(10, shift as nat);
    let p = pow(10, shift as nat);
    assert(m * p >= p) by (nonlinear_arith)
        requires
            m >= 1,
            p > 0,
    ;
}

/// Joins two runs of digits.
fn joined(s: &[char], whole: usize, from: usize, end: usize) -> (digits: Vec<char>)
    requires
        whole <= from <= end <= s@.len(),
        forall|i: int| 0 <= i < whole ==> digit(s@[i]),
        forall|i: int| from <= i < end ==> digit(s@[i]),
    ensures
        digits@ == s@.subrange(0, whole as int) + s@.subrange(from as int, end as int),
        forall|i: int| 0 <= i < digits@.len() ==> digit(digits@[i]),
{
    let mut digits = crate::scan::copy_range(s, 0, whole);
    let mut rest = crate::scan::copy_range(s, from, end);
    digits.append(&mut rest);
    digits
}

/// `shifted`, cut off just past the largest count, for a shift that has been cut off where it no
/// longer matters.
fn shift_digits(digits: &[char], shift: i128) -> (nanos: u128)
    requires
        forall|i: int| 0 <= i < digits@.len() ==> digit(digits@[i]),
        -0x8_0000_0000_0000_0000 <= shift <= 0x8_0000_0000_0000_0000,
    ensures
        nanos == capped(shifted(digits@, shift as int), (MOST + 1) as nat),
{
    let cap: u128 = MOST + 1;
    if shift < 0 {
        let keep: i128 = digits.len() as i128 + shift;
        if keep <= 0 {
            return 0;
        }
        let value = capped_value(digits, 0, keep as usize, cap);
        proof {
            assert(digits@.subrange(0, keep as int) =~= digits@.take(keep as int));
        }
        value
    } else {
        let mut value = capped_value(digits, 0, digits.len(), cap);
        proof {
            assert(digits@.subrange(0, digits@.len() as int) =~= digits@);
        }
        if value == 0 {
            proof {
                assert(0 * pow(10, shift as nat) == 0);
            }
            return 0;
        }
        if shift >= 37 {
            proof {
                lemma_big_shift(value_of(digits@), shift as int);
            }
            return cap;
        }
        let ghost m = value_of(digits@);
        let mut left: i128 = shift;
        let mut done: i128 = 0;
        proof {
            lemma_pow0(10);
        }
        while left > 0
            invariant
                0 <= left <= shift < 37,
                done == shift - left,
                cap == MOST + 1,
                m >= 1,
                value == capped((m * pow(10, done as nat)) as nat, cap as nat),
            decreases left,
        {
            proof {
                lemma_pow_adds(10, done as nat, 1);
                lemma_pow1(10);
                lemma_pow_positive(10, done as nat);
                let p = pow(10, done as nat);
                assert(m * (p * 10) == (m * p) * 10) by (nonlinear_arith);
                assert(m * p > 0) by (nonlinear_arith)
                    requires
                        m >= 1,
                        p > 0,
                ;
            }
            value = value * 10;
            if value >= cap {
                value = cap;
            }
            left = left - 1;
            done = done + 1;
        }
        value
    }
}

/// `spilled`, for a shift that has been cut off where it no longer matters.
fn spills(digits: &[char], shift: i128) -> (yes: bool)
    requires
        forall|i: int| 0 <= i < digits@.len() ==> digit(digits@[i]),
        -0x8_0000_0000_0000_0000 <= shift <= 0x8_0000_0000_0000_0000,
    ensures
        yes == spilled(digits@, shift as int),
{
    if shift >= 0 {
        return false;
    }
    let keep: i128 = digits.len() as i128 + shift;
    let from: usize = if keep > 0 {
        keep as usize
    } else {
        0
    };
    proof {
        assert(digits@.subrange(from as int, digits@.len() as int) =~= digits@.skip(from as int));
    }
    capped_value(digits, from, digits.len(), 1) > 0
}

/// Reads the exponent at `s[at..]`, cut off at `cap`.
fn read_exponent(s: &[char], at: usize, cap: u128) -> (e: Option<i128>)
    requires
        at <= s@.len(),
        s@.len() + 100 <= cap <= 0x2_0000_0000_0000_0000,
    ensures
        e is Some <==> exponent(s@, at as int) is Some,
        e is Some ==> ({
            let exact = exponent(s@, at as int)->0;
            &&& -cap <= e->0 <= cap
            &&& -cap < e->0 < cap ==> e->0 == exact
            &&& e->0 == cap ==> exact >= cap
            &&& e->0 == -cap ==> exact <= -cap
        }),
{
    if at >= s.len() {
        return Some(0);
    }
    if s[at] != 'e' {
        return None;
    }
    let mut from: usize = at + 1;
    let mut negative = false;
    if from < s.len() && (s[from] == '+' || s[from] == '-') {
        negative = s[from] == '-';
        from = from + 1;
    }
    if from >= s.len() {
        return None;
    }
    let end = end_of_digits(s, from);
    if end != s.len() {
        return None;
    }
    let value = capped_value(s, from, end, cap);
    if negative {
        Some(-(value as i128))
    } else {
        Some(value as i128)
    }
}

/// Reads the magnitude of an unsigned lower-case literal, cut off just past the largest count.
fn read_magnitude(s: &[char]) -> (read: Option<(u128, bool)>)
    ensures
        match magnitude(s@) {
            None => read is None,
            Some((exact, finer)) => read == Some((capped(exact, (MOST + 1) as nat) as u128, finer)),
        },
{
    let whole = end_of_digits(s, 0);
    let mut from: usize = whole;
    let mut end: usize = whole;
    if whole < s.len() && s[whole] == '.' {
        from = whole + 1;
        end = end_of_digits(s, from);
    }
    let digits = joined(s, whole, from, end);
    let cap: u128 = s.len() as u128 + 100;
    let read = read_exponent(s, end, cap);
    match read {
        None => None,
        Some(e) => {
            if digits.len() == 0 {
                return None;
            }
            let frac: i128 = end as i128 - from as i128;
            let shift: i128 = e - frac + 9;
            let nanos: u128 = shift_digits(digits.as_slice(), shift);
            let finer = spills(digits.as_slice(), shift);
            proof {
                let exact = exponent(s@, end as int)->0;
                let true_shift = exact - (end - from) + 9;
                if e == cap && exact != e {
                    // Far past the point either way.
                    assert(shift >= 37 && true_shift >= 37);
                    if value_of(digits@) >= 1 {
                        lemma_big_shift(value_of(digits@), shift as int);
                        lemma_big_shift(value_of(digits@), true_shift);
                    } else {
                        assert(0 * pow(10, shift as nat) == 0);
                        assert(0 * pow(10, true_shift as nat) == 0);
                    }
                } else if e == -cap && exact != e {
                    assert(digits@.len() + shift <= 0);
                    assert(digits@.len() + true_shift <= 0);
                }
            }
            Some((nanos, finer))
        },
    }
}

/// Reads a decimal literal.
pub fn parse_number(text: &[char]) -> (n: Option<Number>)
    ensures
        n == number(text@),
{
    let s = lowered(text);
    let mut from: usize = 0;
    let mut negative = false;
    if s.len() > 0 && (s[0] == '+' || s[0] == '-') {
        from = 1;
        negative = s[0] == '-';
    }
    let body = slice_subrange(s.as_slice(), from, s.len());
    proof {
        assert(s@.subrange(0, s@.len() as int) =~= s@);
        assert(from == 1 ==> s@.subrange(1, s@.len() as int) =~= s@.skip(1));
    }
    if spells(body, "inf") || spells(body, "infinity") {
        return Some(Number::Infinite { negative });
    }
    if spells(body, "nan") {
        return Some(Number::Nan);
    }
    match read_magnitude(body) {
        None => None,
        Some((nanos, finer)) => Some(
            if nanos <= MOST {
                Number::Finite { negative, nanos, more: finer }
            } else {
                Number::Finite { negative, nanos: MOST, more: true }
            },
        ),
    }
}

/// The nine digits of a fraction, without trailing zeros.
pub open spec fn fraction_digits(nanos: nat, places: nat) -> Seq<char>
    decreases places,
{
    if places == 0 || nanos == 0 {
        Seq::empty()
    } else if nanos % 10 == 0 {
        fraction_digits(nanos / 10, (places - 1) as nat)
    } else {
        padded(nanos, places)
    }
}

/// A number in exactly `places` digits.
pub open spec fn padded(n: nat, places: nat) -> Seq<char>
    decreases places,
{
    if places == 0 {
        Seq::empty()
    } else {
        padded(n / 10, (places - 1) as nat).push(('0' as nat + n % 10) as char)
    }
}

/// How a number reads, to a billionth: no point where there is no fraction, no trailing zeros where
/// there is.
pub open spec fn rendered(n: Number) -> Seq<char> {
    match n {
        Number::Nan => "NaN"@,
        Number::Infinite { negative } => if negative {
            "-inf"@
        } else {
            "inf"@
        },
        Number::Finite { negative, nanos, more } => {
            let sign = if negative {
                "-"@
            } else {
                ""@
            };
            let fraction = fraction_digits((nanos % (ONE as u128)) as nat, 9);
            sign + decimal((nanos / (ONE as u128)) as nat) + (if fraction.len() == 0 {
                ""@
            } else {
                "."@ + fraction
            })
        },
    }
}

fn push_padded(out: &mut String, n: u64, places: u64)
    ensures
        final(out)@ == old(out)@ + padded(n as nat, places as nat),
    decreases places,
{
    let ghost start = out@;
    if places > 0 {
        push_padded(out, n / 10, places - 1);
        let c: char = (48 + (n % 10) as u8) as char;
        out.push(c);
        proof {
            assert(c == ('0' as nat + (n as nat) % 10) as char);
            assert(out@ =~= start + padded(n as nat, places as nat));
        }
    } else {
        proof {
            assert(out@ =~= start + padded(n as nat, places as nat));
        }
    }
}

fn push_fraction(out: &mut String, nanos: u64, places: u64)
    ensures
        final(out)@ == old(out)@ + fraction_digits(nanos as nat, places as nat),
    decreases places,
{
    let ghost start = out@;
    if places == 0 || nanos == 0 {
        proof {
            assert(out@ =~= start + fraction_digits(nanos as nat, places as nat));
        }
    } else if nanos % 10 == 0 {
        push_fraction(out, nanos / 10, places - 1);
    } else {
        push_padded(out, nanos, places);
    }
}

proof fn lemma_fraction_nonempty(nanos: nat, places: nat)
    requires
        nanos > 0,
        nanos < pow(10, places),
    ensures
        fraction_digits(nanos, places).len() > 0,
    decreases places,
{
    if places == 0 {
        lemma_pow0(10);
    } else if nanos % 10 == 0 {
        lemma_pow_adds(10, (places - 1) as nat, 1);
        lemma_pow1(10);
        lemma_fraction_nonempty(nanos / 10, (places - 1) as nat);
    }
}

/// Appends a number the way it reads.
pub fn push_number(out: &mut String, n: Number)
    ensures
        final(out)@ == old(out)@ + rendered(n),
{
    let ghost start = out@;
    proof {
        reveal_strlit("");
    }
    match n {
        Number::Nan => push_text(out, "NaN"),
        Number::Infinite { negative } => {
            if negative {
                push_text(out, "-inf")
            } else {
                push_text(out, "inf")
            }
        },
        Number::Finite { negative, nanos, more } => {
            if negative {
                push_text(out, "-");
            }
            push_wide(out, nanos / ONE as u128);
            let rest: u64 = (nanos % ONE as u128) as u64;
            if rest > 0 {
                push_text(out, ".");
                push_fraction(out, rest, 9);
                proof {
                    assert(pow(10, 9) == 1_000_000_000) by {
                        reveal_with_fuel(pow, 10);
                    }
                    lemma_fraction_nonempty(rest as nat, 9);
                }
            }
            proof {
                assert(out@ =~= start + rendered(n));
            }
        },
    }
}

proof fn lemma_digit_run(s: Seq<char>, from: int, to: int)
    requires
        0 <= from <= to <= s.len(),
        forall|i: int| from <= i < to ==> digit(#[trigger] s[i]),
        to < s.len() ==> !digit(s[to]),
    ensures
        digits_end(s, from) == to,
    decreases to - from,
{
    if from < to {
        assert(digit(s[from]));
        lemma_digit_run(s, from + 1, to);
    }
}

/// A literal of digits with a point in it says what its digits say, moved by as many places as stand
/// behind the point: counted in billionths, up to nine of them.
pub proof fn a_point_moves_the_digits(whole: Seq<char>, fraction: Seq<char>)
    requires
        forall|i: int| 0 <= i < whole.len() ==> digit(#[trigger] whole[i]),
        forall|i: int| 0 <= i < fraction.len() ==> digit(#[trigger] fraction[i]),
        whole.len() + fraction.len() > 0,
        fraction.len() <= 9,
        value_of(whole + fraction) * pow(10, (9 - fraction.len()) as nat) <= MOST,
    ensures
        number(whole + seq!['.'] + fraction) == Some(
            Number::Finite {
                negative: false,
                nanos: (value_of(whole + fraction) * pow(10, (9 - fraction.len()) as nat)) as u128,
                more: false,
            },
        ),
{
    let text = whole + seq!['.'] + fraction;
    lemma_plain_literal(text);
    let n = whole.len() as int;
    assert forall|i: int| 0 <= i < n implies digit(#[trigger] text[i]) by {
        assert(text[i] == whole[i]);
    }
    assert(text[n] == '.');
    lemma_digit_run(text, 0, n);
    assert forall|i: int| n + 1 <= i < text.len() implies digit(#[trigger] text[i]) by {
        assert(text[i] == fraction[i - n - 1]);
    }
    lemma_digit_run(text, n + 1, text.len() as int);
    assert(text.subrange(0, n) =~= whole);
    assert(text.subrange(n + 1, text.len() as int) =~= fraction);
    lemma_pow_positive(10, (9 - fraction.len()) as nat);
    assert(value_of(whole + fraction) * pow(10, (9 - fraction.len()) as nat) >= 0) by (nonlinear_arith)
        requires
            pow(10, (9 - fraction.len()) as nat) > 0,
            value_of(whole + fraction) >= 0,
    ;
}

/// Nothing in a text of digits and points is a capital, a sign or a word.
proof fn lemma_plain_literal(text: Seq<char>)
    requires
        text.len() > 0,
        forall|i: int| 0 <= i < text.len() ==> digit(#[trigger] text[i]) || text[i] == '.',
    ensures
        crate::scan::ascii_lowered(text) == text,
        text[0] != '+',
        text[0] != '-',
        text != "inf"@,
        text != "infinity"@,
        text != "nan"@,
{
    reveal_strlit("inf");
    reveal_strlit("infinity");
    reveal_strlit("nan");
    assert(crate::scan::ascii_lowered(text) =~= text) by {
        assert forall|i: int| 0 <= i < text.len() implies crate::scan::ascii_lowered(text)[i] == text[i] by {
            assert(digit(text[i]) || text[i] == '.');
        }
    }
    assert("inf"@[0] == 'i' && "infinity"@[0] == 'i' && "nan"@[0] == 'n');
    assert(digit(text[0]) || text[0] == '.');
}

/// A whole number counts a billion billionths to each.
pub proof fn a_whole_number_reads_back(n: nat)
    requires
        n * 1_000_000_000 <= MOST,
    ensures
        number(decimal(n)) == Some(
            Number::Finite { negative: false, nanos: (n * 1_000_000_000) as u128, more: false },
        ),
{
    let d = decimal(n);
    crate::scan::lemma_decimal(n);
    lemma_plain_literal(d);
    crate::scan::lemma_digits_end(d, 0);
    assert(d.subrange(0, d.len() as int) + d.subrange(d.len() as int, d.len() as int) =~= d);
    assert(pow(10, 9) == 1_000_000_000) by {
        reveal_with_fuel(pow, 10);
    }
}

/// A sign before a literal turns it: a minus below zero, while a plus says nothing.
pub proof fn a_sign_turns_a_number(text: Seq<char>, nanos: u128, more: bool)
    requires
        number(text) == Some(Number::Finite { negative: false, nanos, more }),
        text.len() > 0,
        text[0] != '+',
    ensures
        number(seq!['-'] + text) == Some(Number::Finite { negative: true, nanos, more }),
        number(seq!['+'] + text) == Some(Number::Finite { negative: false, nanos, more }),
{
    let s = crate::scan::ascii_lowered(text);
    assert(s[0] != '-');
    assert(s[0] != '+') by {
        assert(s[0] == crate::scan::ascii_lower(text[0]));
    }
    let minus = seq!['-'] + text;
    let plus = seq!['+'] + text;
    assert(crate::scan::ascii_lowered(minus).skip(1) =~= s) by {
        assert forall|i: int| 0 <= i < s.len() implies crate::scan::ascii_lowered(minus).skip(1)[i] == s[i] by {
            assert(minus[i + 1] == text[i]);
        }
    }
    assert(crate::scan::ascii_lowered(plus).skip(1) =~= s) by {
        assert forall|i: int| 0 <= i < s.len() implies crate::scan::ascii_lowered(plus).skip(1)[i] == s[i] by {
            assert(plus[i + 1] == text[i]);
        }
    }
    assert(crate::scan::ascii_lowered(minus)[0] == '-');
    assert(crate::scan::ascii_lowered(plus)[0] == '+');
}

/// Case says nothing in a number.
pub proof fn a_number_has_no_case(text: Seq<char>)
    ensures
        number(crate::scan::ascii_lowered(text)) == number(text),
{
    assert(crate::scan::ascii_lowered(crate::scan::ascii_lowered(text)) =~= crate::scan::ascii_lowered(text));
}

/// What counts as a length is finite and above zero, if only by what is finer than a billionth, which
/// then counts as one.
pub proof fn what_counts_as_a_length(n: Number)
    ensures
        n.positive() <==> (n matches Number::Finite { negative, nanos, more } && !negative && (nanos > 0 || more)),
        n matches Number::Finite { negative, nanos, more } ==> nanos > 0 ==> n.count() == nanos,
        n.positive() ==> n.count() >= 1,
        n matches Number::Finite { negative, nanos, more } ==> nanos == 0 ==> n.count() == 1,
{
}

proof fn lemma_value_of_joined(a: Seq<char>, b: Seq<char>)
    ensures
        value_of(a + b) == value_of(a) * pow(10, b.len()) + value_of(b),
    decreases b.len(),
{
    if b.len() == 0 {
        assert(a + b =~= a);
        lemma_pow0(10);
        assert(value_of(a) * 1 == value_of(a)) by (nonlinear_arith);
    } else {
        let rest = b.drop_last();
        lemma_value_of_joined(a, rest);
        assert((a + b).drop_last() =~= a + rest);
        assert((a + b).last() == b.last());
        lemma_pow_adds(10, 1, rest.len());
        lemma_pow1(10);
        let (v, p) = (value_of(a) as int, pow(10, rest.len()));
        assert((v * p) * 10 == v * (10 * p)) by (nonlinear_arith);
    }
}

proof fn lemma_padded(n: nat, places: nat)
    requires
        n < pow(10, places),
    ensures
        padded(n, places).len() == places,
        forall|i: int| 0 <= i < places ==> digit(#[trigger] padded(n, places)[i]),
        value_of(padded(n, places)) == n,
    decreases places,
{
    if places > 0 {
        lemma_pow_adds(10, 1, (places - 1) as nat);
        lemma_pow1(10);
        lemma_padded(n / 10, (places - 1) as nat);
        let p = padded(n, places);
        let last = ('0' as nat + n % 10) as char;
        assert(digit(last));
        assert(p.drop_last() =~= padded(n / 10, (places - 1) as nat));
    } else {
        lemma_pow0(10);
    }
}

proof fn lemma_fraction(nanos: nat, places: nat)
    requires
        nanos < pow(10, places),
    ensures
        ({
            let f = fraction_digits(nanos, places);
            &&& f.len() <= places
            &&& forall|i: int| 0 <= i < f.len() ==> digit(#[trigger] f[i])
            &&& value_of(f) * pow(10, (places - f.len()) as nat) == nanos
            &&& nanos == 0 <==> f.len() == 0
        }),
    decreases places,
{
    let f = fraction_digits(nanos, places);
    if places == 0 || nanos == 0 {
        lemma_pow0(10);
        assert(0 * pow(10, places) == 0) by (nonlinear_arith);
    } else {
        lemma_pow_adds(10, 1, (places - 1) as nat);
        lemma_pow1(10);
        if nanos % 10 == 0 {
            lemma_fraction(nanos / 10, (places - 1) as nat);
            lemma_pow_adds(10, 1, (places - 1 - f.len()) as nat);
            let (v, p) = (value_of(f) as int, pow(10, (places - 1 - f.len()) as nat));
            assert(v * (10 * p) == 10 * (v * p)) by (nonlinear_arith);
        } else {
            lemma_padded(nanos, places);
            lemma_pow0(10);
        }
    }
}

/// What is written of a number is the number: read again, it is the same count of billionths, on the
/// same side of zero.
pub proof fn what_is_rendered_reads_back(nanos: u128)
    requires
        nanos <= MOST,
    ensures
        number(rendered(Number::Finite { negative: false, nanos, more: false })) == Some(
            Number::Finite { negative: false, nanos, more: false },
        ),
{
    reveal_strlit("");
    reveal_strlit(".");
    let whole = (nanos / 1_000_000_000) as nat;
    let part = (nanos % 1_000_000_000) as nat;
    assert(pow(10, 9) == 1_000_000_000) by {
        reveal_with_fuel(pow, 10);
    }
    lemma_fraction(part, 9);
    crate::scan::lemma_decimal(whole);
    let d = decimal(whole);
    let f = fraction_digits(part, 9);
    if f.len() == 0 {
        assert(""@ + d + ""@ =~= d);
        a_whole_number_reads_back(whole);
    } else {
        assert("."@ =~= seq!['.']);
        assert(""@ + d + ("."@ + f) =~= d + seq!['.'] + f);
        lemma_value_of_joined(d, f);
        let left = (9 - f.len()) as nat;
        lemma_pow_adds(10, f.len(), left);
        let (w, a, b) = (whole as int, pow(10, f.len()), pow(10, left));
        assert((w * a + value_of(f)) * b == w * (a * b) + value_of(f) * b) by (nonlinear_arith);
        a_point_moves_the_digits(d, f);
    }
}

/// An exponent moves the point by as many places as it says.
pub proof fn an_exponent_moves_the_point(digits: Seq<char>, places: nat)
    requires
        digits.len() > 0,
        forall|i: int| 0 <= i < digits.len() ==> digit(#[trigger] digits[i]),
        value_of(digits) * pow(10, places + 9) <= MOST,
    ensures
        number(digits + seq!['e'] + decimal(places)) == Some(
            Number::Finite {
                negative: false,
                nanos: (value_of(digits) * pow(10, places + 9)) as u128,
                more: false,
            },
        ),
{
    reveal_strlit("inf");
    reveal_strlit("infinity");
    reveal_strlit("nan");
    let d = decimal(places);
    let text = digits + seq!['e'] + d;
    crate::scan::lemma_decimal(places);
    let n = digits.len() as int;
    assert(crate::scan::ascii_lowered(text) =~= text) by {
        assert forall|i: int| 0 <= i < text.len() implies crate::scan::ascii_lowered(text)[i] == text[i] by {
            if i < n {
                assert(text[i] == digits[i]);
            } else if i > n {
                assert(text[i] == d[i - n - 1]);
            }
        }
    }
    assert(text[0] == digits[0]);
    assert("inf"@[0] == 'i' && "infinity"@[0] == 'i' && "nan"@[0] == 'n');
    assert forall|i: int| 0 <= i < n implies digit(#[trigger] text[i]) by {
        assert(text[i] == digits[i]);
    }
    assert(text[n] == 'e');
    lemma_digit_run(text, 0, n);
    assert forall|i: int| n + 1 <= i < text.len() implies digit(#[trigger] text[i]) by {
        assert(text[i] == d[i - n - 1]);
    }
    lemma_digit_run(text, n + 1, text.len() as int);
    assert(text[n + 1] == d[0] && digit(text[n + 1]));
    assert(text.subrange(n + 1, text.len() as int) =~= d);
    assert(text.subrange(0, n) + text.subrange(n, n) =~= digits);
    lemma_pow_positive(10, places + 9);
    assert(value_of(digits) * pow(10, places + 9) >= 0) by (nonlinear_arith)
        requires
            pow(10, places + 9) > 0,
            value_of(digits) >= 0,
    ;
}

/// What is finer than a billionth is cut off, and noted where it is not nothing.
pub proof fn what_is_finer_is_noted(whole: Seq<char>, nine: Seq<char>, finer: Seq<char>)
    requires
        forall|i: int| 0 <= i < whole.len() ==> digit(#[trigger] whole[i]),
        forall|i: int| 0 <= i < nine.len() ==> digit(#[trigger] nine[i]),
        forall|i: int| 0 <= i < finer.len() ==> digit(#[trigger] finer[i]),
        nine.len() == 9,
        finer.len() > 0,
        value_of(whole + nine) <= MOST,
    ensures
        number(whole + seq!['.'] + nine + finer) == Some(
            Number::Finite {
                negative: false,
                nanos: value_of(whole + nine) as u128,
                more: value_of(finer) > 0,
            },
        ),
{
    let fraction = nine + finer;
    let text = whole + seq!['.'] + nine + finer;
    assert(text =~= whole + seq!['.'] + fraction);
    let n = whole.len() as int;
    assert forall|i: int| 0 <= i < text.len() && i != n implies digit(#[trigger] text[i]) by {
        if i < n {
            assert(text[i] == whole[i]);
        } else if i < n + 10 {
            assert(text[i] == nine[i - n - 1]);
        } else {
            assert(text[i] == finer[i - n - 10]);
        }
    }
    assert(text[n] == '.');
    lemma_plain_literal(text);
    lemma_digit_run(text, 0, n);
    lemma_digit_run(text, n + 1, text.len() as int);
    assert(text.subrange(0, n) =~= whole);
    assert(text.subrange(n + 1, text.len() as int) =~= fraction);
    let digits = whole + fraction;
    assert(digits.take(digits.len() - finer.len()) =~= whole + nine);
    assert(digits.skip(digits.len() - finer.len()) =~= finer);
}

} // verus!
