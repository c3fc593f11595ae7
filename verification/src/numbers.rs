//! Whole numbers as decimal text.

use vstd::prelude::*;

use crate::text::chars_of;

verus! {

/// The decimal digit for `d`.
pub open spec fn digit_char(d: int) -> char {
    (48 + d) as char
}

/// Whether `c` is a decimal digit.
pub open spec fn is_digit(c: char) -> bool {
    '0' <= c <= '9'
}

/// What a decimal digit stands for.
pub open spec fn digit_value(c: char) -> int {
    c as int - 48
}

/// `n` in decimal, without leading zeros.
pub open spec fn decimal(n: nat) -> Seq<char>
    decreases n,
{
    if n < 10 {
        seq![digit_char(n as int)]
    } else {
        decimal(n / 10).push(digit_char((n % 10) as int))
    }
}

/// `n` in decimal, with a minus sign where it is negative.
pub open spec fn decimal_int(n: int) -> Seq<char> {
    if n < 0 {
        seq!['-'] + decimal((-n) as nat)
    } else {
        decimal(n as nat)
    }
}

/// The decimal digits of `n`.
pub fn decimal_digits(n: u128) -> (v: Vec<char>)
    ensures
        v@ == decimal(n as nat),
{
    let mut reversed: Vec<char> = Vec::new();
    let mut rest: u128 = n;
    while rest >= 10
        invariant
            decimal(rest as nat) + reversed@.reverse() == decimal(n as nat),
        decreases rest,
    {
        let ghost before = rest;
        let ghost shown = reversed@;
        let digit: u8 = (rest % 10) as u8;
        reversed.push((digit + 48) as char);
        rest = rest / 10;
        assert(reversed@.reverse() =~= seq![digit_char((before % 10) as int)] + shown.reverse());
        assert(decimal(rest as nat) + reversed@.reverse() =~= decimal(before as nat)
            + shown.reverse());
    }
    reversed.push((rest as u8 + 48) as char);
    let ghost all = reversed@;
    let mut v: Vec<char> = Vec::new();
    let mut i: usize = reversed.len();
    assert(all.reverse() =~= seq![digit_char(rest as int)] + all.drop_last().reverse());
    while i > 0
        invariant
            i <= reversed@.len(),
            reversed@ == all,
            v@ == all.reverse().take(all.len() - i),
        decreases i,
    {
        i -= 1;
        v.push(reversed[i]);
        assert(v@ =~= all.reverse().take(all.len() - i));
    }
    assert(all.reverse().take(all.len() as int) =~= all.reverse());
    v
}

/// Appends `n` in decimal to `out`.
pub fn push_decimal(out: &mut String, n: u128)
    ensures
        final(out)@ == old(out)@ + decimal(n as nat),
{
    let digits = decimal_digits(n);
    let ghost before = out@;
    let mut i: usize = 0;
    while i < digits.len()
        invariant
            i <= digits@.len(),
            out@ == before + digits@.take(i as int),
        decreases digits@.len() - i,
    {
        out.push(digits[i]);
        i += 1;
        assert(digits@.take(i as int) =~= digits@.take(i - 1).push(digits@[i - 1]));
    }
    assert(digits@.take(digits@.len() as int) =~= digits@);
}

/// Appends `n` in decimal to `out`, with a minus sign where it is negative.
pub fn push_decimal_int(out: &mut String, n: i64)
    ensures
        final(out)@ == old(out)@ + decimal_int(n as int),
{
    if n < 0 {
        out.push('-');
        let magnitude: i128 = -(n as i128);
        push_decimal(out, magnitude as u128);
        assert(out@ =~= old(out)@ + decimal_int(n as int));
    } else {
        push_decimal(out, n as u128);
    }
}

/// `n` in decimal.
pub fn decimal_text(n: u64) -> (s: String)
    ensures
        s@ == decimal(n as nat),
{
    let mut s = String::new();
    push_decimal(&mut s, n as u128);
    assert(s@ =~= decimal(n as nat));
    s
}

/// `n` in decimal, with a minus sign where it is negative.
pub fn decimal_int_text(n: i64) -> (s: String)
    ensures
        s@ == decimal_int(n as int),
{
    let mut s = String::new();
    push_decimal_int(&mut s, n);
    assert(s@ =~= decimal_int(n as int));
    s
}

// ---------------------------------------------------------------------------------------------
// Reading numbers
// ---------------------------------------------------------------------------------------------

/// Whether every character of `s` is a decimal digit.
pub open spec fn all_digits(s: Seq<char>) -> bool {
    forall|i: int| 0 <= i < s.len() ==> is_digit(#[trigger] s[i])
}

/// The number that the digits of `s` stand for.
pub open spec fn digits_value(s: Seq<char>) -> nat
    decreases s.len(),
{
    if s.len() == 0 {
        0
    } else {
        10 * digits_value(s.drop_last()) + digit_value(s.last()) as nat
    }
}

/// `s` without a sign at its head.
pub open spec fn without_sign(s: Seq<char>, minus_too: bool) -> Seq<char> {
    if s.len() > 0 && (s[0] == '+' || (minus_too && s[0] == '-')) {
        s.drop_first()
    } else {
        s
    }
}

/// The number that `s` spells: an optional sign (a minus sign only where `signed`), then at least
/// one digit.
pub open spec fn spelled(s: Seq<char>, signed: bool) -> Option<int> {
    let body = without_sign(s, signed);
    if body.len() == 0 || !all_digits(body) {
        None
    } else if signed && s[0] == '-' {
        Some(-(digits_value(body) as int))
    } else {
        Some(digits_value(body) as int)
    }
}

/// The number that `s` spells, if it lies between `min` and `max`.
pub open spec fn spelled_within(s: Seq<char>, signed: bool, min: int, max: int) -> Option<int> {
    match spelled(s, signed) {
        Some(n) => if min <= n <= max {
            Some(n)
        } else {
            None
        },
        None => None,
    }
}

proof fn lemma_digits_value_grows(s: Seq<char>, k: int)
    requires
        0 <= k <= s.len(),
        all_digits(s),
    ensures
        digits_value(s.take(k)) <= digits_value(s),
    decreases s.len() - k,
{
    if k < s.len() {
        lemma_digits_value_grows(s, k + 1);
        assert(s.take(k + 1).drop_last() =~= s.take(k));
        assert(is_digit(s[k]));
    } else {
        assert(s.take(k) =~= s);
    }
}

/// The number that the digits `v[from..]` stand for, if it is at most `limit`.
fn read_digits(v: &[char], from: usize, limit: u128) -> (r: Option<u128>)
    requires
        from <= v@.len(),
        limit <= u64::MAX,
    ensures
        ({
            let body = v@.skip(from as int);
            r == if body.len() > 0 && all_digits(body) && digits_value(body) <= limit {
                Some(digits_value(body) as u128)
            } else {
                None
            }
        }),
{
    let ghost body = v@.skip(from as int);
    if from == v.len() {
        return None;
    }
    let mut value: u128 = 0;
    let mut i: usize = from;
    while i < v.len()
        invariant
            from <= i <= v@.len(),
            body == v@.skip(from as int),
            limit <= u64::MAX,
            value <= limit,
            value == digits_value(body.take(i - from)),
            all_digits(body.take(i - from)),
        decreases v@.len() - i,
    {
        let c = v[i];
        assert(c == body[i - from]);
        if c < '0' || c > '9' {
            assert(!is_digit(body[i - from]));
            return None;
        }
        let digit: u128 = (c as u8 - 48) as u128;
        assert(body.take(i + 1 - from).drop_last() =~= body.take(i - from));
        assert(all_digits(body.take(i + 1 - from))) by {
            assert forall|k: int| 0 <= k < i + 1 - from implies is_digit(
                #[trigger] body.take(i + 1 - from)[k],
            ) by {
                if k < i - from {
                    assert(is_digit(body.take(i - from)[k]));
                }
            }
        }
        value = value * 10 + digit;
        assert(value == digits_value(body.take(i + 1 - from)));
        if value > limit {
            proof {
                if all_digits(body) {
                    lemma_digits_value_grows(body, i + 1 - from);
                }
            }
            return None;
        }
        i += 1;
    }
    assert(body.take(v@.len() - from) =~= body);
    Some(value)
}

/// Reads an unsigned number of at most `limit`, as `str::parse` does: an optional plus sign, then
/// decimal digits.
pub fn parse_unsigned(s: &str, limit: u64) -> (r: Option<u64>)
    ensures
        (match r {
            Some(n) => Some(n as int),
            None => None,
        }) == spelled_within(s@, false, 0, limit as int),
{
    let v = chars_of(s);
    let from: usize = if v.len() > 0 && v[0] == '+' {
        1
    } else {
        0
    };
    assert(v@.skip(from as int) =~= without_sign(s@, false));
    match read_digits(&v, from, limit as u128) {
        Some(n) => Some(n as u64),
        None => None,
    }
}

/// Reads a signed number from `min` to `max`, as `str::parse` does: an optional sign, then decimal
/// digits.
pub fn parse_signed(s: &str, min: i64, max: i64) -> (r: Option<i64>)
    requires
        min < 0 <= max,
    ensures
        (match r {
            Some(n) => Some(n as int),
            None => None,
        }) == spelled_within(s@, true, min as int, max as int),
{
    let v = chars_of(s);
    if v.len() > 0 && v[0] == '-' {
        assert(v@.skip(1) =~= without_sign(s@, true));
        let limit: i128 = -(min as i128);
        match read_digits(&v, 1, limit as u128) {
            Some(n) => {
                let negative: i128 = -(n as i128);
                Some(negative as i64)
            },
            None => None,
        }
    } else {
        let from: usize = if v.len() > 0 && v[0] == '+' {
            1
        } else {
            0
        };
        assert(v@.skip(from as int) =~= without_sign(s@, true));
        match read_digits(&v, from, max as u128) {
            Some(n) => Some(n as i64),
            None => None,
        }
    }
}

// ---------------------------------------------------------------------------------------------
// Laws
// ---------------------------------------------------------------------------------------------

/// Reading the decimal text of a number gives the number back.
pub proof fn decimal_reads_back(n: nat)
    ensures
        decimal(n).len() > 0,
        all_digits(decimal(n)),
        digits_value(decimal(n)) == n,
        spelled(decimal(n), false) == Some(n as int),
        spelled(decimal(n), true) == Some(n as int),
    decreases n,
{
    let s = decimal(n);
    if n < 10 {
        assert(s.drop_last() =~= Seq::<char>::empty());
        assert(digits_value(s.drop_last()) == 0);
    } else {
        decimal_reads_back(n / 10);
        let head = decimal(n / 10);
        assert(s.drop_last() =~= head);
        assert forall|i: int| 0 <= i < s.len() implies is_digit(#[trigger] s[i]) by {
            if i < head.len() {
                assert(is_digit(head[i]));
            }
        }
    }
    assert(is_digit(s[0]));
    assert(without_sign(s, false) == s);
    assert(without_sign(s, true) == s);
}

/// Reading the signed decimal text of a number gives the number back.
pub proof fn decimal_int_reads_back(n: int)
    ensures
        spelled(decimal_int(n), true) == Some(n),
{
    if n < 0 {
        decimal_reads_back((-n) as nat);
        assert(decimal_int(n).drop_first() =~= decimal((-n) as nat));
    } else {
        decimal_reads_back(n as nat);
    }
}

/// A number that was written is read where it lies within the bounds, and nothing is read where it
/// does not; a sign alone, no text at all, and a text with anything but digits behind the sign spell
/// no number.
pub proof fn only_numbers_within_the_bounds_are_read(n: int, min: int, max: int, text: Seq<char>)
    ensures
        min <= n <= max ==> spelled_within(decimal_int(n), true, min, max) == Some(n),
        !(min <= n <= max) ==> spelled_within(decimal_int(n), true, min, max) is None,
        n >= 0 && min <= n <= max ==> spelled_within(decimal_int(n), false, min, max) == Some(n),
        n < 0 ==> spelled_within(decimal_int(n), false, min, max) is None,
        spelled_within(Seq::empty(), true, min, max) is None,
        spelled_within(seq!['-'], true, min, max) is None,
        spelled_within(seq!['+'], false, min, max) is None,
        forall|k: int, signed: bool|
            1 <= k < text.len() && !is_digit(#[trigger] text[k]) ==> #[trigger] spelled_within(
                text,
                signed,
                min,
                max,
            ) is None,
{
    decimal_int_reads_back(n);
    if n >= 0 {
        decimal_reads_back(n as nat);
    } else {
        let s = decimal_int(n);
        assert(s[0] == '-');
        assert(!is_digit(s[0]));
        assert(!all_digits(s));
    }
    assert(seq!['-'].drop_first() =~= Seq::<char>::empty());
    assert(seq!['+'].drop_first() =~= Seq::<char>::empty());
    assert forall|k: int, signed: bool|
        1 <= k < text.len() && !is_digit(#[trigger] text[k]) implies #[trigger] spelled_within(
        text,
        signed,
        min,
        max,
    ) is None by {
        let body = without_sign(text, signed);
        if body.len() == text.len() {
            assert(!is_digit(body[k]));
        } else {
            assert(body[k - 1] == text[k]);
            assert(!is_digit(body[k - 1]));
        }
    }
}

/// A plus sign before a number does not count.
pub proof fn a_plus_sign_does_not_count(n: nat)
    ensures
        spelled(seq!['+'] + decimal(n), false) == Some(n as int),
        spelled(seq!['+'] + decimal(n), true) == Some(n as int),
{
    decimal_reads_back(n);
    assert((seq!['+'] + decimal(n)).drop_first() =~= decimal(n));
}

} // verus!
