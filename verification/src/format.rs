//! Numbers as people read them.

use vstd::prelude::*;

use crate::numbers::{all_digits, decimal, decimal_reads_back, digit_char, digits_value, is_digit,
    push_decimal};
use crate::size::ByteSize;
use crate::text::{chars_of, push_repeated, push_text};

verus! {

// ---------------------------------------------------------------------------------------------
// Counts
// ---------------------------------------------------------------------------------------------

/// The last three digits of `n`.
pub open spec fn three_digits(n: nat) -> Seq<char> {
    seq![
        digit_char((n / 100 % 10) as int),
        digit_char((n / 10 % 10) as int),
        digit_char((n % 10) as int),
    ]
}

/// `n` in decimal with a comma before every group of three digits but the first.
pub open spec fn grouped(n: nat) -> Seq<char>
    decreases n,
{
    if n < 1000 {
        decimal(n)
    } else {
        grouped(n / 1000).push(',') + three_digits(n % 1000)
    }
}

/// The text without its commas.
pub open spec fn without_commas(s: Seq<char>) -> Seq<char>
    decreases s.len(),
{
    if s.len() == 0 {
        s
    } else if s.last() == ',' {
        without_commas(s.drop_last())
    } else {
        without_commas(s.drop_last()).push(s.last())
    }
}

proof fn lemma_no_commas(n: nat)
    ensures
        without_commas(decimal(n)) == decimal(n),
    decreases n,
{
    let s = decimal(n);
    assert(s.last() != ',');
    if n < 10 {
        assert(s.drop_last() =~= Seq::empty());
        assert(without_commas(s.drop_last()) == s.drop_last());
    } else {
        lemma_no_commas(n / 10);
        assert(s.drop_last() =~= decimal(n / 10));
    }
    assert(without_commas(s) =~= s);
}

/// Setting the thousands of a count apart keeps its digits.
pub proof fn a_count_keeps_its_digits(n: nat)
    ensures
        without_commas(grouped(n)) == decimal(n),
    decreases n,
{
    if n < 1000 {
        lemma_no_commas(n);
    } else {
        a_count_keeps_its_digits(n / 1000);
        let head = grouped(n / 1000);
        let three = three_digits(n % 1000);
        let s = head.push(',') + three;
        let s1 = s.drop_last();
        let s2 = s1.drop_last();
        let s3 = s2.drop_last();
        assert(s3 =~= head.push(','));
        assert(s3.drop_last() =~= head);
        assert(without_commas(s3) == without_commas(head));
        assert(without_commas(s2) == without_commas(s3).push(three[0]));
        assert(without_commas(s1) == without_commas(s2).push(three[1]));
        assert(without_commas(s) == without_commas(s1).push(three[2]));
        assert(n / 10 / 10 / 10 == n / 1000);
        assert(n % 1000 % 10 == n % 10);
        assert(n % 1000 / 10 % 10 == n / 10 % 10);
        assert(n % 1000 / 100 % 10 == n / 10 / 10 % 10);
        assert(decimal(n) == decimal(n / 10).push(digit_char((n % 10) as int)));
        assert(decimal(n / 10) == decimal(n / 10 / 10).push(digit_char((n / 10 % 10) as int)));
        assert(decimal(n / 10 / 10) == decimal(n / 10 / 10 / 10).push(
            digit_char((n / 10 / 10 % 10) as int),
        ));
    }
}

fn digit(d: u64) -> (r: char)
    requires
        d < 10,
    ensures
        r == digit_char(d as int),
{
    (d as u8 + 48) as char
}

fn push_grouped(out: &mut String, n: u64)
    ensures
        final(out)@ == old(out)@ + grouped(n as nat),
    decreases n,
{
    if n < 1000 {
        push_decimal(out, n as u128);
    } else {
        let rest: u64 = n % 1000;
        push_grouped(out, n / 1000);
        out.push(',');
        out.push(digit(rest / 100 % 10));
        out.push(digit(rest / 10 % 10));
        out.push(digit(rest % 10));
        assert(out@ =~= old(out)@ + grouped(n as nat));
    }
}

/// A count with its thousands set apart, such as `1,234,567`.
#[must_use]
pub fn format_count(value: u64) -> (r: String)
    ensures
        r@ == grouped(value as nat),
{
    let mut r = String::new();
    push_grouped(&mut r, value);
    assert(r@ =~= grouped(value as nat));
    r
}

// ---------------------------------------------------------------------------------------------
// Sizes
// ---------------------------------------------------------------------------------------------

/// `n / d` rounded to the nearest whole number, ties to the even one.
pub open spec fn rounded(n: nat, d: nat) -> nat {
    if 2 * (n % d) > d || (2 * (n % d) == d && n / d % 2 == 1) {
        n / d + 1
    } else {
        n / d
    }
}

/// `n / d` rounded to the nearest whole number, ties to the even one.
fn round_half_even(n: u128, d: u128) -> (r: u128)
    requires
        0 < d <= 0x1_0000_0000_0000_0000,
        n < 0x1_0000_0000_0000_0000_0000_0000,
    ensures
        r == rounded(n as nat, d as nat),
        r <= n / d + 1,
{
    let whole: u128 = n / d;
    let rest: u128 = n % d;
    assert(rest < d);
    assert(whole <= n) by (nonlinear_arith)
        requires
            whole == n / d,
            d > 0,
    ;
    if 2 * rest > d || (2 * rest == d && whole % 2 == 1) {
        whole + 1
    } else {
        whole
    }
}

/// The distance between neighbouring numbers with 53 significant bits around `n`.
pub open spec fn spacing(n: nat) -> nat
    decreases n,
{
    if n < 0x20_0000_0000_0000 {
        1
    } else {
        2 * spacing(n / 2)
    }
}

/// `n` rounded to 53 significant bits, ties to even: the precision that sizes are shown from.
pub open spec fn to_53_bits(n: nat) -> nat {
    rounded(n, spacing(n)) * spacing(n)
}

/// Whether `n` is one of the distances that numbers below `2^64` have.
spec fn is_step(n: u128) -> bool {
    n == 1 || n == 2 || n == 4 || n == 8 || n == 16 || n == 32 || n == 64 || n == 128 || n == 256 || n
        == 512 || n == 1024 || n == 2048
}

fn round_to_53_bits(n: u64) -> (r: u128)
    ensures
        r == to_53_bits(n as nat),
        r <= 0x1_0000_0000_0000_0000,
{
    let mut step: u128 = 1;
    let mut rest: u64 = n;
    while rest >= 0x20_0000_0000_0000
        invariant
            step * spacing(rest as nat) == spacing(n as nat),
            is_step(step),
            step * rest <= n,
            n < step * rest + step,
        decreases rest,
    {
        proof {
            let half = rest / 2;
            assert(step * (2 * spacing(half as nat)) == (2 * step) * spacing(half as nat))
                by (nonlinear_arith);
            assert((2 * step) * half <= n && n < (2 * step) * half + 2 * step) by (nonlinear_arith)
                requires
                    step * rest <= n,
                    n < step * rest + step,
                    half == rest / 2,
                    step >= 1,
            ;
            assert(step < 2048) by (nonlinear_arith)
                requires
                    step * rest <= n,
                    rest >= 0x20_0000_0000_0000,
                    n <= 0xffff_ffff_ffff_ffff,
            ;
        }
        rest = rest / 2;
        step = 2 * step;
    }
    assert(step == spacing(n as nat)) by (nonlinear_arith)
        requires
            step * spacing(rest as nat) == spacing(n as nat),
            spacing(rest as nat) == 1,
    ;
    let whole = round_half_even(n as u128, step);
    proof {
        assert(n as u128 / step == rest) by (nonlinear_arith)
            requires
                step * rest <= n,
                n < step * rest + step,
                step >= 1,
        ;
        assert(whole * step <= 0x20_0000_0000_0000 * step) by (nonlinear_arith)
            requires
                whole <= 0x20_0000_0000_0000,
                step >= 1,
        ;
    }
    whole * step
}

/// How many units of 1024 fit into each other before the number falls below 1024, at most four.
pub open spec fn unit_index(n: nat) -> nat {
    if n < 1024 {
        0
    } else if n < 0x10_0000 {
        1
    } else if n < 0x4000_0000 {
        2
    } else if n < 0x100_0000_0000 {
        3
    } else {
        4
    }
}

/// The bytes in a unit.
pub open spec fn unit_bytes(unit: nat) -> nat {
    if unit == 0 {
        1
    } else if unit == 1 {
        1024
    } else if unit == 2 {
        0x10_0000
    } else if unit == 3 {
        0x4000_0000
    } else {
        0x100_0000_0000
    }
}

/// `n / d` with `places` digits behind the point, at most two.
pub open spec fn with_places(n: nat, d: nat, places: nat) -> Seq<char> {
    if places == 0 {
        decimal(rounded(n, d))
    } else if places == 1 {
        let tenths = rounded(n * 10, d);
        decimal(tenths / 10) + seq!['.', digit_char((tenths % 10) as int)]
    } else {
        let hundredths = rounded(n * 100, d);
        decimal(hundredths / 100) + seq![
            '.',
            digit_char((hundredths / 10 % 10) as int),
            digit_char((hundredths % 10) as int),
        ]
    }
}

fn push_with_places(out: &mut String, n: u128, d: u128, places: u8)
    requires
        0 < d <= 0x100_0000_0000,
        n <= 0x1_0000_0000_0000_0000,
        places <= 2,
    ensures
        final(out)@ == old(out)@ + with_places(n as nat, d as nat, places as nat),
{
    if places == 0 {
        push_decimal(out, round_half_even(n, d));
    } else if places == 1 {
        let tenths = round_half_even(n * 10, d);
        push_decimal(out, tenths / 10);
        out.push('.');
        out.push(digit((tenths % 10) as u64));
        assert(out@ =~= old(out)@ + with_places(n as nat, d as nat, places as nat));
    } else {
        let hundredths = round_half_even(n * 100, d);
        push_decimal(out, hundredths / 100);
        out.push('.');
        out.push(digit((hundredths / 10 % 10) as u64));
        out.push(digit((hundredths % 10) as u64));
        assert(out@ =~= old(out)@ + with_places(n as nat, d as nat, places as nat));
    }
}

/// The name of a unit.
pub open spec fn unit_name(unit: nat) -> Seq<char> {
    if unit == 0 {
        "B"@
    } else if unit == 1 {
        "KB"@
    } else if unit == 2 {
        "MB"@
    } else if unit == 3 {
        "GB"@
    } else {
        "TB"@
    }
}

/// How many digits stand behind the point: fewer the larger the number.
pub open spec fn size_places(n: nat, d: nat) -> nat {
    if n >= 100 * d {
        0
    } else if n >= 10 * d {
        1
    } else {
        2
    }
}

/// A number of bytes in the largest unit that it fills, with three significant digits or the whole
/// part of the number, whichever is longer.
pub open spec fn size_text(bytes: nat) -> Seq<char> {
    let value = to_53_bits(bytes);
    let unit = unit_index(value);
    if unit == 0 {
        decimal(bytes) + seq![' '] + unit_name(0)
    } else {
        let d = unit_bytes(unit);
        with_places(value, d, size_places(value, d)) + seq![' '] + unit_name(unit)
    }
}

fn unit_of(n: u128) -> (r: (u8, u128))
    ensures
        r.0 == unit_index(n as nat),
        r.1 == unit_bytes(unit_index(n as nat)),
        0 < r.1 <= 0x100_0000_0000,
{
    if n < 1024 {
        (0, 1)
    } else if n < 0x10_0000 {
        (1, 1024)
    } else if n < 0x4000_0000 {
        (2, 0x10_0000)
    } else if n < 0x100_0000_0000 {
        (3, 0x4000_0000)
    } else {
        (4, 0x100_0000_0000)
    }
}

/// A number of bytes as people read it, such as `1.50 KB`.
#[must_use]
pub fn format_bytes(bytes: u64) -> (r: String)
    ensures
        r@ == size_text(bytes as nat),
{
    let value = round_to_53_bits(bytes);
    let (unit, d) = unit_of(value);
    let mut r = String::new();
    if unit == 0 {
        push_decimal(&mut r, bytes as u128);
    } else {
        let places: u8 = if value >= 100 * d {
            0
        } else if value >= 10 * d {
            1
        } else {
            2
        };
        push_with_places(&mut r, value, d, places);
    }
    r.push(' ');
    push_text(
        &mut r,
        match unit {
            0 => "B",
            1 => "KB",
            2 => "MB",
            3 => "GB",
            _ => "TB",
        },
    );
    assert(r@ =~= size_text(bytes as nat));
    r
}

/// A number of bytes as people read it, or in decimal where it is asked for as it is.
#[must_use]
pub fn format_size(bytes: u64, raw: bool) -> (r: String)
    ensures
        r@ == if raw {
            decimal(bytes as nat)
        } else {
            size_text(bytes as nat)
        },
{
    if raw {
        let mut r = String::new();
        push_decimal(&mut r, bytes as u128);
        assert(r@ =~= decimal(bytes as nat));
        return r;
    }
    format_bytes(bytes)
}

/// The name of a unit that counts by 1024.
pub open spec fn binary_unit_name(unit: nat) -> Seq<char> {
    if unit == 0 {
        "B"@
    } else if unit == 1 {
        "KiB"@
    } else if unit == 2 {
        "MiB"@
    } else if unit == 3 {
        "GiB"@
    } else {
        "TiB"@
    }
}

/// A size in the largest unit that it fills, with one digit behind the point.
pub open spec fn binary_size_text(bytes: nat) -> Seq<char> {
    let value = to_53_bits(bytes);
    let unit = unit_index(value);
    (if unit == 0 {
        decimal(bytes)
    } else {
        with_places(value, unit_bytes(unit), 1)
    }) + seq![' '] + binary_unit_name(unit)
}

impl ByteSize {
    /// The size as people read it, such as `1.5 KiB`.
    #[must_use]
    pub fn describe(self) -> (r: String)
        ensures
            r@ == binary_size_text(self.0 as nat),
    {
        let value = round_to_53_bits(self.0);
        let (unit, d) = unit_of(value);
        let mut r = String::new();
        if unit == 0 {
            push_decimal(&mut r, self.0 as u128);
        } else {
            push_with_places(&mut r, value, d, 1);
        }
        r.push(' ');
        push_text(
            &mut r,
            match unit {
                0 => "B",
                1 => "KiB",
                2 => "MiB",
                3 => "GiB",
                _ => "TiB",
            },
        );
        assert(r@ =~= binary_size_text(self.0 as nat));
        r
    }
}

/// A size that the precision holds is shown as it is.
pub proof fn small_sizes_are_exact(n: nat)
    requires
        n < 0x20_0000_0000_0000,
    ensures
        to_53_bits(n) == n,
{
    assert(rounded(n, 1) * 1 == n) by (nonlinear_arith)
        requires
            rounded(n, 1) == n,
    ;
}

// ---------------------------------------------------------------------------------------------
// Times and columns
// ---------------------------------------------------------------------------------------------

/// A span of time: milliseconds below a second, `seconds` below a minute, minutes and seconds from
/// there on.
pub open spec fn duration_text(ms: nat, seconds: Seq<char>) -> Seq<char> {
    if ms < 1000 {
        decimal(ms) + " ms"@
    } else if ms < 60_000 {
        seconds + " s"@
    } else {
        decimal(ms / 60_000) + "m "@ + decimal(ms % 60_000 / 1000) + "s"@
    }
}

/// A span of time of `ms` milliseconds, which is `seconds` seconds as text.
#[must_use]
pub fn format_duration(ms: u128, seconds: &str) -> (r: String)
    ensures
        r@ == duration_text(ms as nat, seconds@),
{
    let mut r = String::new();
    if ms < 1000 {
        push_decimal(&mut r, ms);
        push_text(&mut r, " ms");
    } else if ms < 60_000 {
        push_text(&mut r, seconds);
        push_text(&mut r, " s");
    } else {
        push_decimal(&mut r, ms / 60_000);
        push_text(&mut r, "m ");
        push_decimal(&mut r, ms % 60_000 / 1000);
        push_text(&mut r, "s");
    }
    assert(r@ =~= duration_text(ms as nat, seconds@));
    r
}

/// A text filled up with spaces to `width` characters.
pub open spec fn padded(text: Seq<char>, width: nat) -> Seq<char> {
    if text.len() < width {
        text + Seq::new((width - text.len()) as nat, |i: int| ' ')
    } else {
        text
    }
}

/// Appends a text filled up with spaces to `width` characters.
pub fn push_padded(out: &mut String, text: &str, width: usize)
    ensures
        final(out)@ == old(out)@ + padded(text@, width as nat),
{
    let len = chars_of(text).len();
    push_text(out, text);
    if len < width {
        push_repeated(out, ' ', width - len);
    }
    assert(out@ =~= old(out)@ + padded(text@, width as nat));
}

// ---------------------------------------------------------------------------------------------
// Laws
// ---------------------------------------------------------------------------------------------

/// `s` without its points.
pub open spec fn without_point(s: Seq<char>) -> Seq<char>
    decreases s.len(),
{
    if s.len() == 0 {
        s
    } else if s.last() == '.' {
        without_point(s.drop_last())
    } else {
        without_point(s.drop_last()).push(s.last())
    }
}

/// Ten, so often multiplied with itself.
pub open spec fn ten_to(places: nat) -> nat
    decreases places,
{
    if places == 0 {
        1
    } else {
        10 * ten_to((places - 1) as nat)
    }
}

/// 1024, so often multiplied with itself.
pub open spec fn kilos(unit: nat) -> nat
    decreases unit,
{
    if unit == 0 {
        1
    } else {
        1024 * kilos((unit - 1) as nat)
    }
}

proof fn lemma_no_point(s: Seq<char>)
    requires
        all_digits(s),
    ensures
        without_point(s) == s,
    decreases s.len(),
{
    if s.len() > 0 {
        assert(is_digit(s[s.len() - 1]));
        assert forall|k: int| 0 <= k < s.drop_last().len() implies is_digit(
            #[trigger] s.drop_last()[k],
        ) by {
            assert(is_digit(s[k]));
        }
        lemma_no_point(s.drop_last());
        assert(s.drop_last().push(s.last()) =~= s);
    }
}

proof fn lemma_nearest(n: nat, d: nat)
    requires
        d > 0,
    ensures
        2 * (rounded(n, d) * d - n) <= d,
        2 * (n - rounded(n, d) * d) <= d,
{
    let q = n / d;
    let rest = n % d;
    vstd::arithmetic::div_mod::lemma_fundamental_div_mod(n as int, d as int);
    assert(q * d == d * q) by (nonlinear_arith);
    assert((q + 1) * d == q * d + d) by (nonlinear_arith);
}

/// A number with digits behind the point has as many of them as it was asked for, and no other
/// number of so many digits is nearer to the quotient.
pub proof fn shown_digits_are_the_nearest(n: nat, d: nat, places: nat)
    requires
        d > 0,
        places <= 2,
    ensures
        ({
            let text = with_places(n, d, places);
            let shown = digits_value(without_point(text));
            &&& all_digits(without_point(text))
            &&& text.len() == without_point(text).len() + if places > 0 {
                1nat
            } else {
                0
            }
            &&& places > 0 ==> text.len() > places + 1 && text[text.len() - 1 - places] == '.'
            &&& 2 * (shown * d - n * ten_to(places)) <= d
            &&& 2 * (n * ten_to(places) - shown * d) <= d
        }),
{
    reveal_with_fuel(ten_to, 3);
    let whole = rounded(n * ten_to(places), d);
    lemma_nearest(n * ten_to(places), d);
    let text = with_places(n, d, places);
    assert(n * 1 == n) by (nonlinear_arith);
    if places == 0 {
        decimal_reads_back(whole);
        lemma_no_point(text);
    } else if places == 1 {
        let head = decimal(whole / 10);
        let last = digit_char((whole % 10) as int);
        decimal_reads_back(whole / 10);
        lemma_no_point(head);
        assert(is_digit(last));
        assert(text =~= head.push('.').push(last));
        assert(text.drop_last() =~= head.push('.'));
        assert(head.push('.').drop_last() =~= head);
        let bare = without_point(text);
        assert(without_point(head.push('.')) == head);
        assert(bare == head.push(last));
        assert(bare.drop_last() =~= head);
        assert(digits_value(bare) == 10 * (whole / 10) + whole % 10);
        assert forall|k: int| 0 <= k < bare.len() implies is_digit(#[trigger] bare[k]) by {
            if k < head.len() {
                assert(is_digit(head[k]));
            }
        }
    } else {
        let head = decimal(whole / 100);
        let first = digit_char((whole / 10 % 10) as int);
        let last = digit_char((whole % 10) as int);
        decimal_reads_back(whole / 100);
        lemma_no_point(head);
        assert(is_digit(first) && is_digit(last));
        assert(text =~= head.push('.').push(first).push(last));
        assert(text.drop_last() =~= head.push('.').push(first));
        assert(head.push('.').push(first).drop_last() =~= head.push('.'));
        assert(head.push('.').drop_last() =~= head);
        let bare = without_point(text);
        assert(without_point(head.push('.')) == head);
        assert(without_point(head.push('.').push(first)) == head.push(first));
        assert(bare == head.push(first).push(last));
        assert(bare.drop_last() =~= head.push(first));
        assert(head.push(first).drop_last() =~= head);
        assert(digits_value(head.push(first)) == 10 * (whole / 100) + whole / 10 % 10);
        assert(digits_value(bare) == 10 * digits_value(head.push(first)) + whole % 10);
        assert(whole / 10 == 10 * (whole / 100) + whole / 10 % 10);
        assert forall|k: int| 0 <= k < bare.len() implies is_digit(#[trigger] bare[k]) by {
            if k < head.len() {
                assert(is_digit(head[k]));
            }
        }
    }
}

/// A size below 1024 bytes is shown as the number of its bytes. A larger one, as far as the precision
/// holds it, is shown in the largest unit that it fills, with as many digits behind the point as make
/// three in all, and none where the whole part has three or more.
pub proof fn a_size_is_shown_in_the_largest_unit_it_fills(bytes: nat)
    requires
        bytes < 0x20_0000_0000_0000,
    ensures
        bytes < 1024 ==> size_text(bytes) == decimal(bytes) + seq![' ', 'B'],
        bytes >= 1024 ==> exists|unit: nat, places: nat, mark: char| #[trigger]
            is_shown_in(size_text(bytes), false, bytes, unit, places, mark) && (bytes >= 100 * kilos(unit)
                <==> places == 0) && (bytes < 10 * kilos(unit) <==> places == 2),
        bytes < 1024 ==> binary_size_text(bytes) == decimal(bytes) + seq![' ', 'B'],
        bytes >= 1024 ==> exists|unit: nat, mark: char| #[trigger]
            is_shown_in(binary_size_text(bytes), true, bytes, unit, 1, mark),
{
    small_sizes_are_exact(bytes);
    reveal_with_fuel(kilos, 6);
    reveal_strlit("B");
    reveal_strlit("KB");
    reveal_strlit("MB");
    reveal_strlit("GB");
    reveal_strlit("TB");
    reveal_strlit("KiB");
    reveal_strlit("MiB");
    reveal_strlit("GiB");
    reveal_strlit("TiB");
    if bytes < 1024 {
        assert(size_text(bytes) =~= decimal(bytes) + seq![' ', 'B']);
        assert(binary_size_text(bytes) =~= decimal(bytes) + seq![' ', 'B']);
    } else {
        let unit = unit_index(bytes);
        let d = unit_bytes(unit);
        let places = size_places(bytes, d);
        let mark = mark_of(unit);
        assert(d == kilos(unit));
        assert(unit_name(unit) =~= seq![mark, 'B']);
        assert(size_text(bytes) =~= with_places(bytes, d, places) + seq![' ', mark] + seq!['B']);
        assert(is_shown_in(size_text(bytes), false, bytes, unit, places, mark));
        assert(binary_unit_name(unit) =~= seq![mark, 'i', 'B']);
        assert(binary_size_text(bytes) =~= with_places(bytes, d, 1) + seq![' ', mark] + seq!['i', 'B']);
        assert(is_shown_in(binary_size_text(bytes), true, bytes, unit, 1, mark));
    }
}

/// The letter of a unit.
pub open spec fn mark_of(unit: nat) -> char {
    if unit == 1 {
        'K'
    } else if unit == 2 {
        'M'
    } else if unit == 3 {
        'G'
    } else {
        'T'
    }
}

/// Whether a text shows bytes in a unit that they fill and of which they do not fill 1024, unless it
/// is the largest: their quotient, a space, the letter of the unit, and `B` or `iB`.
pub open spec fn is_shown_in(
    text: Seq<char>,
    binary: bool,
    bytes: nat,
    unit: nat,
    places: nat,
    mark: char,
) -> bool {
    &&& 1 <= unit <= 4
    &&& kilos(unit) <= bytes
    &&& unit < 4 ==> bytes < kilos(unit + 1)
    &&& mark == mark_of(unit)
    &&& places <= 2
    &&& text == with_places(bytes, kilos(unit), places) + seq![' ', mark] + if binary {
        seq!['i', 'B']
    } else {
        seq!['B']
    }
}

/// A minute or more is told in whole minutes and the whole seconds left over, fewer than 60; less
/// than a second in milliseconds.
pub proof fn minutes_and_seconds_make_up_the_time(ms: nat, seconds: Seq<char>)
    ensures
        ms < 1000 ==> duration_text(ms, seconds) == decimal(ms) + seq![' ', 'm', 's'],
        1000 <= ms < 60_000 ==> duration_text(ms, seconds) == seconds + seq![' ', 's'],
        ms >= 60_000 ==> exists|m: nat, s: nat| #[trigger]
            makes_up(m, s, ms) && duration_text(ms, seconds) == decimal(m) + seq!['m', ' '] + decimal(s)
                + seq!['s'],
{
    reveal_strlit(" ms");
    reveal_strlit(" s");
    reveal_strlit("m ");
    reveal_strlit("s");
    if ms < 1000 {
        assert(" ms"@ =~= seq![' ', 'm', 's']);
    } else if ms < 60_000 {
        assert(" s"@ =~= seq![' ', 's']);
    } else {
        assert("m "@ =~= seq!['m', ' ']);
        assert("s"@ =~= seq!['s']);
        assert(makes_up(ms / 60_000, ms % 60_000 / 1000, ms));
    }
}

/// Whether so many minutes and seconds are what is whole of a time.
pub open spec fn makes_up(minutes: nat, seconds: nat, ms: nat) -> bool {
    seconds < 60 && 1000 * (60 * minutes + seconds) <= ms < 1000 * (60 * minutes + seconds + 1)
}

/// A text that is filled up starts with the text, has spaces behind it, and is as wide as asked for
/// unless the text itself is wider.
pub proof fn a_text_is_filled_up_with_spaces(text: Seq<char>, width: nat)
    ensures
        text.is_prefix_of(padded(text, width)),
        padded(text, width).len() == if text.len() < width {
            width
        } else {
            text.len()
        },
        forall|k: int|
            text.len() <= k < padded(text, width).len() ==> #[trigger] padded(text, width)[k] == ' ',
{
}

/// Counted from the end, every fourth character of a count is a comma and every other a digit; a
/// count does not start with a comma.
pub proof fn commas_stand_before_every_three_digits(n: nat)
    ensures
        grouped(n).len() > 0,
        is_digit(grouped(n)[0]),
        forall|k: int|
            0 <= k < grouped(n).len() ==> if (grouped(n).len() - k) % 4 == 0 {
                #[trigger] grouped(n)[k] == ','
            } else {
                is_digit(grouped(n)[k])
            },
    decreases n,
{
    let s = grouped(n);
    if n < 1000 {
        decimal_reads_back(n);
        lemma_few_digits(n);
    } else {
        commas_stand_before_every_three_digits(n / 1000);
        let head = grouped(n / 1000);
        let three = three_digits(n % 1000);
        assert(s.len() == head.len() + 4);
        assert forall|k: int| 0 <= k < s.len() implies if (s.len() - k) % 4 == 0 {
            #[trigger] s[k] == ','
        } else {
            is_digit(s[k])
        } by {
            if k < head.len() {
                assert(s[k] == head[k]);
                assert((head.len() - k) % 4 == (s.len() - k) % 4);
            } else if k > head.len() {
                assert(s[k] == three[k - head.len() - 1]);
            }
        }
        assert(s[0] == head[0]);
    }
}

proof fn lemma_few_digits(n: nat)
    requires
        n < 1000,
    ensures
        decimal(n).len() <= 3,
{
    reveal_with_fuel(decimal, 4);
}

} // verus!
