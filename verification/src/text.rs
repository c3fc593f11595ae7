//! Strings as sequences of characters: the small operations that the rest of the library shares.

use vstd::prelude::*;

verus! {

/// `String::push` appends one character.
pub assume_specification[ String::push ](s: &mut String, c: char)
    ensures
        final(s)@ == old(s)@.push(c),
;

/// What `str::to_lowercase` makes of a string: the Unicode lowercase mapping.
pub uninterp spec fn unicode_lowercase(s: Seq<char>) -> Seq<char>;

/// `str::to_lowercase`: a function of the text alone, named here and not spelled out.
#[verifier::external_body]
pub(crate) fn to_lowercase(s: &str) -> (r: String)
    ensures
        r@ == unicode_lowercase(s@),
{
    s.to_lowercase()
}

/// `char::from_u32`: the character with this code, where there is one. There is none for surrogates
/// and above `0x10ffff`.
pub assume_specification[ char::from_u32 ](i: u32) -> (r: Option<char>)
    ensures
        r is Some == (i < 0xd800 || 0xe000 <= i <= 0x10_ffff),
        r matches Some(c) ==> c as u32 == i,
;

/// The UTF-16 code units of a character: one, or a surrogate pair.
pub open spec fn char_units(c: char) -> Seq<u16> {
    let n = c as int;
    if n < 0x1_0000 {
        seq![n as u16]
    } else {
        seq![(0xd800 + (n - 0x1_0000) / 0x400) as u16, (0xdc00 + (n - 0x1_0000) % 0x400) as u16]
    }
}

/// The UTF-16 code units of a text.
pub open spec fn utf16_units(s: Seq<char>) -> Seq<u16>
    decreases s.len(),
{
    if s.len() == 0 {
        Seq::empty()
    } else {
        char_units(s[0]) + utf16_units(s.drop_first())
    }
}

/// Whether a code unit is the first of a surrogate pair.
pub open spec fn is_high_surrogate(unit: u16) -> bool {
    0xd800 <= unit < 0xdc00
}

/// Whether a code unit is the second of a surrogate pair.
pub open spec fn is_low_surrogate(unit: u16) -> bool {
    0xdc00 <= unit < 0xe000
}

/// The character that a surrogate pair stands for.
pub open spec fn paired(high: u16, low: u16) -> char {
    (0x1_0000 + (high - 0xd800) * 0x400 + (low - 0xdc00)) as char
}

/// The text that UTF-16 code units stand for, with the replacement character for every surrogate
/// that is not in a pair.
pub open spec fn utf16_lossy(units: Seq<u16>) -> Seq<char>
    decreases units.len(),
{
    if units.len() == 0 {
        Seq::empty()
    } else if units.len() >= 2 && is_high_surrogate(units[0]) && is_low_surrogate(units[1]) {
        seq![paired(units[0], units[1])] + utf16_lossy(units.skip(2))
    } else if is_high_surrogate(units[0]) || is_low_surrogate(units[0]) {
        seq!['\u{fffd}'] + utf16_lossy(units.skip(1))
    } else {
        seq![units[0] as char] + utf16_lossy(units.skip(1))
    }
}

proof fn lemma_char_units(c: char)
    ensures
        (c as int) < 0x1_0000 ==> char_units(c)[0] == c as int && char_units(c)[0] as char == c
            && !is_high_surrogate(char_units(c)[0]) && !is_low_surrogate(char_units(c)[0]),
        c as int >= 0x1_0000 ==> is_high_surrogate(char_units(c)[0]) && is_low_surrogate(
            char_units(c)[1],
        ) && paired(char_units(c)[0], char_units(c)[1]) == c,
{
}

/// A character has code units, and none of them is a zero but that of the zero.
pub proof fn lemma_units_of_char(c: char)
    ensures
        char_units(c).len() > 0,
        c != '\0' ==> forall|k: int| 0 <= k < char_units(c).len() ==> #[trigger] char_units(c)[k] != 0,
{
}

/// No code unit is a zero where no character is.
pub proof fn lemma_no_zero_unit(s: Seq<char>, k: int)
    requires
        !s.contains('\0'),
        0 <= k < utf16_units(s).len(),
    ensures
        utf16_units(s)[k] != 0,
    decreases s.len(),
{
    let c = s[0];
    let rest = s.drop_first();
    assert(s.contains(c));
    lemma_units_of_char(c);
    if k >= char_units(c).len() {
        assert(!rest.contains('\0')) by {
            if rest.contains('\0') {
                let j = choose|j: int| 0 <= j < rest.len() && rest[j] == '\0';
                assert(s[j + 1] == '\0');
            }
        }
        lemma_no_zero_unit(rest, k - char_units(c).len());
    }
}

/// The code units of a text stand for that text.
pub proof fn utf16_reads_back(s: Seq<char>)
    ensures
        utf16_lossy(utf16_units(s)) == s,
    decreases s.len(),
{
    if s.len() > 0 {
        let rest = s.drop_first();
        let units = utf16_units(s);
        let c = s[0];
        utf16_reads_back(rest);
        lemma_char_units(c);
        if (c as int) < 0x1_0000 {
            assert(units.skip(1) =~= utf16_units(rest));
            assert(units[0] == char_units(c)[0]);
        } else {
            assert(units.skip(2) =~= utf16_units(rest));
            assert(units[0] == char_units(c)[0] && units[1] == char_units(c)[1]);
        }
        assert(s =~= seq![c] + rest);
    } else {
        assert(s =~= Seq::<char>::empty());
    }
}

fn push_char_units(out: &mut Vec<u16>, c: char)
    ensures
        final(out)@ == old(out)@ + char_units(c),
{
    let n: u32 = c as u32;
    if n < 0x1_0000 {
        out.push(n as u16);
    } else {
        let above: u32 = n - 0x1_0000;
        out.push((0xd800 + above / 0x400) as u16);
        out.push((0xdc00 + above % 0x400) as u16);
    }
    assert(out@ =~= old(out)@ + char_units(c));
}

/// The UTF-16 code units of a text.
pub fn encode_utf16(s: &str) -> (r: Vec<u16>)
    ensures
        r@ == utf16_units(s@),
{
    let v = chars_of(s);
    let mut r: Vec<u16> = Vec::new();
    let mut i: usize = 0;
    assert(v@.skip(0) =~= s@);
    assert(r@ + utf16_units(s@) =~= utf16_units(s@));
    while i < v.len()
        invariant
            v@ == s@,
            i <= v@.len(),
            r@ + utf16_units(v@.skip(i as int)) == utf16_units(s@),
        decreases v@.len() - i,
    {
        let ghost shown = r@;
        push_char_units(&mut r, v[i]);
        proof {
            let rest = v@.skip(i as int);
            assert(rest[0] == v@[i as int]);
            assert(rest.drop_first() =~= v@.skip(i + 1));
            assert(r@ + utf16_units(v@.skip(i + 1)) =~= shown + utf16_units(rest));
        }
        i += 1;
    }
    assert(r@ + utf16_units(v@.skip(i as int)) =~= r@);
    r
}

fn char_with(code: u32) -> (r: char)
    requires
        code < 0xd800 || 0xe000 <= code <= 0x10_ffff,
    ensures
        r as u32 == code,
{
    match char::from_u32(code) {
        Some(c) => c,
        None => '\u{fffd}',
    }
}

/// The text that UTF-16 code units stand for, with the replacement character for every surrogate
/// that is not in a pair.
pub fn from_utf16_lossy(units: &[u16]) -> (r: String)
    ensures
        r@ == utf16_lossy(units@),
{
    let mut r = String::new();
    let mut i: usize = 0;
    assert(units@.skip(0) =~= units@);
    assert(r@ + utf16_lossy(units@) =~= utf16_lossy(units@));
    assert(units.len() == units@.len());
    while i < units.len()
        invariant
            i <= units@.len(),
            units.len() == units@.len(),
            r@ + utf16_lossy(units@.skip(i as int)) == utf16_lossy(units@),
        decreases units@.len() - i,
    {
        let ghost rest = units@.skip(i as int);
        let ghost shown = r@;
        assert(rest[0] == units@[i as int]);
        let first: u16 = units[i];
        let is_high = 0xd800 <= first && first < 0xdc00;
        let is_low = 0xdc00 <= first && first < 0xe000;
        let next: u16 = if units.len() - i >= 2 {
            units[i + 1]
        } else {
            0
        };
        if is_high && 0xdc00 <= next && next < 0xe000 {
            assert(rest[1] == next);
            let code: u32 = 0x1_0000 + (first as u32 - 0xd800) * 0x400 + (next as u32 - 0xdc00);
            r.push(char_with(code));
            assert(rest.skip(2) =~= units@.skip(i + 2));
            assert(r@ + utf16_lossy(units@.skip(i + 2)) =~= shown + utf16_lossy(rest));
            i += 2;
        } else {
            if is_high || is_low {
                r.push('\u{fffd}');
            } else {
                r.push(char_with(first as u32));
            }
            assert(rest.skip(1) =~= units@.skip(i + 1));
            assert(rest.len() >= 2 ==> rest[1] == next);
            assert(r@ + utf16_lossy(units@.skip(i + 1)) =~= shown + utf16_lossy(rest));
            i += 1;
        }
    }
    assert(r@ + utf16_lossy(units@.skip(i as int)) =~= r@);
    r
}

/// `str::from_utf8`: the text that the bytes encode, where they are UTF-8.
#[verifier::external_body]
pub(crate) fn str_from_utf8(bytes: &[u8]) -> (r: Option<&str>)
    ensures
        r is Some == vstd::utf8::valid_utf8(bytes@),
        r matches Some(s) ==> s@ == vstd::utf8::decode_utf8(bytes@),
{
    std::str::from_utf8(bytes).ok()
}

/// The characters of a string, in order.
pub fn chars_of(s: &str) -> (v: Vec<char>)
    ensures
        v@ == s@,
{
    let mut v: Vec<char> = Vec::new();
    for c in it: s.chars()
        invariant
            v@ == it.seq().take(it.index() as int),
            it.seq() == s@,
    {
        v.push(c);
    }
    v
}

/// The string made of the characters `v[from..to]`.
pub fn string_of(v: &[char], from: usize, to: usize) -> (s: String)
    requires
        from <= to <= v@.len(),
    ensures
        s@ == v@.subrange(from as int, to as int),
{
    let mut s = String::new();
    let mut i: usize = from;
    while i < to
        invariant
            from <= i <= to <= v@.len(),
            s@ == v@.subrange(from as int, i as int),
        decreases to - i,
    {
        s.push(v[i]);
        i += 1;
    }
    s
}

/// Appends `text` to `out`.
pub fn push_text(out: &mut String, text: &str)
    ensures
        final(out)@ == old(out)@ + text@,
{
    let ghost before = out@;
    for c in it: text.chars()
        invariant
            out@ == before + it.seq().take(it.index() as int),
            it.seq() == text@,
    {
        out.push(c);
    }
}

/// Appends `count` copies of `c` to `out`.
pub fn push_repeated(out: &mut String, c: char, count: usize)
    ensures
        final(out)@ == old(out)@ + Seq::new(count as nat, |i: int| c),
{
    let ghost before = out@;
    let mut i: usize = 0;
    while i < count
        invariant
            i <= count,
            out@ == before + Seq::new(i as nat, |j: int| c),
        decreases count - i,
    {
        out.push(c);
        i += 1;
    }
}

/// Whether the two texts hold the same characters.
pub fn same_text(a: &str, b: &str) -> (r: bool)
    ensures
        r == (a@ == b@),
{
    let left = chars_of(a);
    let right = chars_of(b);
    same_chars(&left, &right)
}

/// Whether the two slices hold the same characters.
pub fn same_chars(a: &[char], b: &[char]) -> (r: bool)
    ensures
        r == (a@ == b@),
{
    if a.len() != b.len() {
        return false;
    }
    let mut i: usize = 0;
    while i < a.len()
        invariant
            i <= a@.len(),
            a@.len() == b@.len(),
            forall|j: int| 0 <= j < i ==> a@[j] == b@[j],
        decreases a@.len() - i,
    {
        if a[i] != b[i] {
            assert(a@[i as int] != b@[i as int]);
            return false;
        }
        i += 1;
    }
    assert(a@ =~= b@);
    true
}

// ---------------------------------------------------------------------------------------------
// Character classes
// ---------------------------------------------------------------------------------------------

/// The characters that part the components of a Windows path.
pub open spec fn is_separator_spec(c: char) -> bool {
    c == '\\' || c == '/'
}

/// Whether `c` parts the components of a Windows path.
#[verifier::when_used_as_spec(is_separator_spec)]
pub fn is_separator(c: char) -> (r: bool)
    ensures
        r == is_separator_spec(c),
{
    c == '\\' || c == '/'
}

/// The characters with the Unicode property `White_Space`.
pub open spec fn is_white_space_spec(c: char) -> bool {
    ||| '\u{9}' <= c <= '\u{d}'
    ||| c == '\u{20}'
    ||| c == '\u{85}'
    ||| c == '\u{a0}'
    ||| c == '\u{1680}'
    ||| '\u{2000}' <= c <= '\u{200a}'
    ||| c == '\u{2028}'
    ||| c == '\u{2029}'
    ||| c == '\u{202f}'
    ||| c == '\u{205f}'
    ||| c == '\u{3000}'
}

/// Whether `c` has the Unicode property `White_Space`.
#[verifier::when_used_as_spec(is_white_space_spec)]
pub fn is_white_space(c: char) -> (r: bool)
    ensures
        r == is_white_space_spec(c),
{
    ('\u{9}' <= c && c <= '\u{d}') || c == '\u{20}' || c == '\u{85}' || c == '\u{a0}' || c
        == '\u{1680}' || ('\u{2000}' <= c && c <= '\u{200a}') || c == '\u{2028}' || c == '\u{2029}'
        || c == '\u{202f}' || c == '\u{205f}' || c == '\u{3000}'
}

/// The ASCII letters.
pub open spec fn is_ascii_letter_spec(c: char) -> bool {
    'a' <= c <= 'z' || 'A' <= c <= 'Z'
}

/// Whether `c` is an ASCII letter.
#[verifier::when_used_as_spec(is_ascii_letter_spec)]
pub fn is_ascii_letter(c: char) -> (r: bool)
    ensures
        r == is_ascii_letter_spec(c),
{
    ('a' <= c && c <= 'z') || ('A' <= c && c <= 'Z')
}

/// `c` with an ASCII capital made small.
pub open spec fn ascii_lower_spec(c: char) -> char {
    if 'A' <= c <= 'Z' {
        (c as u32 + 32) as char
    } else {
        c
    }
}

/// `c` with an ASCII capital made small.
#[verifier::when_used_as_spec(ascii_lower_spec)]
pub fn ascii_lower(c: char) -> (r: char)
    ensures
        r == ascii_lower_spec(c),
{
    if 'A' <= c && c <= 'Z' {
        (c as u8 + 32) as char
    } else {
        c
    }
}

/// `c` with a small ASCII letter made a capital.
pub open spec fn ascii_upper_spec(c: char) -> char {
    if 'a' <= c <= 'z' {
        (c as u32 - 32) as char
    } else {
        c
    }
}

/// `c` with a small ASCII letter made a capital.
#[verifier::when_used_as_spec(ascii_upper_spec)]
pub fn ascii_upper(c: char) -> (r: char)
    ensures
        r == ascii_upper_spec(c),
{
    if 'a' <= c && c <= 'z' {
        (c as u8 - 32) as char
    } else {
        c
    }
}

// ---------------------------------------------------------------------------------------------
// Case
// ---------------------------------------------------------------------------------------------

/// `s` with every ASCII capital made small.
pub open spec fn lower_all(s: Seq<char>) -> Seq<char> {
    s.map_values(|c: char| ascii_lower_spec(c))
}

/// The text with every ASCII capital made small.
pub fn to_ascii_lowercase(s: &str) -> (r: String)
    ensures
        r@ == lower_all(s@),
{
    let mut r = String::new();
    for c in it: s.chars()
        invariant
            r@ == lower_all(it.seq().take(it.index() as int)),
            it.seq() == s@,
    {
        r.push(ascii_lower(c));
        assert(r@ =~= lower_all(it.seq().take(it.index() + 1)));
    }
    assert(s@.take(s@.len() as int) =~= s@);
    r
}

/// Whether the texts are the same but for the case of ASCII letters.
pub fn eq_ignore_ascii_case(a: &str, b: &str) -> (r: bool)
    ensures
        r == (lower_all(a@) == lower_all(b@)),
{
    let left = to_ascii_lowercase(a);
    let right = to_ascii_lowercase(b);
    same_text(&left, &right)
}

// ---------------------------------------------------------------------------------------------
// Trimming
// ---------------------------------------------------------------------------------------------

/// `s` without the longest tail of characters that `p` accepts.
pub open spec fn trim_end_by(s: Seq<char>, p: spec_fn(char) -> bool) -> Seq<char>
    decreases s.len(),
{
    if s.len() > 0 && p(s.last()) {
        trim_end_by(s.drop_last(), p)
    } else {
        s
    }
}

/// `s` without the longest head of characters that `p` accepts.
pub open spec fn trim_start_by(s: Seq<char>, p: spec_fn(char) -> bool) -> Seq<char>
    decreases s.len(),
{
    if s.len() > 0 && p(s[0]) {
        trim_start_by(s.drop_first(), p)
    } else {
        s
    }
}

/// `s` without the separators at its end.
pub open spec fn trim_separators(s: Seq<char>) -> Seq<char> {
    trim_end_by(s, |c: char| is_separator_spec(c))
}

/// `s` without the white space at both ends.
pub open spec fn trim_spec(s: Seq<char>) -> Seq<char> {
    trim_end_by(trim_start_by(s, |c: char| is_white_space_spec(c)), |c: char| is_white_space_spec(c))
}

/// The text without the separators at its end.
pub fn trim_end_separators(s: &str) -> (r: String)
    ensures
        r@ == trim_separators(s@),
{
    let v = chars_of(s);
    let end = end_without_separators(&v, v.len());
    assert(v@.take(v@.len() as int) =~= s@);
    assert(v@.subrange(0, end as int) =~= v@.take(end as int));
    string_of(&v, 0, end)
}

/// Where `v[..to]` ends when the separators at its end are left out.
pub fn end_without_separators(v: &[char], to: usize) -> (end: usize)
    requires
        to <= v@.len(),
    ensures
        end <= to,
        v@.take(end as int) == trim_separators(v@.take(to as int)),
{
    let mut end: usize = to;
    while end > 0 && is_separator(v[end - 1])
        invariant
            end <= to <= v@.len(),
            trim_separators(v@.take(end as int)) == trim_separators(v@.take(to as int)),
        decreases end,
    {
        assert(v@.take(end as int).drop_last() =~= v@.take(end - 1));
        end -= 1;
    }
    end
}

/// The text without the white space at both ends.
pub fn trim(s: &str) -> (r: String)
    ensures
        r@ == trim_spec(s@),
{
    let v = chars_of(s);
    let ghost white = |c: char| is_white_space_spec(c);
    let mut start: usize = 0;
    assert(v@.skip(0) =~= s@);
    while start < v.len() && is_white_space(v[start])
        invariant
            start <= v@.len(),
            v@ == s@,
            white == (|c: char| is_white_space_spec(c)),
            trim_start_by(v@.skip(start as int), white) == trim_start_by(s@, white),
        decreases v@.len() - start,
    {
        assert(v@.skip(start as int).drop_first() =~= v@.skip(start + 1));
        start += 1;
    }
    let ghost body = v@.skip(start as int);
    let mut end: usize = v.len();
    assert(v@.subrange(start as int, end as int) =~= body);
    while end > start && is_white_space(v[end - 1])
        invariant
            start <= end <= v@.len(),
            white == (|c: char| is_white_space_spec(c)),
            trim_end_by(v@.subrange(start as int, end as int), white) == trim_end_by(body, white),
        decreases end - start,
    {
        assert(v@.subrange(start as int, end as int).drop_last() =~= v@.subrange(
            start as int,
            end - 1,
        ));
        end -= 1;
    }
    string_of(&v, start, end)
}

/// A trimmed text is a prefix of what it was trimmed from, and no separator is left at its end.
pub proof fn lemma_trim_end_by(s: Seq<char>, p: spec_fn(char) -> bool)
    ensures
        trim_end_by(s, p).len() <= s.len(),
        trim_end_by(s, p) == s.take(trim_end_by(s, p).len() as int),
        trim_end_by(s, p).len() > 0 ==> !p(trim_end_by(s, p).last()),
        forall|i: int| trim_end_by(s, p).len() <= i < s.len() ==> p(s[i]),
    decreases s.len(),
{
    if s.len() > 0 && p(s.last()) {
        lemma_trim_end_by(s.drop_last(), p);
        let t = trim_end_by(s.drop_last(), p);
        assert(s.drop_last().take(t.len() as int) =~= s.take(t.len() as int));
        assert forall|i: int| t.len() <= i < s.len() implies p(s[i]) by {
            if i < s.len() - 1 {
                assert(p(s.drop_last()[i]));
            }
        }
    } else {
        assert(s.take(s.len() as int) =~= s);
    }
}

// ---------------------------------------------------------------------------------------------
// Searching
// ---------------------------------------------------------------------------------------------

/// Whether `needle` stands in `hay` from place `i` on.
pub open spec fn occurs_at(hay: Seq<char>, needle: Seq<char>, i: int) -> bool {
    &&& 0 <= i
    &&& i + needle.len() <= hay.len()
    &&& hay.subrange(i, i + needle.len()) == needle
}

/// Whether `needle` stands somewhere in `hay`.
pub open spec fn contains_spec(hay: Seq<char>, needle: Seq<char>) -> bool {
    exists|i: int| occurs_at(hay, needle, i)
}

/// Whether `needle` stands in `hay` from place `i` on.
pub fn matches_at(hay: &[char], needle: &[char], i: usize) -> (r: bool)
    ensures
        r == occurs_at(hay@, needle@, i as int),
{
    if i > hay.len() || needle.len() > hay.len() - i {
        return false;
    }
    let mut j: usize = 0;
    while j < needle.len()
        invariant
            i + needle@.len() <= hay.len(),
            j <= needle@.len(),
            forall|k: int| 0 <= k < j ==> hay@[i + k] == needle@[k],
        decreases needle@.len() - j,
    {
        if hay[i + j] != needle[j] {
            assert(hay@.subrange(i as int, i + needle@.len())[j as int] != needle@[j as int]);
            return false;
        }
        j += 1;
    }
    assert(hay@.subrange(i as int, i + needle@.len()) =~= needle@);
    true
}

/// Whether `needle` stands somewhere in `hay`.
pub fn contains(hay: &str, needle: &str) -> (r: bool)
    ensures
        r == contains_spec(hay@, needle@),
{
    let hay_chars = chars_of(hay);
    let needle_chars = chars_of(needle);
    if needle_chars.len() > hay_chars.len() {
        return false;
    }
    let last: usize = hay_chars.len() - needle_chars.len();
    let mut i: usize = 0;
    while i <= last
        invariant
            hay_chars@ == hay@,
            needle_chars@ == needle@,
            last == hay_chars@.len() - needle_chars@.len(),
            i <= last + 1,
            forall|k: int| 0 <= k < i ==> !occurs_at(hay@, needle@, k),
        decreases last + 1 - i,
    {
        if matches_at(&hay_chars, &needle_chars, i) {
            return true;
        }
        if i == last {
            return false;
        }
        i += 1;
    }
    false
}

/// Whether `s` begins with `prefix`.
pub open spec fn starts_with_spec(s: Seq<char>, prefix: Seq<char>) -> bool {
    occurs_at(s, prefix, 0)
}

/// Whether `s` begins with `prefix`.
pub fn starts_with(s: &str, prefix: &str) -> (r: bool)
    ensures
        r == starts_with_spec(s@, prefix@),
{
    let chars = chars_of(s);
    let prefix_chars = chars_of(prefix);
    matches_at(&chars, &prefix_chars, 0)
}

/// Whether `c` is one of the characters of `s`.
pub fn contains_char(s: &str, c: char) -> (r: bool)
    ensures
        r == s@.contains(c),
{
    let v = chars_of(s);
    let mut i: usize = 0;
    while i < v.len()
        invariant
            v@ == s@,
            i <= v@.len(),
            forall|k: int| 0 <= k < i ==> v@[k] != c,
        decreases v@.len() - i,
    {
        if v[i] == c {
            assert(s@[i as int] == c);
            return true;
        }
        i += 1;
    }
    false
}

/// Where the first `c` stands, or the length where there is none.
pub open spec fn first_place(s: Seq<char>, c: char) -> int
    decreases s.len(),
{
    if s.len() == 0 || s[0] == c {
        0
    } else {
        1 + first_place(s.drop_first(), c)
    }
}

pub proof fn lemma_first_place(s: Seq<char>, c: char)
    ensures
        0 <= first_place(s, c) <= s.len(),
        first_place(s, c) < s.len() ==> s[first_place(s, c)] == c,
        forall|i: int| 0 <= i < first_place(s, c) ==> s[i] != c,
    decreases s.len(),
{
    if s.len() > 0 && s[0] != c {
        let rest = s.drop_first();
        lemma_first_place(rest, c);
        assert forall|i: int| 0 <= i < first_place(s, c) implies s[i] != c by {
            if i > 0 {
                assert(rest[i - 1] == s[i]);
            }
        }
    }
}

/// The parts of a text between the places where `c` stands.
pub open spec fn split_by(s: Seq<char>, c: char) -> Seq<Seq<char>>
    decreases s.len(),
{
    let end = first_place(s, c);
    if end < 0 || end >= s.len() {
        seq![s]
    } else {
        seq![s.take(end)] + split_by(s.skip(end + 1), c)
    }
}

/// What the texts hold.
pub open spec fn strings_view(texts: Seq<String>) -> Seq<Seq<char>> {
    texts.map_values(|text: String| text@)
}

/// The parts of a text between the places where `c` stands.
pub fn split(s: &str, c: char) -> (r: Vec<String>)
    ensures
        strings_view(r@) == split_by(s@, c),
{
    let v = chars_of(s);
    let mut r: Vec<String> = Vec::new();
    let mut start: usize = 0;
    assert(v@.skip(0) =~= s@);
    assert(strings_view(r@) + split_by(s@, c) =~= split_by(s@, c));
    loop
        invariant_except_break
            v@ == s@,
            start <= v@.len(),
            strings_view(r@) + split_by(v@.skip(start as int), c) == split_by(s@, c),
        ensures
            strings_view(r@) == split_by(s@, c),
        decreases v@.len() - start,
    {
        let ghost rest = v@.skip(start as int);
        let ghost shown = r@;
        let mut end: usize = start;
        assert(rest.skip(0) =~= rest);
        while end < v.len() && v[end] != c
            invariant
                start <= end <= v@.len(),
                rest == v@.skip(start as int),
                first_place(rest, c) == end - start + first_place(rest.skip(end - start), c),
            decreases v@.len() - end,
        {
            assert(rest.skip(end - start)[0] == v@[end as int]);
            assert(rest.skip(end - start).drop_first() =~= rest.skip(end - start + 1));
            end += 1;
        }
        assert(end < v@.len() ==> rest.skip(end - start)[0] == v@[end as int]);
        assert(first_place(rest, c) == end - start);
        let part = string_of(&v, start, end);
        r.push(part);
        assert(strings_view(r@) =~= strings_view(shown).push(part@));
        if end == v.len() {
            assert(part@ =~= rest);
            assert(strings_view(r@) =~= strings_view(shown) + split_by(rest, c));
            break;
        }
        proof {
            assert(part@ =~= rest.take(end - start));
            assert(rest.skip(end - start + 1) =~= v@.skip(end + 1));
            assert(strings_view(r@) + split_by(v@.skip(end + 1), c) =~= strings_view(shown) + split_by(
                rest,
                c,
            ));
        }
        start = end + 1;
    }
    r
}

/// Whether every character of `s` is white space.
pub open spec fn all_white(s: Seq<char>) -> bool {
    forall|k: int| 0 <= k < s.len() ==> is_white_space_spec(#[trigger] s[k])
}

proof fn lemma_trim_head(head: Seq<char>, s: Seq<char>)
    requires
        all_white(head),
    ensures
        trim_start_by(head + s, |c: char| is_white_space_spec(c)) == trim_start_by(
            s,
            |c: char| is_white_space_spec(c),
        ),
    decreases head.len(),
{
    if head.len() == 0 {
        assert(head + s =~= s);
    } else {
        assert(is_white_space_spec(head[0]));
        assert((head + s).drop_first() =~= head.drop_first() + s);
        assert forall|k: int| 0 <= k < head.drop_first().len() implies is_white_space_spec(
            #[trigger] head.drop_first()[k],
        ) by {
            assert(is_white_space_spec(head[k + 1]));
        }
        lemma_trim_head(head.drop_first(), s);
    }
}

proof fn lemma_trim_tail(s: Seq<char>, tail: Seq<char>)
    requires
        all_white(tail),
    ensures
        trim_end_by(s + tail, |c: char| is_white_space_spec(c)) == trim_end_by(
            s,
            |c: char| is_white_space_spec(c),
        ),
    decreases tail.len(),
{
    if tail.len() == 0 {
        assert(s + tail =~= s);
    } else {
        assert(is_white_space_spec(tail[tail.len() - 1]));
        assert((s + tail).drop_last() =~= s + tail.drop_last());
        lemma_trim_tail(s, tail.drop_last());
    }
}

/// Trimming takes off the white space before a text and behind it, and nothing of the text itself.
pub proof fn trimming_leaves_the_text(before: Seq<char>, text: Seq<char>, after: Seq<char>)
    requires
        all_white(before),
        all_white(after),
        text.len() > 0 ==> !is_white_space_spec(text[0]) && !is_white_space_spec(text.last()),
    ensures
        trim_spec(before + text + after) == text,
{
    assert(before + text + after =~= before + (text + after));
    lemma_trim_head(before, text + after);
    if text.len() > 0 {
        assert((text + after)[0] == text[0]);
        lemma_trim_tail(text, after);
    } else {
        assert(text + after =~= after + Seq::<char>::empty());
        lemma_trim_head(after, Seq::empty());
        assert(text =~= Seq::<char>::empty());
    }
}

proof fn lemma_place_behind(s: Seq<char>, c: char, rest: Seq<char>)
    requires
        !s.contains(c),
    ensures
        first_place(s + rest, c) == s.len() + first_place(rest, c),
    decreases s.len(),
{
    if s.len() == 0 {
        assert(s + rest =~= rest);
    } else {
        assert(s.contains(s[0]));
        assert((s + rest).drop_first() =~= s.drop_first() + rest);
        assert forall|d: char| s.drop_first().contains(d) implies s.contains(d) by {
            let k = choose|k: int| 0 <= k < s.drop_first().len() && s.drop_first()[k] == d;
            assert(s[k + 1] == d);
        }
        lemma_place_behind(s.drop_first(), c, rest);
    }
}

/// A text is split where a character stands: what stands before its first place is the first part,
/// and what stands behind it is split further.
pub proof fn a_text_is_split_at_each_place(first: Seq<char>, c: char, rest: Seq<char>)
    requires
        !first.contains(c),
    ensures
        split_by(first, c) == seq![first],
        split_by(first + seq![c] + rest, c) == seq![first] + split_by(rest, c),
{
    lemma_place_behind(first, c, Seq::empty());
    assert(first + Seq::<char>::empty() =~= first);
    let tail = seq![c] + rest;
    lemma_place_behind(first, c, tail);
    assert(tail[0] == c);
    let whole = first + seq![c] + rest;
    assert(whole =~= first + tail);
    assert(whole.take(first.len() as int) =~= first);
    assert(whole.skip(first.len() as int + 1) =~= rest);
}

} // verus!
