//! Little-endian numbers.

use vstd::prelude::*;

verus! {

/// The number that the `n` bytes from `offset` on spell, the lowest byte first.
pub open spec fn le(b: Seq<u8>, offset: int, n: nat) -> nat
    decreases n,
{
    if n == 0 {
        0
    } else {
        b[offset] as nat + 256 * le(b, offset + 1, (n - 1) as nat)
    }
}

/// The `n` lowest bytes of `x`, the lowest first.
pub open spec fn le_bytes(x: nat, n: nat) -> Seq<u8>
    decreases n,
{
    if n == 0 {
        Seq::empty()
    } else {
        seq![(x % 256) as u8] + le_bytes(x / 256, (n - 1) as nat)
    }
}

/// How many numbers `n` bytes can spell.
pub open spec fn le_range(n: nat) -> nat
    decreases n,
{
    if n == 0 {
        1
    } else {
        256 * le_range((n - 1) as nat)
    }
}

/// `n` read as a 64-bit number in two's complement.
pub open spec fn signed64(n: nat) -> int {
    if n < 0x8000_0000_0000_0000 {
        n as int
    } else {
        n - 0x1_0000_0000_0000_0000
    }
}

/// The 64-bit number that stands for `m` in two's complement.
pub open spec fn unsigned64(m: int) -> nat {
    if m >= 0 {
        m as nat
    } else {
        (m + 0x1_0000_0000_0000_0000) as nat
    }
}

/// What `n` bytes spell is below [`le_range`].
pub proof fn le_is_bounded(b: Seq<u8>, offset: int, n: nat)
    ensures
        le(b, offset, n) < le_range(n),
    decreases n,
{
    if n > 0 {
        le_is_bounded(b, offset + 1, (n - 1) as nat);
    }
}

/// What bytes spell depends on those bytes alone.
pub proof fn le_agrees(a: Seq<u8>, i: int, b: Seq<u8>, j: int, n: nat)
    requires
        0 <= i,
        i + n <= a.len(),
        0 <= j,
        j + n <= b.len(),
        a.subrange(i, i + n) == b.subrange(j, j + n),
    ensures
        le(a, i, n) == le(b, j, n),
    decreases n,
{
    if n > 0 {
        let part = a.subrange(i, i + n);
        assert(part[0] == a[i]);
        assert(b.subrange(j, j + n)[0] == b[j]);
        assert(a.subrange(i + 1, i + n) =~= part.skip(1));
        assert(b.subrange(j + 1, j + n) =~= part.skip(1));
        le_agrees(a, i + 1, b, j + 1, (n - 1) as nat);
    }
}

/// A number's bytes spell the number.
pub proof fn le_bytes_spell(x: nat, n: nat)
    requires
        x < le_range(n),
    ensures
        le_bytes(x, n).len() == n,
        le(le_bytes(x, n), 0, n) == x,
    decreases n,
{
    if n > 0 {
        le_bytes_spell(x / 256, (n - 1) as nat);
        let rest = le_bytes(x / 256, (n - 1) as nat);
        let all = le_bytes(x, n);
        assert(all.subrange(1, n as int) =~= rest);
        assert(rest.subrange(0, n - 1) =~= rest);
        le_agrees(all, 1, rest, 0, (n - 1) as nat);
    }
}

/// How long the bytes of a number are.
pub proof fn le_bytes_len(x: nat, n: nat)
    ensures
        le_bytes(x, n).len() == n,
    decreases n,
{
    if n > 0 {
        le_bytes_len(x / 256, (n - 1) as nat);
    }
}

/// Two's complement keeps the number.
pub proof fn signed64_of_unsigned64(m: int)
    requires
        i64::MIN <= m <= i64::MAX,
    ensures
        signed64(unsigned64(m)) == m,
        unsigned64(m) <= u64::MAX,
{
}

/// The two bytes from `offset` on.
pub fn read_u16(input: &[u8], offset: usize) -> (r: u16)
    requires
        offset + 2 <= input@.len(),
    ensures
        r == le(input@, offset as int, 2),
{
    proof {
        reveal_with_fuel(le, 3);
    }
    input[offset] as u16 + 256 * (input[offset + 1] as u16)
}

/// The four bytes from `offset` on.
pub fn read_u32(input: &[u8], offset: usize) -> (r: u32)
    requires
        offset + 4 <= input@.len(),
    ensures
        r == le(input@, offset as int, 4),
{
    proof {
        reveal_with_fuel(le, 5);
    }
    input[offset] as u32 + 256 * (input[offset + 1] as u32 + 256 * (input[offset + 2] as u32 + 256 * (
    input[offset + 3] as u32)))
}

/// The eight bytes from `offset` on.
pub fn read_u64(input: &[u8], offset: usize) -> (r: u64)
    requires
        offset + 8 <= input@.len(),
    ensures
        r == le(input@, offset as int, 8),
{
    proof {
        reveal_with_fuel(le, 9);
        assert(input.len() == input@.len());
    }
    let low: u64 = read_u32(input, offset) as u64;
    let high: u64 = read_u32(input, offset + 4) as u64;
    low + 0x1_0000_0000 * high
}

/// `n` read as a number in two's complement.
pub fn to_signed(n: u64) -> (r: i64)
    ensures
        r == signed64(n as nat),
{
    if n < 0x8000_0000_0000_0000 {
        n as i64
    } else {
        let below: i64 = (u64::MAX - n) as i64;
        -below - 1
    }
}

/// The number that stands for `m` in two's complement.
pub fn to_unsigned(m: i64) -> (r: u64)
    ensures
        r == unsigned64(m as int),
{
    if m >= 0 {
        m as u64
    } else {
        let below: u64 = (-(m + 1)) as u64;
        u64::MAX - below
    }
}

/// Appends the `n` lowest bytes of `x`.
pub fn write_le(out: &mut Vec<u8>, x: u64, n: usize)
    ensures
        final(out)@ == old(out)@ + le_bytes(x as nat, n as nat),
{
    let ghost before = out@;
    let mut rest: u64 = x;
    let mut i: usize = 0;
    while i < n
        invariant
            i <= n,
            out@ + le_bytes(rest as nat, (n - i) as nat) == before + le_bytes(x as nat, n as nat),
        decreases n - i,
    {
        let ghost shown = out@;
        let ghost tail = le_bytes(rest as nat / 256, (n - i - 1) as nat);
        assert(le_bytes(rest as nat, (n - i) as nat) == seq![(rest as nat % 256) as u8] + tail);
        out.push((rest % 256) as u8);
        rest = rest / 256;
        i += 1;
        assert(out@ + tail =~= shown + (seq![(out@.last())] + tail));
    }
    assert(out@ =~= out@ + le_bytes(rest as nat, 0));
}

} // verus!
