//! Little-endian numbers, and what a 16-bit float is as a 32-bit one.
use vstd::prelude::*;

verus! {

/// The four bytes of a number, least first.
pub open spec fn le32(x: u32) -> Seq<u8> {
    seq![
        (x % 256) as u8,
        (x / 256 % 256) as u8,
        (x / 65536 % 256) as u8,
        (x / 16777216) as u8,
    ]
}

/// The number four bytes are, least first.
pub open spec fn from_le32(b: Seq<u8>) -> int {
    b[0] + 256 * b[1] + 65536 * b[2] + 16777216 * b[3]
}

/// The number two bytes are, least first.
pub open spec fn from_le16(b: Seq<u8>) -> int {
    b[0] + 256 * b[1]
}

/// A number's bytes are the number again.
pub proof fn law_le32_round_trips(x: u32, b: Seq<u8>)
    ensures
        from_le32(le32(x)) == x,
        b.len() == 4 ==> le32(from_le32(b) as u32) == b,
{
    if b.len() == 4 {
        let v = from_le32(b) as u32;
        let (b0, b1, b2, b3) = (b[0] as int, b[1] as int, b[2] as int, b[3] as int);
        assert(v == b0 + 256 * (b1 + 256 * (b2 + 256 * b3)));
        assert(v % 256 == b0 && v / 256 == b1 + 256 * (b2 + 256 * b3));
        assert(v / 256 % 256 == b1 && v / 65536 == b2 + 256 * b3);
        assert(v / 65536 % 256 == b2 && v / 16777216 == b3);
        assert(le32(v) =~= b);
    }
}

/// Whether two runs of bytes are the same.
pub fn same(a: &[u8], b: &[u8]) -> (same: bool)
    ensures
        same == (a@ == b@),
{
    if a.len() != b.len() {
        return false;
    }
    let mut i: usize = 0;
    while i < a.len()
        invariant
            i <= a@.len(),
            a@.len() == b@.len(),
            forall|k: int| 0 <= k < i ==> a@[k] == b@[k],
        decreases a@.len() - i,
    {
        if a[i] != b[i] {
            return false;
        }
        i += 1;
    }
    assert(a@ =~= b@);
    true
}

/// Appends a number's bytes.
pub fn push_le32(out: &mut Vec<u8>, x: u32)
    ensures
        final(out)@ == old(out)@ + le32(x),
{
    let ghost before = out@;
    out.push((x % 256) as u8);
    out.push((x / 256 % 256) as u8);
    out.push((x / 65536 % 256) as u8);
    out.push((x / 16777216) as u8);
    assert(out@ =~= before + le32(x));
}

/// Reads the two bytes at `at`.
pub fn read_le16(b: &[u8], at: usize) -> (x: u16)
    requires
        at + 2 <= b@.len(),
    ensures
        x == from_le16(b@.subrange(at as int, at + 2)),
{
    b[at] as u16 + 256 * (b[at + 1] as u16)
}

/// Reads the four bytes at `at`.
pub fn read_le32(b: &[u8], at: usize) -> (x: u32)
    requires
        at + 4 <= b@.len(),
    ensures
        x == from_le32(b@.subrange(at as int, at + 4)),
{
    b[at] as u32 + 256 * (b[at + 1] as u32) + 65536 * (b[at + 2] as u32) + 16777216 * (b[at
        + 3] as u32)
}

/// The place of a number's highest set bit, for a number over zero.
pub open spec fn top_bit(n: int) -> int
    decreases n,
{
    if n < 2 {
        0
    } else {
        1 + top_bit(n / 2)
    }
}

pub open spec fn two_to(n: int) -> int
    decreases n,
{
    if n <= 0 {
        1
    } else {
        2 * two_to(n - 1)
    }
}

/// The bits of an IEEE half as the bits of the single of the same value.
///
/// The sign moves up; a normal number's exponent is rebiased and its mantissa moves up; a subnormal is
/// normalised; an infinity stays one, and a NaN keeps its mantissa and becomes quiet.
pub open spec fn half_as_single(b: u16) -> int {
    let exponent = b / 1024 % 32;
    let mantissa = (b % 1024) as int;
    (b / 32768) * 0x8000_0000 + if exponent == 31 {
        0x7F80_0000 + if mantissa == 0 || mantissa >= 512 {
            mantissa * 8192
        } else {
            (mantissa + 512) * 8192
        }
    } else if exponent > 0 {
        (exponent + 112) * 0x80_0000 + mantissa * 8192
    } else if mantissa > 0 {
        (103 + top_bit(mantissa)) * 0x80_0000 + (mantissa - two_to(top_bit(mantissa))) * two_to(
            23 - top_bit(mantissa),
        )
    } else {
        0
    }
}

/// The bits of a bfloat16 as the bits of the single of the same value: they move up, and a NaN becomes
/// quiet.
pub open spec fn bfloat_as_single(b: u16) -> int {
    (if b % 32768 > 0x7F80 && b / 64 % 2 == 0 {
        b + 64
    } else {
        b as int
    }) * 65536
}

proof fn lemma_top_bit(n: int)
    requires
        0 < n < 1024,
    ensures
        0 <= top_bit(n) <= 9,
        two_to(top_bit(n)) <= n < 2 * two_to(top_bit(n)),
{
    reveal_with_fuel(top_bit, 11);
    reveal_with_fuel(two_to, 11);
}

proof fn lemma_two_to_splits(k: int)
    requires
        0 <= k <= 9,
    ensures
        two_to(k) * two_to(23 - k) == 0x80_0000,
        two_to(k) > 0,
        two_to(23 - k) > 0,
    decreases k,
{
    reveal_with_fuel(two_to, 25);
    if k > 0 {
        lemma_two_to_splits(k - 1);
        let (a, b) = (two_to(k - 1), two_to(23 - k));
        assert(two_to(24 - k) == 2 * b);
        assert((2 * a) * b == a * (2 * b)) by (nonlinear_arith);
    }
}

/// Widens an IEEE half, given and returned as its bits.
pub fn widen_half(b: u16) -> (w: u32)
    ensures
        w == half_as_single(b),
{
    let sign: u32 = (b / 32768) as u32 * 0x8000_0000;
    let exponent: u32 = (b / 1024 % 32) as u32;
    let mantissa: u32 = (b % 1024) as u32;
    if exponent == 31 {
        let kept: u32 = if mantissa == 0 || mantissa >= 512 {
            mantissa
        } else {
            mantissa + 512
        };
        return sign + (0x7F80_0000 + kept * 8192);
    }
    if exponent > 0 {
        return sign + ((exponent + 112) * 0x80_0000 + mantissa * 8192);
    }
    if mantissa == 0 {
        return sign;
    }
    let mut rest: u32 = mantissa;
    let mut top: u32 = 0;
    let mut high: u32 = 1;
    let mut low: u32 = 0x80_0000;
    proof {
        lemma_top_bit(mantissa as int);
        reveal_with_fuel(two_to, 25);
        assert(two_to(23) == 0x80_0000);
    }
    while rest >= 2
        invariant
            rest >= 1,
            0 < mantissa < 1024,
            0 <= top_bit(mantissa as int) <= 9,
            top + top_bit(rest as int) == top_bit(mantissa as int),
            high == two_to(top as int),
            low == two_to(23 - top),
            high * low == 0x80_0000,
            high <= 512,
        decreases rest,
    {
        assert(top_bit(rest as int) == 1 + top_bit(rest as int / 2));
        assert(0 <= top_bit(rest as int / 2)) by {
            lemma_top_bit_counts(rest as int / 2);
        }
        proof {
            lemma_two_to_splits(top + 1);
            assert(two_to(top + 1) == 2 * two_to(top as int));
            assert(two_to(23 - top) == 2 * two_to(23 - top - 1));
            lemma_two_to_small(top + 1);
        }
        rest = rest / 2;
        top = top + 1;
        high = high * 2;
        low = low / 2;
    }
    assert((mantissa - high) * low < high * low) by (nonlinear_arith)
        requires
            0 <= mantissa - high < high,
            low > 0,
    ;
    assert(0 <= (mantissa - high) * low) by (nonlinear_arith)
        requires
            0 <= mantissa - high,
            low > 0,
    ;
    sign + ((103 + top) * 0x80_0000 + (mantissa - high) * low)
}

proof fn lemma_top_bit_counts(n: int)
    ensures
        0 <= top_bit(n),
    decreases n,
{
    if n >= 2 {
        lemma_top_bit_counts(n / 2);
    }
}

proof fn lemma_two_to_small(k: int)
    requires
        0 <= k <= 9,
    ensures
        two_to(k) <= 512,
{
    reveal_with_fuel(two_to, 11);
}

/// Widens a bfloat16, given and returned as its bits.
pub fn widen_bfloat(b: u16) -> (w: u32)
    ensures
        w == bfloat_as_single(b),
{
    if b % 32768 > 0x7F80 && b / 64 % 2 == 0 {
        (b as u32 + 64) * 65536
    } else {
        b as u32 * 65536
    }
}

/// A finite single's size, in units of the smallest single.
pub open spec fn single_size(w: int) -> int {
    let exponent = w / 0x80_0000 % 256;
    let mantissa = w % 0x80_0000;
    if exponent == 0 {
        mantissa
    } else {
        (0x80_0000 + mantissa) * two_to(exponent - 1)
    }
}

/// A finite half's size, in units of the smallest single.
pub open spec fn half_size(b: u16) -> int {
    let exponent = b / 1024 % 32;
    let mantissa = (b % 1024) as int;
    if exponent == 0 {
        mantissa * two_to(125)
    } else {
        (1024 + mantissa) * two_to(exponent + 124)
    }
}

/// A finite bfloat16's size, in units of the smallest single.
pub open spec fn bfloat_size(b: u16) -> int {
    let exponent = b / 128 % 256;
    let mantissa = (b % 128) as int;
    if exponent == 0 {
        mantissa * 65536
    } else {
        (128 + mantissa) * 65536 * two_to(exponent - 1)
    }
}

proof fn lemma_two_to_adds(a: int, b: int)
    requires
        0 <= a,
        0 <= b,
    ensures
        two_to(a) * two_to(b) == two_to(a + b),
    decreases a,
{
    if a > 0 {
        lemma_two_to_adds(a - 1, b);
        let (x, y) = (two_to(a - 1), two_to(b));
        assert((2 * x) * y == 2 * (x * y)) by (nonlinear_arith);
    } else {
        assert(1 * two_to(b) == two_to(b)) by (nonlinear_arith);
    }
}

/// Widening is exact: every finite half and every finite bfloat16 comes out with its sign and its size,
/// and neither becomes an infinity or a NaN.
pub proof fn law_widening_is_exact(b: u16)
    ensures
        b / 1024 % 32 < 31 ==> {
            &&& half_as_single(b) / 0x8000_0000 == b / 32768
            &&& half_as_single(b) / 0x80_0000 % 256 < 255
            &&& single_size(half_as_single(b)) == half_size(b)
        },
        b / 128 % 256 < 255 ==> {
            &&& bfloat_as_single(b) / 0x8000_0000 == b / 32768
            &&& bfloat_as_single(b) / 0x80_0000 % 256 < 255
            &&& single_size(bfloat_as_single(b)) == bfloat_size(b)
        },
{
    if b / 1024 % 32 < 31 {
        lemma_half_is_exact(b);
    }
    if b / 128 % 256 < 255 {
        let w = bfloat_as_single(b);
        assert(w == b * 65536);
        assert(w / 0x80_0000 % 256 == b / 128 % 256);
        assert(w % 0x80_0000 == (b % 128) * 65536);
    }
}

proof fn lemma_half_is_exact(b: u16)
    requires
        b / 1024 % 32 < 31,
    ensures
        half_as_single(b) / 0x8000_0000 == b / 32768,
        half_as_single(b) / 0x80_0000 % 256 < 255,
        single_size(half_as_single(b)) == half_size(b),
{
    let w = half_as_single(b);
    let e = (b / 1024 % 32) as int;
    let m = (b % 1024) as int;
    let s = (b / 32768) as int;
    if e > 0 {
        assert(w == s * 0x8000_0000 + (e + 112) * 0x80_0000 + m * 8192);
        assert(w / 0x80_0000 % 256 == e + 112);
        assert(w % 0x80_0000 == m * 8192);
        reveal_with_fuel(two_to, 15);
        assert(two_to(13) == 8192);
        lemma_two_to_adds(13, e + 111);
        let p = two_to(e + 111);
        assert((0x80_0000 + m * 8192) * p == (1024 + m) * (8192 * p)) by (nonlinear_arith);
    } else if m > 0 {
        let k = top_bit(m);
        lemma_top_bit(m);
        lemma_two_to_splits(k);
        let (high, low) = (two_to(k), two_to(23 - k));
        let rest = (m - high) * low;
        assert(0 <= rest < 0x80_0000) by (nonlinear_arith)
            requires
                high <= m < 2 * high,
                high * low == 0x80_0000,
                low > 0,
                rest == (m - high) * low,
        ;
        assert(w == s * 0x8000_0000 + (103 + k) * 0x80_0000 + rest);
        assert(w / 0x80_0000 % 256 == 103 + k);
        assert(w % 0x80_0000 == rest);
        lemma_two_to_adds(23 - k, 102 + k);
        let p = two_to(102 + k);
        assert(0x80_0000 + rest == m * low) by (nonlinear_arith)
            requires
                high * low == 0x80_0000,
                rest == (m - high) * low,
        ;
        assert((m * low) * p == m * (low * p)) by (nonlinear_arith);
    } else {
        assert(w == s * 0x8000_0000);
        assert(0 * two_to(125) == 0) by (nonlinear_arith);
    }
}

} // verus!
