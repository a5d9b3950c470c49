//! The precompiled table of a normalizer: which texts are one, and which can be searched.
//!
//! A table is written in base 64. It has a count of bytes, that many bytes of units of four, and the texts the units
//! lead to, each up to its zero byte. A search goes from unit to unit, by the bytes of what it looks for.
use vstd::prelude::*;
use vstd::utf8;

use crate::bytes;

verus! {

/// What a text is, taken as a table.
#[derive(Clone, Copy, Debug, PartialEq, Eq, Structural)]
pub enum Kind {
    /// No table.
    Broken,
    /// A table, but a search in it may go astray.
    Astray,
    /// A table that can be searched for any text.
    Sound,
}

/// What a digit of base 64 is worth.
pub open spec fn digit_of(b: u8) -> Option<int> {
    if 0x41 <= b <= 0x5a {
        Some(b - 0x41)
    } else if 0x61 <= b <= 0x7a {
        Some(b - 0x61 + 26)
    } else if 0x30 <= b <= 0x39 {
        Some(b - 0x30 + 52)
    } else if b == 0x2b {
        Some(62int)
    } else if b == 0x2f {
        Some(63int)
    } else {
        None
    }
}

fn read_digit(b: u8) -> (d: Option<u8>)
    ensures
        match d {
            Some(d) => digit_of(b) == Some(d as int) && d < 64,
            None => digit_of(b) is None,
        },
{
    if 0x41 <= b && b <= 0x5a {
        Some(b - 0x41)
    } else if 0x61 <= b && b <= 0x7a {
        Some(b - 0x61 + 26)
    } else if 0x30 <= b && b <= 0x39 {
        Some(b - 0x30 + 52)
    } else if b == 0x2b {
        Some(62)
    } else if b == 0x2f {
        Some(63)
    } else {
        None
    }
}

/// What a byte of a text in base 64 is worth: that of its digit, and nothing where it fills up.
pub open spec fn worth(b: u8) -> int {
    match digit_of(b) {
        Some(d) => d,
        None => 0,
    }
}

fn find_worth(b: u8) -> (d: u8)
    ensures
        d == worth(b),
        d < 64,
{
    match read_digit(b) {
        Some(d) => d,
        None => 0,
    }
}

/// How many of the last bytes of a text in base 64 fill it up.
pub open spec fn fill(s: Seq<u8>) -> int {
    let n = s.len() as int;
    if n < 2 || s[n - 1] != 0x3d {
        0
    } else if s[n - 2] != 0x3d {
        1
    } else {
        2
    }
}

/// Whether a text is in base 64: fours of digits, the last filled up, and no bit set that is not used.
pub open spec fn is_base64(s: Seq<u8>) -> bool {
    let n = s.len() as int;
    &&& n % 4 == 0
    &&& forall|i: int| 0 <= i < n - fill(s) ==> (#[trigger] digit_of(s[i])) is Some
    &&& fill(s) == 1 ==> worth(s[n - 2]) % 4 == 0
    &&& fill(s) == 2 ==> worth(s[n - 3]) % 16 == 0
}

/// The byte `i` that a text in base 64 writes.
pub open spec fn byte_of(s: Seq<u8>, i: int) -> u8 {
    let a = worth(s[i / 3 * 4 + i % 3]);
    let b = worth(s[i / 3 * 4 + i % 3 + 1]);
    (if i % 3 == 0 {
        4 * a + b / 16
    } else if i % 3 == 1 {
        16 * (a % 16) + b / 4
    } else {
        64 * (a % 4) + b
    }) as u8
}

/// The bytes that a text in base 64 writes.
pub open spec fn written(s: Seq<u8>) -> Seq<u8> {
    Seq::new((s.len() / 4 * 3 - fill(s)) as nat, |i: int| byte_of(s, i))
}

/// Four digits write three bytes: as one number to the base of 64 and one to the base of 256 they are the same.
pub proof fn law_four_digits_are_three_bytes(s: Seq<u8>, g: int)
    requires
        0 <= g,
        4 * g + 4 <= s.len(),
        forall|k: int| 0 <= k < 4 ==> (#[trigger] digit_of(s[4 * g + k])) is Some,
    ensures
        byte_of(s, 3 * g) * 65536 + byte_of(s, 3 * g + 1) * 256 + byte_of(s, 3 * g + 2) == worth(s[4 * g]) * 262144
            + worth(s[4 * g + 1]) * 4096 + worth(s[4 * g + 2]) * 64 + worth(s[4 * g + 3]),
{
    assert((3 * g) / 3 == g && (3 * g + 1) / 3 == g && (3 * g + 2) / 3 == g);
    assert((3 * g) % 3 == 0 && (3 * g + 1) % 3 == 1 && (3 * g + 2) % 3 == 2);
    let (a, b, c, d) = (worth(s[4 * g]), worth(s[4 * g + 1]), worth(s[4 * g + 2]), worth(s[4 * g + 3]));
    assert(digit_of(s[4 * g + 0]) is Some && digit_of(s[4 * g + 1]) is Some);
    assert(digit_of(s[4 * g + 2]) is Some && digit_of(s[4 * g + 3]) is Some);
    assert(0 <= a < 64 && 0 <= b < 64 && 0 <= c < 64 && 0 <= d < 64);
}

fn decode(s: &[u8]) -> (out: Option<Vec<u8>>)
    ensures
        match out {
            Some(out) => is_base64(s@) && out@ == written(s@),
            None => !is_base64(s@),
        },
{
    let n: usize = s.len();
    if n % 4 != 0 {
        return None;
    }
    let pads: usize = if n < 2 || s[n - 1] != 0x3d {
        0
    } else if s[n - 2] != 0x3d {
        1
    } else {
        2
    };
    let mut i: usize = 0;
    while i < n - pads
        invariant
            n == s@.len(),
            pads <= n,
            pads == fill(s@),
            forall|k: int| 0 <= k < i ==> (#[trigger] digit_of(s@[k])) is Some,
        decreases n - i,
    {
        if read_digit(s[i]).is_none() {
            assert(digit_of(s@[i as int]) is None);
            return None;
        }
        i += 1;
    }
    if (pads == 1 && find_worth(s[n - 2]) % 4 != 0) || (pads == 2 && find_worth(s[n - 3]) % 16 != 0) {
        return None;
    }
    let mut out: Vec<u8> = Vec::new();
    let end: usize = n / 4 * 3 - pads;
    let mut i: usize = 0;
    while i < end
        invariant
            n == s@.len(),
            n % 4 == 0,
            pads == fill(s@),
            end == n / 4 * 3 - pads,
            i <= end,
            out@.len() == i,
            forall|k: int| 0 <= k < i ==> #[trigger] out@[k] == byte_of(s@, k),
        decreases end - i,
    {
        let at: usize = i / 3 * 4 + i % 3;
        let a: u8 = find_worth(s[at]);
        let b: u8 = find_worth(s[at + 1]);
        let v: u8 = if i % 3 == 0 {
            4 * a + b / 16
        } else if i % 3 == 1 {
            16 * (a % 16) + b / 4
        } else {
            64 * (a % 4) + b
        };
        out.push(v);
        i += 1;
    }
    assert(out@ =~= written(s@));
    Some(out)
}

/// How many units a table has.
pub open spec fn units_in(d: Seq<u8>) -> int {
    bytes::from_le32(d.subrange(0, 4)) as int / 4
}

/// The unit `i` of a table.
pub open spec fn unit(d: Seq<u8>, i: int) -> int {
    bytes::from_le32(d.subrange(4 + 4 * i, 8 + 4 * i)) as int
}

/// The texts of a table.
pub open spec fn texts(d: Seq<u8>) -> Seq<u8> {
    d.subrange(4 + 4 * units_in(d), d.len() as int)
}

/// Whether bytes are a table.
pub open spec fn is_table(d: Seq<u8>) -> bool {
    &&& d.len() >= 4
    &&& 4 + 4 * units_in(d) <= d.len()
    &&& utf8::valid_utf8(texts(d))
}

/// Whether a search for some byte goes on at a unit.
pub open spec fn leads(u: int) -> bool {
    u < 0x8000_0000 && u % 256 != 0
}

/// Whether a text may end at a unit.
pub open spec fn ends_here(u: int) -> bool {
    u / 256 % 2 == 1
}

/// How far a search goes from a unit.
pub open spec fn reach(u: int) -> int {
    u / 1024 * if u / 512 % 2 == 1 {
        256int
    } else {
        1
    }
}

/// Where a search goes on from the unit `u` at `p`.
pub open spec fn next(p: int, u: int) -> int {
    ((p as u64) ^ (reach(u) as u64)) as int
}

/// Whether wherever a byte leads from here there is a unit.
pub open spec fn within(at: int, units: int) -> bool {
    at / 256 * 256 + 255 < units
}

/// Whether a text of a table begins at this byte.
pub open spec fn begins(t: Seq<u8>, v: int) -> bool {
    v == t.len() || 0 <= v < t.len() && !(0x80 <= t[v] <= 0xbf)
}

/// Whether a search stays in the table at the unit `p`, and finds a text where one ends there.
pub open spec fn stays(d: Seq<u8>, p: int) -> bool {
    let n = units_in(d);
    let at = next(p, unit(d, p));
    leads(unit(d, p)) ==> within(at, n) && (ends_here(unit(d, p)) ==> begins(
        texts(d),
        unit(d, at) % 0x8000_0000,
    ))
}

/// Whether a table can be searched for any text.
pub open spec fn is_searchable(d: Seq<u8>) -> bool {
    &&& units_in(d) > 0
    &&& within(next(0, unit(d, 0)), units_in(d))
    &&& forall|p: int| 0 <= p < units_in(d) ==> #[trigger] stays(d, p)
}

/// What a text is, taken as a table.
pub open spec fn kind_of(s: Seq<u8>) -> Kind {
    if !is_base64(s) || !is_table(written(s)) {
        Kind::Broken
    } else if is_searchable(written(s)) {
        Kind::Sound
    } else {
        Kind::Astray
    }
}

/// `std::str::from_utf8`: whether bytes are UTF-8.
#[verifier::external_body]
pub(crate) fn is_utf8(bytes: &[u8]) -> (yes: bool)
    ensures
        yes == utf8::valid_utf8(bytes@),
{
    std::str::from_utf8(bytes).is_ok()
}

fn read_unit(d: &[u8], i: usize) -> (u: u64)
    requires
        is_table(d@),
        i < units_in(d@),
    ensures
        u == unit(d@, i as int),
        u <= 0xffff_ffff,
{
    bytes::read_le32(d, 4 + 4 * i) as u64
}

fn find_next(p: u64, u: u64) -> (at: u64)
    requires
        u <= 0xffff_ffff,
    ensures
        at == next(p as int, u as int),
{
    let wide: u64 = if u / 512 % 2 == 1 {
        256
    } else {
        1
    };
    assert(u / 1024 <= 0x40_0000);
    let far: u64 = u / 1024 * wide;
    p ^ far
}

/// Whether a table can be searched for any text.
fn search_stays(d: &[u8]) -> (yes: bool)
    requires
        is_table(d@),
    ensures
        yes == is_searchable(d@),
{
    let n: u64 = bytes::read_le32(d, 0) as u64 / 4;
    if n == 0 {
        return false;
    }
    let root: u64 = read_unit(d, 0);
    let from: u64 = find_next(0, root);
    if from / 256 >= n / 256 {
        assert(!within(from as int, n as int));
        return false;
    }
    assert(4 + 4 * n <= d@.len() && d@.len() == d.len());
    let texts: &[u8] = vstd::slice::slice_subrange(d, 4 + 4 * n as usize, d.len());
    let mut p: usize = 0;
    while p < n as usize
        invariant
            p <= n,
            n == units_in(d@),
            n > 0,
            is_table(d@),
            texts@ == self::texts(d@),
            within(next(0, unit(d@, 0)), n as int),
            forall|k: int| 0 <= k < p ==> #[trigger] stays(d@, k),
        decreases n - p,
    {
        let u: u64 = read_unit(d, p);
        if u < 0x8000_0000 && u % 256 != 0 {
            let at: u64 = find_next(p as u64, u);
            if at / 256 >= n / 256 {
                assert(!within(at as int, n as int));
                assert(!stays(d@, p as int));
                return false;
            }
            if u / 256 % 2 == 1 {
                let v: u64 = read_unit(d, at as usize) % 0x8000_0000;
                let begun = v == texts.len() as u64 || (v < texts.len() as u64 && !(0x80 <= texts[v as usize]
                    && texts[v as usize] <= 0xbf));
                if !begun {
                    assert(!stays(d@, p as int));
                    return false;
                }
            }
        }
        assert(stays(d@, p as int));
        p += 1;
    }
    true
}

/// What a text is, taken as a table.
pub fn kind(s: &[u8]) -> (kind: Kind)
    ensures
        kind == kind_of(s@),
{
    let d = match decode(s) {
        Some(d) => d,
        None => {
            return Kind::Broken;
        },
    };
    if d.len() < 4 {
        return Kind::Broken;
    }
    let n: u64 = bytes::read_le32(d.as_slice(), 0) as u64 / 4;
    if n > ((d.len() - 4) / 4) as u64 {
        return Kind::Broken;
    }
    let rest: &[u8] = vstd::slice::slice_subrange(d.as_slice(), 4 + 4 * n as usize, d.len());
    assert(rest@ =~= texts(d@));
    if !is_utf8(rest) {
        return Kind::Broken;
    }
    if search_stays(d.as_slice()) {
        Kind::Sound
    } else {
        Kind::Astray
    }
}

} // verus!
