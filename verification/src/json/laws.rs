//! What a text written in escapes stands for.
use vstd::prelude::*;

use crate::json;

verus! {

/// A code point's bytes are the code point again: the first byte tells how many follow it, and the others carry six bits
/// each, the highest first.
pub proof fn law_utf8_is_the_code_point_again(v: int)
    requires
        0 <= v < 0x110000,
    ensures
        ({
            let b = json::utf8_of(v);
            &&& 1 <= b.len() <= 4
            &&& b.len() == 1 ==> b[0] == v && v < 128
            &&& b.len() == 2 ==> 0xc2 <= b[0] < 0xe0 && (b[0] - 0xc0) * 64 + (b[1] - 0x80) == v
            &&& b.len() == 3 ==> 0xe0 <= b[0] < 0xf0 && (b[0] - 0xe0) * 4096 + (b[1] - 0x80) * 64 + (b[2] - 0x80) == v
            &&& b.len() == 4 ==> 0xf0 <= b[0] < 0xf5 && (b[0] - 0xf0) * 262144 + (b[1] - 0x80) * 4096 + (b[2] - 0x80) * 64
                + (b[3] - 0x80) == v
            &&& forall|i: int| 1 <= i < b.len() ==> 0x80 <= #[trigger] b[i] < 0xc0
        }),
{
    let b = json::utf8_of(v);
    if v >= 0x10000 {
        assert(v == v / 262144 * 262144 + v / 4096 % 64 * 4096 + v / 64 % 64 * 64 + v % 64);
    } else if v >= 0x800 {
        assert(v == v / 4096 * 4096 + v / 64 % 64 * 64 + v % 64);
    }
}

/// An escape of four digits stands for the number they are; two of them, the first of the upper half of a pair and the
/// second of the lower, for the one code point past the first 65536 that the pair is. Half a pair stands for nothing.
pub proof fn law_an_escape_is_its_digits(s: Seq<u8>, i: int, v: int, w: int)
    requires
        0 <= i,
        json::at(s, i + 1) == 0x75,
        json::hex4(s, i + 2) == Some(v),
        json::hex4(s, i + 8) == Some(w),
        json::at(s, i + 6) == 0x5c,
        json::at(s, i + 7) == 0x75,
    ensures
        0 <= v < 65536,
        v < 0xd800 || v >= 0xe000 ==> json::escape_at(s, i) == Some((6int, v)),
        0xd800 <= v < 0xdc00 && 0xdc00 <= w < 0xe000 ==> json::escape_at(s, i) == Some(
            (12int, 65536 + (v - 0xd800) * 1024 + (w - 0xdc00)),
        ),
        0xd800 <= v < 0xdc00 && !(0xdc00 <= w < 0xe000) ==> json::escape_at(s, i) is None,
        0xdc00 <= v < 0xe000 ==> json::escape_at(s, i) is None,
{
}

} // verus!
