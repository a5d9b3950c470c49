//! The lexemes of a JSON document.
//!
//! A document is its lexemes, blanks aside. What a string literal spells is told where each of its surrogates has its
//! pair, and a number is told to be finite where it is so beyond doubt: no longer than a hundred bytes, with an
//! exponent below two hundred.
pub mod laws;

use vstd::prelude::*;

verus! {

/// What a lexeme is.
#[derive(Clone, Copy, Debug, PartialEq, Eq, Structural)]
pub enum Mark {
    OpenObject,
    CloseObject,
    OpenList,
    CloseList,
    Colon,
    Comma,
    Text,
    Number,
    True,
    False,
    Null,
}

/// A lexeme and where it stands: of a string literal what is between its quotes.
#[derive(Clone, Copy, Debug, PartialEq, Eq, Structural)]
pub struct Lexeme {
    pub mark: Mark,
    pub start: usize,
    pub end: usize,
}

pub open spec fn is_blank(b: u8) -> bool {
    b == 0x20 || b == 0x0a || b == 0x0d || b == 0x09
}

pub open spec fn is_digit(b: u8) -> bool {
    0x30 <= b <= 0x39
}

/// The byte at `i`, and zero past the end: a byte no lexeme has there.
pub open spec fn at(s: Seq<u8>, i: int) -> u8 {
    if 0 <= i < s.len() {
        s[i]
    } else {
        0
    }
}

fn byte_at(s: &[u8], i: usize) -> (b: u8)
    ensures
        b == at(s@, i as int),
{
    if i < s.len() {
        s[i]
    } else {
        0
    }
}

/// What a hexadecimal digit is worth.
pub open spec fn hex_digit(b: u8) -> Option<int> {
    if 0x30 <= b <= 0x39 {
        Some(b - 0x30)
    } else if 0x41 <= b <= 0x46 {
        Some(b - 0x41 + 10)
    } else if 0x61 <= b <= 0x66 {
        Some(b - 0x61 + 10)
    } else {
        None
    }
}

fn read_hex_digit(b: u8) -> (d: Option<u32>)
    ensures
        match d {
            Some(v) => hex_digit(b) == Some(v as int) && v < 16,
            None => hex_digit(b) is None,
        },
{
    if 0x30 <= b && b <= 0x39 {
        Some((b - 0x30) as u32)
    } else if 0x41 <= b && b <= 0x46 {
        Some((b - 0x41) as u32 + 10)
    } else if 0x61 <= b && b <= 0x66 {
        Some((b - 0x61) as u32 + 10)
    } else {
        None
    }
}

/// The four hexadecimal digits at `i`.
pub open spec fn hex4(s: Seq<u8>, i: int) -> Option<int> {
    match (hex_digit(at(s, i)), hex_digit(at(s, i + 1)), hex_digit(at(s, i + 2)), hex_digit(at(s, i + 3))) {
        (Some(a), Some(b), Some(c), Some(d)) => Some(4096 * a + 256 * b + 16 * c + d),
        _ => None,
    }
}

fn read_hex4(s: &[u8], i: usize) -> (v: Option<u32>)
    requires
        i + 3 <= usize::MAX,
    ensures
        match v {
            Some(v) => hex4(s@, i as int) == Some(v as int) && v < 65536,
            None => hex4(s@, i as int) is None,
        },
{
    let a = match read_hex_digit(byte_at(s, i)) {
        Some(a) => a,
        None => {
            return None;
        },
    };
    let b = match read_hex_digit(byte_at(s, i + 1)) {
        Some(b) => b,
        None => {
            return None;
        },
    };
    let c = match read_hex_digit(byte_at(s, i + 2)) {
        Some(c) => c,
        None => {
            return None;
        },
    };
    match read_hex_digit(byte_at(s, i + 3)) {
        Some(d) => Some(4096 * a + 256 * b + 16 * c + d),
        None => None,
    }
}

/// What an escape that is one character after its backslash stands for.
pub open spec fn short_escape(c: u8) -> Option<u8> {
    if c == 0x22 || c == 0x5c || c == 0x2f {
        Some(c)
    } else if c == 0x62 {
        Some(0x08)
    } else if c == 0x66 {
        Some(0x0c)
    } else if c == 0x6e {
        Some(0x0a)
    } else if c == 0x72 {
        Some(0x0d)
    } else if c == 0x74 {
        Some(0x09)
    } else {
        None
    }
}

/// The escape whose backslash is at `i`: how many bytes it takes, and the code point it stands for.
pub open spec fn escape_at(s: Seq<u8>, i: int) -> Option<(int, int)> {
    if at(s, i + 1) != 0x75 {
        match short_escape(at(s, i + 1)) {
            Some(c) => Some((2int, c as int)),
            None => None,
        }
    } else {
        match hex4(s, i + 2) {
            None => None,
            Some(v) => if 0xd800 <= v <= 0xdbff {
                match hex4(s, i + 8) {
                    Some(w) => if at(s, i + 6) == 0x5c && at(s, i + 7) == 0x75 && 0xdc00 <= w <= 0xdfff {
                        Some((12int, 0x10000 + 1024 * (v - 0xd800) + (w - 0xdc00)))
                    } else {
                        None
                    },
                    None => None,
                }
            } else if 0xdc00 <= v <= 0xdfff {
                None
            } else {
                Some((6int, v))
            },
        }
    }
}

fn read_escape(s: &[u8], i: usize) -> (e: Option<(usize, u32)>)
    requires
        i + 12 <= usize::MAX,
    ensures
        match e {
            Some((n, v)) => escape_at(s@, i as int) == Some((n as int, v as int)) && 2 <= n <= 12
                && v < 0x110000 && i + n <= s@.len(),
            None => escape_at(s@, i as int) is None,
        },
{
    let c: u8 = byte_at(s, i + 1);
    if c != 0x75 {
        if c == 0x22 || c == 0x5c || c == 0x2f {
            Some((2, c as u32))
        } else if c == 0x62 {
            Some((2, 0x08))
        } else if c == 0x66 {
            Some((2, 0x0c))
        } else if c == 0x6e {
            Some((2, 0x0a))
        } else if c == 0x72 {
            Some((2, 0x0d))
        } else if c == 0x74 {
            Some((2, 0x09))
        } else {
            None
        }
    } else {
        match read_hex4(s, i + 2) {
            None => None,
            Some(v) => if 0xd800 <= v && v <= 0xdbff {
                match read_hex4(s, i + 8) {
                    Some(w) => if byte_at(s, i + 6) == 0x5c && byte_at(s, i + 7) == 0x75 && 0xdc00 <= w && w
                        <= 0xdfff {
                        Some((12, 0x10000 + 1024 * (v - 0xd800) + (w - 0xdc00)))
                    } else {
                        None
                    },
                    None => None,
                }
            } else if 0xdc00 <= v && v <= 0xdfff {
                None
            } else {
                Some((6, v))
            },
        }
    }
}

/// The UTF-8 bytes of a code point.
pub open spec fn utf8_of(v: int) -> Seq<u8> {
    if v < 0x80 {
        seq![v as u8]
    } else if v < 0x800 {
        seq![(0xc0 + v / 64) as u8, (0x80 + v % 64) as u8]
    } else if v < 0x10000 {
        seq![(0xe0 + v / 4096) as u8, (0x80 + v / 64 % 64) as u8, (0x80 + v % 64) as u8]
    } else {
        seq![
            (0xf0 + v / 262144) as u8,
            (0x80 + v / 4096 % 64) as u8,
            (0x80 + v / 64 % 64) as u8,
            (0x80 + v % 64) as u8,
        ]
    }
}

fn push_utf8(out: &mut Vec<u8>, v: u32)
    requires
        v < 0x110000,
    ensures
        final(out)@ == old(out)@ + utf8_of(v as int),
{
    if v < 0x80 {
        out.push(v as u8);
    } else if v < 0x800 {
        out.push((0xc0 + v / 64) as u8);
        out.push((0x80 + v % 64) as u8);
    } else if v < 0x10000 {
        out.push((0xe0 + v / 4096) as u8);
        out.push((0x80 + v / 64 % 64) as u8);
        out.push((0x80 + v % 64) as u8);
    } else {
        out.push((0xf0 + v / 262144) as u8);
        out.push((0x80 + v / 4096 % 64) as u8);
        out.push((0x80 + v / 64 % 64) as u8);
        out.push((0x80 + v % 64) as u8);
    }
    assert(out@ =~= old(out)@ + utf8_of(v as int));
}

/// What the bytes of a string literal from `i` to `end` spell.
pub open spec fn spelled(s: Seq<u8>, i: int, end: int) -> Seq<u8>
    decreases end - i,
{
    if i >= end {
        Seq::empty()
    } else if s[i] == 0x5c {
        match escape_at(s, i) {
            Some((n, v)) => if 0 < n <= end - i {
                utf8_of(v) + spelled(s, i + n, end)
            } else {
                Seq::empty()
            },
            None => Seq::empty(),
        }
    } else {
        seq![s[i]] + spelled(s, i + 1, end)
    }
}

/// A string literal spells no more bytes than it has.
pub proof fn lemma_spelled_is_no_longer(s: Seq<u8>, i: int, end: int)
    ensures
        i <= end ==> spelled(s, i, end).len() <= end - i,
        i > end ==> spelled(s, i, end).len() == 0,
    decreases end - i,
{
    if i < end {
        if s[i] == 0x5c {
            if let Some((n, v)) = escape_at(s, i) {
                if 0 < n <= end - i {
                    lemma_spelled_is_no_longer(s, i + n, end);
                }
            }
        } else {
            lemma_spelled_is_no_longer(s, i + 1, end);
        }
    }
}

/// What a string literal spells.
pub fn spell(s: &[u8], l: Lexeme) -> (out: Vec<u8>)
    requires
        l.end <= s@.len(),
        s@.len() + 12 <= usize::MAX,
    ensures
        out@ == spelled(s@, l.start as int, l.end as int),
{
    let mut out: Vec<u8> = Vec::new();
    let mut i: usize = l.start;
    assert(out@ + spelled(s@, i as int, l.end as int) =~= spelled(s@, i as int, l.end as int));
    while i < l.end
        invariant
            l.end <= s@.len(),
            s@.len() + 12 <= usize::MAX,
            out@ + spelled(s@, i as int, l.end as int) == spelled(s@, l.start as int, l.end as int),
        decreases l.end - i,
    {
        let ghost before = out@;
        let ghost from = i;
        let b: u8 = s[i];
        if b == 0x5c {
            match read_escape(s, i) {
                Some((n, v)) => {
                    if n > l.end - i {
                        assert(out@ + spelled(s@, i as int, l.end as int) =~= out@);
                        return out;
                    }
                    push_utf8(&mut out, v);
                    i += n;
                    assert(out@ + spelled(s@, i as int, l.end as int) =~= before + spelled(
                        s@,
                        from as int,
                        l.end as int,
                    ));
                },
                None => {
                    assert(out@ + spelled(s@, i as int, l.end as int) =~= out@);
                    return out;
                },
            }
        } else {
            out.push(b);
            i += 1;
            assert(out@ + spelled(s@, i as int, l.end as int) =~= before + spelled(
                s@,
                from as int,
                l.end as int,
            ));
        }
    }
    assert(out@ + spelled(s@, i as int, l.end as int) =~= out@);
    out
}

/// How many bytes the escape takes whose backslash is at `i`, a surrogate by itself.
pub open spec fn escape_length(s: Seq<u8>, i: int) -> Option<int> {
    if at(s, i + 1) == 0x75 {
        match hex4(s, i + 2) {
            Some(_) => Some(6int),
            None => None,
        }
    } else {
        match short_escape(at(s, i + 1)) {
            Some(_) => Some(2int),
            None => None,
        }
    }
}

fn read_escape_length(s: &[u8], i: usize) -> (n: Option<usize>)
    requires
        i + 12 <= usize::MAX,
    ensures
        match n {
            Some(n) => escape_length(s@, i as int) == Some(n as int) && 2 <= n && i + n <= s@.len(),
            None => escape_length(s@, i as int) is None,
        },
{
    let c: u8 = byte_at(s, i + 1);
    if c == 0x75 {
        match read_hex4(s, i + 2) {
            Some(_) => Some(6),
            None => None,
        }
    } else if c == 0x22 || c == 0x5c || c == 0x2f || c == 0x62 || c == 0x66 || c == 0x6e || c == 0x72 || c == 0x74 {
        Some(2)
    } else {
        None
    }
}

/// Whether each surrogate among the escapes of a string literal from `i` to `end` has its pair.
pub open spec fn is_spelled(s: Seq<u8>, i: int, end: int) -> bool
    decreases end - i,
{
    if i >= end {
        true
    } else if s[i] == 0x5c {
        match escape_at(s, i) {
            Some((n, v)) => 0 < n <= end - i && is_spelled(s, i + n, end),
            None => false,
        }
    } else {
        is_spelled(s, i + 1, end)
    }
}

/// Whether each surrogate among the escapes of a string literal has its pair.
pub fn spells_all(s: &[u8], l: Lexeme) -> (yes: bool)
    requires
        l.end <= s@.len(),
        s@.len() + 12 <= usize::MAX,
    ensures
        yes == is_spelled(s@, l.start as int, l.end as int),
{
    let mut i: usize = l.start;
    while i < l.end
        invariant
            l.end <= s@.len(),
            s@.len() + 12 <= usize::MAX,
            is_spelled(s@, l.start as int, l.end as int) == is_spelled(s@, i as int, l.end as int),
        decreases l.end - i,
    {
        if s[i] == 0x5c {
            match read_escape(s, i) {
                Some((n, _)) => {
                    if n > l.end - i {
                        return false;
                    }
                    i += n;
                },
                None => {
                    return false;
                },
            }
        } else {
            i += 1;
        }
    }
    true
}

/// Where the string literal that `i` is inside of ends: at its closing quote.
pub open spec fn text_end(s: Seq<u8>, i: int) -> Option<int>
    decreases s.len() - i,
{
    if i < 0 || i >= s.len() || s[i] < 0x20 {
        None
    } else if s[i] == 0x22 {
        Some(i)
    } else if s[i] == 0x5c {
        match escape_length(s, i) {
            Some(n) => text_end(s, i + n),
            None => None,
        }
    } else {
        text_end(s, i + 1)
    }
}

fn find_text_end(s: &[u8], start: usize) -> (end: Option<usize>)
    requires
        s@.len() + 12 <= usize::MAX,
    ensures
        match end {
            Some(e) => text_end(s@, start as int) == Some(e as int) && start <= e < s@.len(),
            None => text_end(s@, start as int) is None,
        },
{
    let mut i: usize = start;
    while i < s.len()
        invariant
            start <= i,
            s@.len() + 12 <= usize::MAX,
            text_end(s@, start as int) == text_end(s@, i as int),
        decreases s@.len() - i,
    {
        let b: u8 = s[i];
        if b < 0x20 {
            return None;
        }
        if b == 0x22 {
            return Some(i);
        }
        if b == 0x5c {
            match read_escape_length(s, i) {
                Some(n) => {
                    i += n;
                },
                None => {
                    return None;
                },
            }
        } else {
            i += 1;
        }
    }
    None
}

/// Where the digits from `i` on end.
pub open spec fn digits_end(s: Seq<u8>, i: int) -> int
    decreases s.len() - i,
{
    if 0 <= i < s.len() && is_digit(s[i]) {
        digits_end(s, i + 1)
    } else {
        i
    }
}

fn find_digits_end(s: &[u8], start: usize) -> (end: usize)
    requires
        start <= s@.len(),
    ensures
        end == digits_end(s@, start as int),
        start <= end <= s@.len(),
{
    let mut i: usize = start;
    while i < s.len() && 0x30 <= s[i] && s[i] <= 0x39
        invariant
            start <= i <= s@.len(),
            digits_end(s@, start as int) == digits_end(s@, i as int),
        decreases s@.len() - i,
    {
        i += 1;
    }
    i
}

/// Where the whole part of the number at `i` ends: at `i` where there is none.
pub open spec fn whole_end(s: Seq<u8>, i: int) -> int {
    let a = if at(s, i) == 0x2d {
        i + 1
    } else {
        i
    };
    let b = if at(s, a) == 0x30 {
        a + 1
    } else {
        digits_end(s, a)
    };
    if b == a {
        i
    } else {
        b
    }
}

/// Where the fraction that may follow at `b` ends; `None` where it is cut short.
pub open spec fn fraction_end(s: Seq<u8>, b: int) -> Option<int> {
    if at(s, b) != 0x2e {
        Some(b)
    } else if digits_end(s, b + 1) == b + 1 {
        None
    } else {
        Some(digits_end(s, b + 1))
    }
}

/// Where the digits of the exponent begin that may follow at `c`.
pub open spec fn exponent_digits(s: Seq<u8>, c: int) -> int {
    if at(s, c) != 0x65 && at(s, c) != 0x45 {
        c
    } else if at(s, c + 1) == 0x2b || at(s, c + 1) == 0x2d {
        c + 2
    } else {
        c + 1
    }
}

/// Where the exponent that may follow at `c` ends; `None` where it is cut short.
pub open spec fn exponent_end(s: Seq<u8>, c: int) -> Option<int> {
    let e = exponent_digits(s, c);
    if e == c {
        Some(c)
    } else if e < digits_end(s, e) {
        Some(digits_end(s, e))
    } else {
        None
    }
}

/// Where the number at `i` ends.
pub open spec fn number_end(s: Seq<u8>, i: int) -> Option<int> {
    if whole_end(s, i) == i {
        None
    } else {
        match fraction_end(s, whole_end(s, i)) {
            None => None,
            Some(c) => exponent_end(s, c),
        }
    }
}

/// Whether the number at `i` is finite beyond doubt.
pub open spec fn is_finite(s: Seq<u8>, i: int) -> bool {
    number_end(s, i) matches Some(end) && fraction_end(s, whole_end(s, i)) matches Some(c) && end - i <= 100 && (end
        == c || at(s, c + 1) == 0x2d || end - exponent_digits(s, c) <= 2 || end - exponent_digits(s, c) == 3 && at(
        s,
        exponent_digits(s, c),
    ) <= 0x31)
}

/// Where the number at `i` ends, and whether it is finite beyond doubt.
#[verifier::rlimit(40)]
#[verifier::spinoff_prover]
fn measure_number(s: &[u8], i: usize) -> (found: Option<(usize, bool)>)
    requires
        i < s@.len(),
        s@.len() + 12 <= usize::MAX,
    ensures
        match found {
            Some((e, finite)) => number_end(s@, i as int) == Some(e as int) && i < e <= s@.len() && finite
                == is_finite(s@, i as int),
            None => number_end(s@, i as int) is None,
        },
{
    let a: usize = if byte_at(s, i) == 0x2d {
        i + 1
    } else {
        i
    };
    let b: usize = if byte_at(s, a) == 0x30 {
        a + 1
    } else {
        find_digits_end(s, a)
    };
    if b == a {
        return None;
    }
    let c: usize = if byte_at(s, b) != 0x2e {
        b
    } else {
        let f: usize = find_digits_end(s, b + 1);
        if f == b + 1 {
            return None;
        }
        f
    };
    if byte_at(s, c) != 0x65 && byte_at(s, c) != 0x45 {
        return Some((c, c - i <= 100));
    }
    let e: usize = if byte_at(s, c + 1) == 0x2b || byte_at(s, c + 1) == 0x2d {
        c + 2
    } else {
        c + 1
    };
    let f: usize = find_digits_end(s, e);
    if f == e {
        return None;
    }
    let small: bool = byte_at(s, c + 1) == 0x2d || f - e <= 2 || (f - e == 3 && byte_at(s, e) <= 0x31);
    Some((f, f - i <= 100 && small))
}

/// Whether a number is finite beyond doubt.
pub fn finite(s: &[u8], l: Lexeme) -> (yes: bool)
    requires
        s@.len() + 12 <= usize::MAX,
    ensures
        yes == is_finite(s@, l.start as int),
{
    if l.start >= s.len() {
        return false;
    }
    match measure_number(s, l.start) {
        Some((_, finite)) => finite,
        None => false,
    }
}

/// The lexeme that is one byte.
pub open spec fn sign(b: u8) -> Option<Mark> {
    if b == 0x7b {
        Some(Mark::OpenObject)
    } else if b == 0x7d {
        Some(Mark::CloseObject)
    } else if b == 0x5b {
        Some(Mark::OpenList)
    } else if b == 0x5d {
        Some(Mark::CloseList)
    } else if b == 0x3a {
        Some(Mark::Colon)
    } else if b == 0x2c {
        Some(Mark::Comma)
    } else {
        None
    }
}

/// The lexeme at `i`, and where what follows it begins.
pub open spec fn lexeme_at(s: Seq<u8>, i: int) -> Option<(Lexeme, int)> {
    match sign(at(s, i)) {
        Some(mark) => Some((Lexeme { mark, start: i as usize, end: (i + 1) as usize }, i + 1)),
        None => if at(s, i) == 0x22 {
            match text_end(s, i + 1) {
                Some(e) => Some(
                    (Lexeme { mark: Mark::Text, start: (i + 1) as usize, end: e as usize }, e + 1),
                ),
                None => None,
            }
        } else if at(s, i) == 0x2d || is_digit(at(s, i)) {
            match number_end(s, i) {
                Some(e) => Some(
                    (Lexeme { mark: Mark::Number, start: i as usize, end: e as usize }, e),
                ),
                None => None,
            }
        } else if at(s, i) == 0x74 && at(s, i + 1) == 0x72 && at(s, i + 2) == 0x75 && at(s, i + 3)
            == 0x65 {
            Some((Lexeme { mark: Mark::True, start: i as usize, end: (i + 4) as usize }, i + 4))
        } else if at(s, i) == 0x6e && at(s, i + 1) == 0x75 && at(s, i + 2) == 0x6c && at(s, i + 3)
            == 0x6c {
            Some((Lexeme { mark: Mark::Null, start: i as usize, end: (i + 4) as usize }, i + 4))
        } else if at(s, i) == 0x66 && at(s, i + 1) == 0x61 && at(s, i + 2) == 0x6c && at(s, i + 3)
            == 0x73 && at(s, i + 4) == 0x65 {
            Some((Lexeme { mark: Mark::False, start: i as usize, end: (i + 5) as usize }, i + 5))
        } else {
            None
        },
    }
}

fn read_lexeme(s: &[u8], i: usize) -> (l: Option<(Lexeme, usize)>)
    requires
        i < s@.len(),
        s@.len() + 12 <= usize::MAX,
    ensures
        match l {
            Some((l, next)) => lexeme_at(s@, i as int) == Some((l, next as int)) && i < next <= s@.len()
                && l.end <= s@.len(),
            None => lexeme_at(s@, i as int) is None,
        },
{
    let b: u8 = s[i];
    let mark = if b == 0x7b {
        Some(Mark::OpenObject)
    } else if b == 0x7d {
        Some(Mark::CloseObject)
    } else if b == 0x5b {
        Some(Mark::OpenList)
    } else if b == 0x5d {
        Some(Mark::CloseList)
    } else if b == 0x3a {
        Some(Mark::Colon)
    } else if b == 0x2c {
        Some(Mark::Comma)
    } else {
        None
    };
    match mark {
        Some(mark) => Some((Lexeme { mark, start: i, end: i + 1 }, i + 1)),
        None => if b == 0x22 {
            match find_text_end(s, i + 1) {
                Some(e) => Some((Lexeme { mark: Mark::Text, start: i + 1, end: e }, e + 1)),
                None => None,
            }
        } else if b == 0x2d || (0x30 <= b && b <= 0x39) {
            match measure_number(s, i) {
                Some((e, _)) => Some((Lexeme { mark: Mark::Number, start: i, end: e }, e)),
                None => None,
            }
        } else if b == 0x74 && byte_at(s, i + 1) == 0x72 && byte_at(s, i + 2) == 0x75 && byte_at(s, i + 3)
            == 0x65 {
            Some((Lexeme { mark: Mark::True, start: i, end: i + 4 }, i + 4))
        } else if b == 0x6e && byte_at(s, i + 1) == 0x75 && byte_at(s, i + 2) == 0x6c && byte_at(s, i + 3)
            == 0x6c {
            Some((Lexeme { mark: Mark::Null, start: i, end: i + 4 }, i + 4))
        } else if b == 0x66 && byte_at(s, i + 1) == 0x61 && byte_at(s, i + 2) == 0x6c && byte_at(s, i + 3)
            == 0x73 && byte_at(s, i + 4) == 0x65 {
            Some((Lexeme { mark: Mark::False, start: i, end: i + 5 }, i + 5))
        } else {
            None
        },
    }
}

/// The lexemes of a document from `i` on, behind those before; `None` where something in it is none.
pub open spec fn lexemes_from(s: Seq<u8>, i: int, before: Seq<Lexeme>) -> Option<Seq<Lexeme>>
    decreases s.len() - i,
{
    if i >= s.len() {
        Some(before)
    } else if i < 0 {
        None
    } else if is_blank(s[i]) {
        lexemes_from(s, i + 1, before)
    } else {
        match lexeme_at(s, i) {
            Some((l, next)) => if i < next <= s.len() {
                lexemes_from(s, next, before.push(l))
            } else {
                None
            },
            None => None,
        }
    }
}

/// The lexemes of a document.
pub open spec fn lexemes_of(s: Seq<u8>) -> Option<Seq<Lexeme>> {
    lexemes_from(s, 0, Seq::empty())
}

/// The lexemes of a document.
pub fn lexemes(s: &[u8]) -> (all: Option<Vec<Lexeme>>)
    requires
        s@.len() + 12 <= usize::MAX,
    ensures
        match all {
            Some(all) => lexemes_of(s@) == Some(all@) && all@.len() <= s@.len() && forall|k: int|
                0 <= k < all@.len() ==> (#[trigger] all@[k]).end <= s@.len(),
            None => lexemes_of(s@) is None,
        },
{
    let mut all: Vec<Lexeme> = Vec::new();
    let mut i: usize = 0;
    while i < s.len()
        invariant
            i <= s@.len(),
            s@.len() + 12 <= usize::MAX,
            all@.len() <= i,
            lexemes_of(s@) == lexemes_from(s@, i as int, all@),
            forall|k: int| 0 <= k < all@.len() ==> (#[trigger] all@[k]).end <= s@.len(),
        decreases s@.len() - i,
    {
        let b: u8 = s[i];
        if b == 0x20 || b == 0x0a || b == 0x0d || b == 0x09 {
            i += 1;
        } else {
            match read_lexeme(s, i) {
                Some((l, next)) => {
                    all.push(l);
                    i = next;
                },
                None => {
                    return None;
                },
            }
        }
    }
    Some(all)
}

} // verus!
