//! Text the library writes and compares: decimal numbers, names, and the order names sort in.
use vstd::prelude::*;
use vstd::string::{StrSliceExecFns, StringExecFns};
use vstd::utf8;

verus! {

/// The decimal digit `d`.
pub open spec fn digit(d: int) -> char {
    if d == 0 {
        '0'
    } else if d == 1 {
        '1'
    } else if d == 2 {
        '2'
    } else if d == 3 {
        '3'
    } else if d == 4 {
        '4'
    } else if d == 5 {
        '5'
    } else if d == 6 {
        '6'
    } else if d == 7 {
        '7'
    } else if d == 8 {
        '8'
    } else {
        '9'
    }
}

/// A number in decimal, without leading zeros.
pub open spec fn decimal(n: nat) -> Seq<char>
    decreases n,
{
    if n < 10 {
        seq![digit(n as int)]
    } else {
        decimal(n / 10).push(digit((n % 10) as int))
    }
}

/// A number in decimal, with a minus sign where it is negative.
pub open spec fn signed(n: int) -> Seq<char> {
    if n < 0 {
        seq!['-'] + decimal((-n) as nat)
    } else {
        decimal(n as nat)
    }
}

/// Appends one digit.
pub fn push_digit(out: &mut String, d: u64)
    requires
        d < 10,
    ensures
        final(out)@ == old(out)@.push(digit(d as int)),
{
    let ghost before = out@;
    proof {
        reveal_strlit("0");
        reveal_strlit("1");
        reveal_strlit("2");
        reveal_strlit("3");
        reveal_strlit("4");
        reveal_strlit("5");
        reveal_strlit("6");
        reveal_strlit("7");
        reveal_strlit("8");
        reveal_strlit("9");
    }
    let s: &str = if d == 0 {
        "0"
    } else if d == 1 {
        "1"
    } else if d == 2 {
        "2"
    } else if d == 3 {
        "3"
    } else if d == 4 {
        "4"
    } else if d == 5 {
        "5"
    } else if d == 6 {
        "6"
    } else if d == 7 {
        "7"
    } else if d == 8 {
        "8"
    } else {
        "9"
    };
    out.append(s);
    assert(out@ =~= before.push(digit(d as int)));
}

/// Appends a number in decimal.
pub fn push_decimal(out: &mut String, n: u64)
    ensures
        final(out)@ == old(out)@ + decimal(n as nat),
    decreases n,
{
    let ghost before = out@;
    if n >= 10 {
        push_decimal(out, n / 10);
    }
    push_digit(out, n % 10);
    assert(out@ =~= before + decimal(n as nat));
}

/// A number in decimal.
pub fn decimal_text(n: u64) -> (text: String)
    ensures
        text@ == decimal(n as nat),
{
    let mut out = String::new();
    push_decimal(&mut out, n);
    assert(out@ =~= decimal(n as nat));
    out
}

/// Appends a signed number in decimal.
pub fn push_signed(out: &mut String, n: i64)
    ensures
        final(out)@ == old(out)@ + signed(n as int),
{
    let ghost before = out@;
    if n < 0 {
        proof {
            reveal_strlit("-");
        }
        out.append("-");
        let size: u64 = if n == i64::MIN {
            0x8000_0000_0000_0000
        } else {
            (-n) as u64
        };
        push_decimal(out, size);
        assert(out@ =~= before + signed(n as int));
    } else {
        push_decimal(out, n as u64);
    }
}

/// Whether two names are the same text.
pub fn same(a: &str, b: &str) -> (same: bool)
    ensures
        same == (a@ == b@),
{
    let x: &[u8] = a.as_bytes();
    let y: &[u8] = b.as_bytes();
    if x.len() != y.len() {
        return false;
    }
    let mut i: usize = 0;
    while i < x.len()
        invariant
            i <= x@.len(),
            x@.len() == y@.len(),
            x@ == utf8::encode_utf8(a@),
            y@ == utf8::encode_utf8(b@),
            forall|k: int| 0 <= k < i ==> x@[k] == y@[k],
        decreases x@.len() - i,
    {
        if x[i] != y[i] {
            return false;
        }
        i += 1;
    }
    proof {
        assert(x@ =~= y@);
        utf8::encode_utf8_decode_utf8(a@);
        utf8::encode_utf8_decode_utf8(b@);
    }
    true
}

/// Whether `a` comes strictly before `b`, byte by byte, a prefix before what it is a prefix of.
pub open spec fn bytes_before(a: Seq<u8>, b: Seq<u8>) -> bool
    decreases a.len(),
{
    if b.len() == 0 {
        false
    } else if a.len() == 0 {
        true
    } else if a[0] != b[0] {
        a[0] < b[0]
    } else {
        bytes_before(a.drop_first(), b.drop_first())
    }
}

/// The order names sort in: that of their UTF-8 bytes.
pub open spec fn before(a: Seq<char>, b: Seq<char>) -> bool {
    bytes_before(utf8::encode_utf8(a), utf8::encode_utf8(b))
}

pub proof fn lemma_bytes_before_is_strict(a: Seq<u8>, b: Seq<u8>)
    ensures
        !(bytes_before(a, b) && bytes_before(b, a)),
        !bytes_before(a, a),
        bytes_before(a, b) || bytes_before(b, a) || a == b,
    decreases a.len(),
{
    if a.len() == 0 && b.len() == 0 {
        assert(a =~= b);
    } else if a.len() > 0 {
        if b.len() > 0 {
            lemma_bytes_before_is_strict(a.drop_first(), b.drop_first());
            if a.drop_first() == b.drop_first() && a[0] == b[0] {
                assert(a =~= seq![a[0]] + a.drop_first());
                assert(b =~= seq![b[0]] + b.drop_first());
            }
        }
        lemma_bytes_before_is_strict(a.drop_first(), a.drop_first());
    }
}

pub proof fn lemma_bytes_before_chains(a: Seq<u8>, b: Seq<u8>, c: Seq<u8>)
    requires
        bytes_before(a, b),
        bytes_before(b, c),
    ensures
        bytes_before(a, c),
    decreases a.len(),
{
    if a.len() > 0 && a[0] == b[0] && b[0] == c[0] {
        lemma_bytes_before_chains(a.drop_first(), b.drop_first(), c.drop_first());
    }
}

/// Names sort strictly: no two come before each other, and any two that differ are ordered.
pub proof fn lemma_before_is_strict(a: Seq<char>, b: Seq<char>)
    ensures
        !(before(a, b) && before(b, a)),
        !before(a, a),
        before(a, b) || before(b, a) || a == b,
{
    lemma_bytes_before_is_strict(utf8::encode_utf8(a), utf8::encode_utf8(b));
    lemma_bytes_before_is_strict(utf8::encode_utf8(a), utf8::encode_utf8(a));
    if utf8::encode_utf8(a) == utf8::encode_utf8(b) {
        utf8::encode_utf8_decode_utf8(a);
        utf8::encode_utf8_decode_utf8(b);
    }
}

pub proof fn lemma_before_chains(a: Seq<char>, b: Seq<char>, c: Seq<char>)
    requires
        before(a, b),
        before(b, c),
    ensures
        before(a, c),
{
    lemma_bytes_before_chains(utf8::encode_utf8(a), utf8::encode_utf8(b), utf8::encode_utf8(c));
}

proof fn lemma_bytes_before_skips(a: Seq<u8>, b: Seq<u8>, n: int)
    requires
        0 <= n <= a.len(),
        n <= b.len(),
        a.take(n) == b.take(n),
    ensures
        bytes_before(a, b) == bytes_before(a.skip(n), b.skip(n)),
    decreases n,
{
    if n > 0 {
        assert(a.take(n)[0] == a[0]);
        assert(b.take(n)[0] == b[0]);
        assert(a.drop_first().take(n - 1) =~= a.take(n).drop_first());
        assert(b.drop_first().take(n - 1) =~= b.take(n).drop_first());
        lemma_bytes_before_skips(a.drop_first(), b.drop_first(), n - 1);
        assert(a.drop_first().skip(n - 1) =~= a.skip(n));
        assert(b.drop_first().skip(n - 1) =~= b.skip(n));
    } else {
        assert(a.skip(0) =~= a);
        assert(b.skip(0) =~= b);
    }
}

/// Whether `a` sorts strictly before `b`.
pub fn sorts_before(a: &str, b: &str) -> (r: bool)
    ensures
        r == before(a@, b@),
{
    let x: &[u8] = a.as_bytes();
    let y: &[u8] = b.as_bytes();
    let mut i: usize = 0;
    while i < x.len() && i < y.len() && x[i] == y[i]
        invariant
            i <= x.len(),
            i <= y.len(),
            x@.take(i as int) == y@.take(i as int),
            x@ == utf8::encode_utf8(a@),
            y@ == utf8::encode_utf8(b@),
        decreases x.len() - i,
    {
        assert(x@.take(i + 1) =~= x@.take(i as int).push(x@[i as int]));
        assert(y@.take(i + 1) =~= y@.take(i as int).push(y@[i as int]));
        i += 1;
    }
    proof {
        lemma_bytes_before_skips(x@, y@, i as int);
    }
    if i == y.len() {
        false
    } else if i == x.len() {
        true
    } else {
        x[i] < y[i]
    }
}

/// Texts one after the other, with `sep` between each two.
pub open spec fn joined(parts: Seq<Seq<char>>, sep: Seq<char>) -> Seq<char>
    decreases parts.len(),
{
    if parts.len() == 0 {
        Seq::empty()
    } else if parts.len() == 1 {
        parts[0]
    } else {
        joined(parts.drop_last(), sep) + sep + parts.last()
    }
}

/// A list of counts as it is written in a message: `[32, 8]`.
pub open spec fn list_of(counts: Seq<usize>) -> Seq<char> {
    "["@ + joined(counts.map_values(|n: usize| decimal(n as nat)), ", "@) + "]"@
}

/// A list of signed numbers as it is written in a message: `[-1, 8]`.
pub open spec fn signed_list_of(numbers: Seq<i64>) -> Seq<char> {
    "["@ + joined(numbers.map_values(|n: i64| signed(n as int)), ", "@) + "]"@
}

proof fn lemma_joined_grows(parts: Seq<Seq<char>>, sep: Seq<char>, part: Seq<char>)
    ensures
        joined(parts.push(part), sep) == if parts.len() == 0 {
            part
        } else {
            joined(parts, sep) + sep + part
        },
{
    assert(parts.push(part).drop_last() =~= parts);
}

/// Appends a list of counts.
pub fn push_list(out: &mut String, counts: &[usize])
    ensures
        final(out)@ == old(out)@ + list_of(counts@),
{
    let ghost start = out@;
    let ghost texts = counts@.map_values(|n: usize| decimal(n as nat));
    out.append("[");
    let ghost opened = out@;
    let mut i: usize = 0;
    assert(texts.take(0).len() == 0);
    assert(out@ =~= opened + joined(texts.take(0), ", "@));
    while i < counts.len()
        invariant
            i <= counts@.len(),
            texts == counts@.map_values(|n: usize| decimal(n as nat)),
            out@ == opened + joined(texts.take(i as int), ", "@),
        decreases counts@.len() - i,
    {
        proof {
            lemma_joined_grows(texts.take(i as int), ", "@, texts[i as int]);
            assert(texts.take(i + 1) =~= texts.take(i as int).push(texts[i as int]));
        }
        if i > 0 {
            out.append(", ");
        }
        push_decimal(out, counts[i] as u64);
        assert(out@ =~= opened + joined(texts.take(i + 1), ", "@));
        i += 1;
    }
    assert(texts.take(i as int) =~= texts);
    out.append("]");
    assert(out@ =~= start + list_of(counts@));
}

/// Appends a list of signed numbers.
pub fn push_signed_list(out: &mut String, numbers: &[i64])
    ensures
        final(out)@ == old(out)@ + signed_list_of(numbers@),
{
    let ghost start = out@;
    let ghost texts = numbers@.map_values(|n: i64| signed(n as int));
    out.append("[");
    let ghost opened = out@;
    let mut i: usize = 0;
    assert(texts.take(0).len() == 0);
    assert(out@ =~= opened + joined(texts.take(0), ", "@));
    while i < numbers.len()
        invariant
            i <= numbers@.len(),
            texts == numbers@.map_values(|n: i64| signed(n as int)),
            out@ == opened + joined(texts.take(i as int), ", "@),
        decreases numbers@.len() - i,
    {
        proof {
            lemma_joined_grows(texts.take(i as int), ", "@, texts[i as int]);
            assert(texts.take(i + 1) =~= texts.take(i as int).push(texts[i as int]));
        }
        if i > 0 {
            out.append(", ");
        }
        push_signed(out, numbers[i]);
        assert(out@ =~= opened + joined(texts.take(i + 1), ", "@));
        i += 1;
    }
    assert(texts.take(i as int) =~= texts);
    out.append("]");
    assert(out@ =~= start + signed_list_of(numbers@));
}

/// Two texts one after the other.
pub fn cat2(a: &str, b: &str) -> (text: String)
    ensures
        text@ == a@ + b@,
{
    let mut out = String::from_str(a);
    out.append(b);
    out
}

/// Three texts one after the other.
pub fn cat3(a: &str, b: &str, c: &str) -> (text: String)
    ensures
        text@ == a@ + b@ + c@,
{
    let mut out = String::from_str(a);
    out.append(b);
    out.append(c);
    out
}

/// A number between two texts.
pub open spec fn phrase_of(a: Seq<char>, n: nat, b: Seq<char>) -> Seq<char> {
    a + decimal(n) + b
}

/// A number between two texts.
pub fn phrase(a: &str, n: usize, b: &str) -> (text: String)
    ensures
        text@ == phrase_of(a@, n as nat, b@),
{
    let mut out = String::from_str(a);
    push_decimal(&mut out, n as u64);
    out.append(b);
    out
}

/// Two numbers between three texts.
pub open spec fn phrase2_of(a: Seq<char>, n: nat, b: Seq<char>, m: nat, c: Seq<char>) -> Seq<char> {
    a + decimal(n) + b + decimal(m) + c
}

/// Two numbers between three texts.
pub fn phrase2(a: &str, n: usize, b: &str, m: usize, c: &str) -> (text: String)
    ensures
        text@ == phrase2_of(a@, n as nat, b@, m as nat, c@),
{
    let mut out = phrase(a, n, b);
    push_decimal(&mut out, m as u64);
    out.append(c);
    out
}

/// A path under a directory. An absolute path stands for itself.
pub open spec fn path_under(dir: Seq<char>, relative: Seq<char>) -> Seq<char> {
    if dir.len() == 0 || (relative.len() > 0 && relative[0] == '/') {
        relative
    } else if dir.last() == '/' {
        dir + relative
    } else {
        dir + "/"@ + relative
    }
}

/// A path under a directory. An absolute path stands for itself.
pub fn join_path(dir: &str, relative: &str) -> (path: String)
    ensures
        path@ == path_under(dir@, relative@),
{
    let n: usize = dir.unicode_len();
    let absolute: bool = relative.unicode_len() > 0 && relative.get_char(0) == '/';
    if n == 0 || absolute {
        return String::from_str(relative);
    }
    let mut path = String::from_str(dir);
    if dir.get_char(n - 1) != '/' {
        path.append("/");
    }
    path.append(relative);
    path
}

} // verus!
