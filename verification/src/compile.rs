//! Which kernels are wanted, and how each is configured.
//!
//! One kernel per source, symbol, configuration and target. Asking for a kernel and building it are
//! separate steps: [`Compiler::get`] only records the request, and the outstanding set is compiled
//! together and handed to [`Compiler::flush`]. A stack asks for its forty-odd kernels before any is
//! built, so a cold cache spends its time on several threads rather than one.
use vstd::prelude::*;
use vstd::string::StringExecFns;

use crate::names::Named;
use crate::text;

verus! {

/// The target kernels are compiled for where no device was asked for its own.
pub const TARGET_KEY: &'static str = "gfx1151";

#[derive(Debug)]
pub enum Error {
    MissingSource(String),
    Configuration { stem: String, message: String },
    Io(String),
    Runtime(String),
}

impl Error {
    /// What the error says.
    pub open spec fn text(self) -> Seq<char> {
        match self {
            Error::MissingSource(path) => "missing kernel source "@ + path@,
            Error::Configuration { stem, message } => "invalid configuration for "@ + stem@ + ": "@
                + message@,
            Error::Io(message) => message@,
            Error::Runtime(message) => message@,
        }
    }

    /// What the error says.
    pub fn message(&self) -> (text: String)
        ensures
            text@ == self.text(),
    {
        match self {
            Error::MissingSource(path) => text::cat2("missing kernel source ", path.as_str()),
            Error::Configuration { stem, message } => {
                let mut out = text::cat3("invalid configuration for ", stem.as_str(), ": ");
                out.append(message.as_str());
                out
            },
            Error::Io(message) => message.clone(),
            Error::Runtime(message) => message.clone(),
        }
    }
}

pub type Result<T> = std::result::Result<T, Error>;

/// Whether an error says something in these words.
pub open spec fn says(error: Error, words: Seq<char>) -> bool {
    error matches Error::Io(message) && message@ == words
}

// A float in `%.17g`.

/// A double, as its seventeen significant digits say it.
#[derive(Clone, Copy, Debug)]
pub enum Number {
    Nan { negative: bool },
    Infinite { negative: bool },
    /// `digits` shifted so that the first of its seventeen is the ones place, times ten to `exponent`
    Finite { negative: bool, digits: u64, exponent: i32 },
}

pub open spec fn ten_to(n: int) -> int
    decreases n,
{
    if n <= 0 {
        1
    } else {
        10 * ten_to(n - 1)
    }
}

impl Number {
    /// Seventeen digits of which the first is not zero, or zero itself.
    pub open spec fn sound(self) -> bool {
        match self {
            Number::Finite { digits, exponent, .. } => {
                &&& digits == 0 ==> exponent == 0
                &&& digits != 0 ==> ten_to(16) <= digits < ten_to(17)
                &&& -1000 < exponent < 1000
            },
            _ => true,
        }
    }
}

/// The seventeen digits of a number, the first first.
pub open spec fn digits_of(d: int) -> Seq<int> {
    Seq::new(17, |i: int| d / ten_to(16 - i) % 10)
}

/// Digits as text.
pub open spec fn spelled(ds: Seq<int>) -> Seq<char> {
    Seq::new(ds.len(), |i: int| text::digit(ds[i]))
}

/// How many of the first `n` digits are left once trailing zeros are dropped, though never fewer than
/// `from`.
pub open spec fn kept(ds: Seq<int>, n: int, from: int) -> int
    decreases n,
{
    if n > from && n > 0 && ds[n - 1] == 0 {
        kept(ds, n - 1, from)
    } else {
        n
    }
}

/// Digits with a point behind the first `whole` of them; trailing zeros behind the point are dropped, and
/// the point with them if nothing is left.
pub open spec fn pointed(ds: Seq<int>, whole: int) -> Seq<char> {
    let n = kept(ds, 17, whole);
    spelled(ds.subrange(0, whole)) + if n > whole {
        "."@ + spelled(ds.subrange(whole, n))
    } else {
        Seq::empty()
    }
}

/// An exponent as C writes one: a sign and at least two digits.
pub open spec fn exponent_text(e: int) -> Seq<char> {
    let size = if e < 0 {
        -e
    } else {
        e
    };
    "e"@ + (if e < 0 {
        "-"@
    } else {
        "+"@
    }) + (if size < 10 {
        "0"@
    } else {
        ""@
    }) + text::decimal(size as nat)
}

/// A double as C's `%.17g` writes it.
pub open spec fn g17(v: Number) -> Seq<char> {
    match v {
        Number::Nan { negative } => if negative {
            "-nan"@
        } else {
            "nan"@
        },
        Number::Infinite { negative } => if negative {
            "-inf"@
        } else {
            "inf"@
        },
        Number::Finite { negative, digits, exponent } => {
            let ds = digits_of(digits as int);
            (if negative {
                "-"@
            } else {
                ""@
            }) + if exponent < -4 || exponent >= 17 {
                pointed(ds, 1) + exponent_text(exponent as int)
            } else if exponent >= 0 {
                pointed(ds, exponent + 1)
            } else {
                "0."@ + Seq::new((-exponent - 1) as nat, |i: int| '0') + spelled(
                    ds.subrange(0, kept(ds, 17, 0)),
                )
            }
        },
    }
}

fn split_digits(d: u64) -> (ds: Vec<u64>)
    ensures
        ds@.len() == 17,
        forall|i: int| 0 <= i < 17 ==> #[trigger] ds@[i] == digits_of(d as int)[i],
{
    let mut ds: Vec<u64> = Vec::new();
    let mut p: u64 = 10000000000000000;
    let mut i: usize = 0;
    proof {
        reveal_with_fuel(ten_to, 17);
    }
    while i < 17
        invariant
            i <= 17,
            ds@.len() == i,
            i < 17 ==> p == ten_to(16 - i),
            forall|k: int| 0 <= k < i ==> #[trigger] ds@[k] == digits_of(d as int)[k],
        decreases 17 - i,
    {
        proof {
            reveal_with_fuel(ten_to, 2);
            lemma_ten_to_counts(16 - i);
        }
        ds.push(d / p % 10);
        p = p / 10;
        i += 1;
    }
    ds
}

proof fn lemma_ten_to_counts(n: int)
    ensures
        ten_to(n) >= 1,
    decreases n,
{
    if n > 0 {
        lemma_ten_to_counts(n - 1);
    }
}

/// The digits a vector holds.
spec fn held(ds: Seq<u64>) -> Seq<int> {
    Seq::new(ds.len(), |i: int| ds[i] as int)
}

fn push_digits(out: &mut String, ds: &Vec<u64>, from: usize, to: usize)
    requires
        from <= to <= ds@.len(),
        forall|i: int| 0 <= i < ds@.len() ==> #[trigger] ds@[i] < 10,
    ensures
        final(out)@ == old(out)@ + spelled(held(ds@).subrange(from as int, to as int)),
{
    let ghost start = out@;
    let ghost all = held(ds@);
    let mut i: usize = from;
    assert(out@ =~= start + spelled(all.subrange(from as int, i as int)));
    while i < to
        invariant
            from <= i <= to <= ds@.len(),
            all == held(ds@),
            forall|k: int| 0 <= k < ds@.len() ==> #[trigger] ds@[k] < 10,
            out@ == start + spelled(all.subrange(from as int, i as int)),
        decreases to - i,
    {
        text::push_digit(out, ds[i]);
        i += 1;
        assert(out@ =~= start + spelled(all.subrange(from as int, i as int)));
    }
}

fn significant(ds: &Vec<u64>, from: usize) -> (n: usize)
    requires
        ds@.len() == 17,
        from <= 17,
    ensures
        n == kept(held(ds@), 17, from as int),
        from <= n <= 17,
{
    let mut n: usize = 17;
    while n > from && ds[n - 1] == 0
        invariant
            ds@.len() == 17,
            from <= n <= 17,
            kept(held(ds@), n as int, from as int) == kept(held(ds@), 17, from as int),
        decreases n,
    {
        n -= 1;
    }
    n
}

fn push_pointed(out: &mut String, ds: &Vec<u64>, whole: usize)
    requires
        ds@.len() == 17,
        whole <= 17,
        forall|i: int| 0 <= i < 17 ==> #[trigger] ds@[i] < 10,
    ensures
        final(out)@ == old(out)@ + pointed(held(ds@), whole as int),
{
    let ghost start = out@;
    let n: usize = significant(ds, whole);
    push_digits(out, ds, 0, whole);
    if n > whole {
        out.append(".");
        push_digits(out, ds, whole, n);
    }
    assert(out@ =~= start + pointed(held(ds@), whole as int));
}

/// A float as C's `%.17g`, which is how every float of a kernel's configuration is spelled.
///
/// The spelling matters twice over: it is part of what a kernel is told apart by, and it is handed to
/// the compiler as the constant itself. A shortest-round-trip formatter writes `0.00001` where this
/// writes `1.0000000000000001e-05`.
#[verifier::rlimit(40)]
#[verifier::spinoff_prover]
pub fn num(v: Number) -> (text: String)
    requires
        v.sound(),
    ensures
        text@ == g17(v),
{
    match v {
        Number::Nan { negative } => String::from_str(
            if negative {
                "-nan"
            } else {
                "nan"
            },
        ),
        Number::Infinite { negative } => String::from_str(
            if negative {
                "-inf"
            } else {
                "inf"
            },
        ),
        Number::Finite { negative, digits, exponent } => {
            let mut out = String::from_str(
                if negative {
                    "-"
                } else {
                    ""
                },
            );
            let ghost sign = out@;
            let ds = split_digits(digits);
            proof {
                assert(held(ds@) =~= digits_of(digits as int));
            }
            if exponent < -4 || exponent >= 17 {
                push_pointed(&mut out, &ds, 1);
                let ghost mantissa = out@;
                out.append("e");
                let size: i32 = if exponent < 0 {
                    out.append("-");
                    -exponent
                } else {
                    out.append("+");
                    exponent
                };
                out.append(
                    if size < 10 {
                        "0"
                    } else {
                        ""
                    },
                );
                text::push_decimal(&mut out, size as u64);
                assert(out@ =~= mantissa + exponent_text(exponent as int));
                assert(out@ =~= g17(v));
                out
            } else if exponent >= 0 {
                push_pointed(&mut out, &ds, exponent as usize + 1);
                out
            } else {
                out.append("0.");
                let mut i: i32 = -1;
                let ghost zeros = (|n: int| Seq::new(n as nat, |i: int| '0'));
                assert(out@ =~= sign + "0."@ + zeros(0));
                while i > exponent
                    invariant
                        -4 <= exponent <= i <= -1,
                        zeros == (|n: int| Seq::new(n as nat, |i: int| '0')),
                        out@ == sign + "0."@ + zeros(-i - 1),
                    decreases i - exponent,
                {
                    text::push_digit(&mut out, 0);
                    i -= 1;
                    assert(out@ =~= sign + "0."@ + zeros(-i - 1));
                }
                let n: usize = significant(&ds, 0);
                push_digits(&mut out, &ds, 0, n);
                assert(out@ =~= g17(v));
                out
            }
        },
    }
}

// Configurations.

/// A kernel's configuration. A key stands in it once: see [`config`].
pub type Cfg = Vec<(String, String)>;

/// A configuration's pairs, in the order they were given.
pub open spec fn pairs(cfg: Seq<(String, String)>) -> Seq<(Seq<char>, Seq<char>)> {
    Seq::new(cfg.len(), |i: int| (cfg[i].0@, cfg[i].1@))
}

/// Whether no key is given twice.
pub open spec fn keys_differ(given: Seq<(Seq<char>, Seq<char>)>) -> bool {
    forall|i: int, j: int|
        0 <= i < j < given.len() ==> (#[trigger] given[i]).0 != (#[trigger] given[j]).0
}

/// What each key is set to, the last of its pairs deciding.
pub open spec fn settings(given: Seq<(Seq<char>, Seq<char>)>) -> Map<Seq<char>, Seq<char>>
    decreases given.len(),
{
    if given.len() == 0 {
        Map::empty()
    } else {
        settings(given.drop_last()).insert(given.last().0, given.last().1)
    }
}

/// A table of texts as what each name is set to.
pub open spec fn table(map: Map<Seq<char>, String>) -> Map<Seq<char>, Seq<char>> {
    map.map_values(|value: String| value@)
}

proof fn lemma_settings(given: Seq<(Seq<char>, Seq<char>)>)
    ensures
        forall|k: Seq<char>| #[trigger]
            settings(given).contains_key(k) <==> exists|i: int|
                0 <= i < given.len() && (#[trigger] given[i]).0 == k,
        keys_differ(given) ==> forall|i: int|
            0 <= i < given.len() ==> settings(given)[(#[trigger] given[i]).0] == given[i].1,
    decreases given.len(),
{
    if given.len() > 0 {
        let short = given.drop_last();
        lemma_settings(short);
        let n = given.len() - 1;
        assert forall|k: Seq<char>| #[trigger] settings(given).contains_key(k) <==> exists|i: int|
            0 <= i < given.len() && (#[trigger] given[i]).0 == k by {
            if settings(given).contains_key(k) {
                if k == given.last().0 {
                    assert(given[n].0 == k);
                } else {
                    assert(settings(short).contains_key(k));
                    let i = choose|i: int| 0 <= i < short.len() && (#[trigger] short[i]).0 == k;
                    assert(given[i].0 == k);
                }
            }
            if exists|i: int| 0 <= i < given.len() && (#[trigger] given[i]).0 == k {
                let i = choose|i: int| 0 <= i < given.len() && (#[trigger] given[i]).0 == k;
                if i < n {
                    assert(short[i].0 == k);
                    assert(settings(short).contains_key(k));
                }
            }
        }
        if keys_differ(given) {
            assert forall|i: int, j: int| 0 <= i < j < short.len() implies (#[trigger] short[i]).0
                != (#[trigger] short[j]).0 by {
                assert(short[i] == given[i] && short[j] == given[j]);
            }
            assert(keys_differ(short));
            assert forall|i: int| 0 <= i < given.len() implies settings(
                given,
            )[(#[trigger] given[i]).0] == given[i].1 by {
                if i < n {
                    assert(short[i] == given[i]);
                    assert(given[i].0 != given[n].0);
                }
            }
        }
    }
}

/// The order a configuration's pairs are given in is not observable: the same pairs in another order set
/// the same keys to the same values.
pub proof fn law_the_order_of_a_configuration_does_not_matter(
    a: Seq<(Seq<char>, Seq<char>)>,
    b: Seq<(Seq<char>, Seq<char>)>,
)
    requires
        keys_differ(a),
        keys_differ(b),
        a.to_multiset() == b.to_multiset(),
    ensures
        settings(a) == settings(b),
{
    broadcast use vstd::seq_lib::group_to_multiset_ensures;

    lemma_settings(a);
    lemma_settings(b);
    assert forall|k: Seq<char>| settings(a).contains_key(k) implies #[trigger] settings(
        b,
    ).contains_key(k) && settings(a)[k] == settings(b)[k] by {
        let i = choose|i: int| 0 <= i < a.len() && (#[trigger] a[i]).0 == k;
        assert(a.to_multiset().count(a[i]) > 0);
        assert(b.contains(a[i]));
        let j = choose|j: int| 0 <= j < b.len() && b[j] == a[i];
        assert(b[j].0 == k);
    }
    assert forall|k: Seq<char>| settings(b).contains_key(k) implies #[trigger] settings(
        a,
    ).contains_key(k) by {
        let i = choose|i: int| 0 <= i < b.len() && (#[trigger] b[i]).0 == k;
        assert(b.to_multiset().count(b[i]) > 0);
        assert(a.contains(b[i]));
        let j = choose|j: int| 0 <= j < a.len() && a[j] == b[i];
        assert(a[j].0 == k);
    }
    assert(settings(a) =~= settings(b));
}

/// What is wrong with a configuration that repeats a key.
pub open spec fn repeats(error: Error, stem: Seq<char>) -> bool {
    error matches Error::Configuration { stem: s, message } && s@ == stem && message@
        == "a configuration key was given twice"@
}

/// A configuration as the table the compiler spells out, refusing a repeated key.
///
/// The table keeps one value per key, so a builder that gave the same key twice would have all but the
/// last of them disappear, and the kernel that ran and the name it was filed under would agree with each
/// other and with nothing else.
pub fn config(stem: &str, cfg: &Cfg) -> (result: Result<Named<String>>)
    ensures
        match result {
            Ok(map) => {
                &&& keys_differ(pairs(cfg@))
                &&& map.wf()
                &&& table(map@) == settings(pairs(cfg@))
                &&& map.sorted().len() == cfg@.len()
            },
            Err(e) => !keys_differ(pairs(cfg@)) && repeats(e, stem@),
        },
{
    let ghost given = pairs(cfg@);
    let mut map: Named<String> = Named::new();
    let mut i: usize = 0;
    assert(given.take(0) =~= Seq::empty());
    assert(table(map@) =~= settings(given.take(0)));
    while i < cfg.len()
        invariant
            i <= cfg@.len(),
            given == pairs(cfg@),
            map.wf(),
            table(map@) == settings(given.take(i as int)),
            keys_differ(given.take(i as int)),
            map.sorted().len() == i,
        decreases cfg@.len() - i,
    {
        let ghost seen = given.take(i as int);
        let ghost next = given.take(i + 1);
        proof {
            lemma_settings(seen);
            assert(next.drop_last() =~= seen);
            assert(next.last() == given[i as int]);
        }
        if map.get(cfg[i].0.as_str()).is_some() {
            proof {
                let k = cfg@[i as int].0@;
                assert(table(map@).contains_key(k));
                let j = choose|j: int| 0 <= j < seen.len() && (#[trigger] seen[j]).0 == k;
                assert(given[j].0 == given[i as int].0);
            }
            return Err(
                Error::Configuration {
                    stem: String::from_str(stem),
                    message: String::from_str("a configuration key was given twice"),
                },
            );
        }
        let ghost k = cfg@[i as int].0@;
        proof {
            assert forall|a: int, b: int| 0 <= a < b < next.len() implies (#[trigger] next[a]).0
                != (#[trigger] next[b]).0 by {
                assert(next[a] == given[a] && next[b] == given[b]);
                assert(seen[a] == given[a]);
                if b < i {
                    assert(seen[b] == given[b]);
                } else if given[a].0 == k {
                    assert(settings(seen).contains_key(k));
                    assert(map@.contains_key(k));
                }
            }
        }
        map.insert(cfg[i].0.clone(), cfg[i].1.clone());
        assert(table(map@) =~= settings(next));
        i += 1;
    }
    assert(given.take(i as int) =~= given);
    Ok(map)
}

/// What a kernel is compiled from: the module its source is in, the symbol to take from it, and the
/// configuration to take it with.
#[derive(Debug)]
pub struct Specialization {
    pub module: String,
    pub symbol: String,
    pub config: Cfg,
}

pub struct SpecializationView {
    pub module: Seq<char>,
    pub symbol: Seq<char>,
    pub config: Seq<(Seq<char>, Seq<char>)>,
}

impl View for Specialization {
    type V = SpecializationView;

    open spec fn view(&self) -> SpecializationView {
        SpecializationView {
            module: self.module@,
            symbol: self.symbol@,
            config: pairs(self.config@),
        }
    }
}

/// Appends a key under a namespace, set to a text.
pub fn set(cfg: &mut Cfg, ns: &str, key: &str, value: String)
    ensures
        pairs(final(cfg)@) == pairs(old(cfg)@).push((ns@ + key@, value@)),
{
    let ghost before = cfg@;
    cfg.push((text::cat2(ns, key), value));
    assert(pairs(cfg@) =~= pairs(before).push((ns@ + key@, value@)));
}

/// Appends a key under a namespace, set to a number.
pub fn set_count(cfg: &mut Cfg, ns: &str, key: &str, value: usize)
    ensures
        pairs(final(cfg)@) == pairs(old(cfg)@).push((ns@ + key@, text::decimal(value as nat))),
{
    set(cfg, ns, key, text::decimal_text(value as u64));
}

// The queue.

/// What a kernel is told apart by.
#[derive(Debug)]
pub struct Tag {
    stem: String,
    symbol: String,
    config: Named<String>,
}

#[verifier::ext_equal]
pub struct TagView {
    pub stem: Seq<char>,
    pub symbol: Seq<char>,
    pub config: Map<Seq<char>, Seq<char>>,
}

impl View for Tag {
    type V = TagView;

    closed spec fn view(&self) -> TagView {
        TagView { stem: self.stem@, symbol: self.symbol@, config: table(self.config@) }
    }
}

/// What a request is told apart by.
pub open spec fn tag_of(
    stem: Seq<char>,
    symbol: Seq<char>,
    given: Seq<(Seq<char>, Seq<char>)>,
) -> TagView {
    TagView { stem, symbol, config: settings(given) }
}

impl Tag {
    pub closed spec fn wf(&self) -> bool {
        self.config.wf()
    }

    /// The module its source is in.
    pub fn stem(&self) -> (stem: &str)
        ensures
            stem@ == self@.stem,
    {
        self.stem.as_str()
    }

    pub fn symbol(&self) -> (symbol: &str)
        ensures
            symbol@ == self@.symbol,
    {
        self.symbol.as_str()
    }

    /// The settings it is compiled with, in the order their keys sort in.
    pub fn config(&self) -> (config: &Named<String>)
        requires
            self.wf(),
        ensures
            config.wf(),
            table(config@) == self@.config,
    {
        &self.config
    }

    /// Whether each setting of one is a setting of the other.
    fn within(a: &Named<String>, b: &Named<String>) -> (within: bool)
        requires
            a.wf(),
            b.wf(),
        ensures
            within == forall|k: Seq<char>| #[trigger]
                table(a@).contains_key(k) ==> table(b@).contains_key(k) && table(a@)[k] == table(
                    b@,
                )[k],
    {
        let items = a.items();
        let mut i: usize = 0;
        while i < items.len()
            invariant
                i <= items@.len(),
                a.wf(),
                b.wf(),
                crate::names::in_order(items@),
                crate::names::by_name(items@) == a@,
                forall|j: int|
                    0 <= j < i ==> table(b@).contains_key((#[trigger] items@[j]).0@) && table(
                        b@,
                    )[items@[j].0@] == items@[j].1@,
            decreases items@.len() - i,
        {
            proof {
                crate::names::lemma_place(items@, i as int);
                assert(table(a@).contains_key(items@[i as int].0@));
            }
            match b.get(items[i].0.as_str()) {
                Some(value) => {
                    if !text::same(value.as_str(), items[i].1.as_str()) {
                        return false;
                    }
                },
                None => {
                    return false;
                },
            }
            i += 1;
        }
        proof {
            assert forall|k: Seq<char>| #[trigger] table(a@).contains_key(k) implies table(
                b@,
            ).contains_key(k) && table(a@)[k] == table(b@)[k] by {
                let j = choose|j: int| 0 <= j < items@.len() && (#[trigger] items@[j]).0@ == k;
                crate::names::lemma_place(items@, j);
            }
        }
        true
    }

    fn same(&self, other: &Self) -> (same: bool)
        requires
            self.wf(),
            other.wf(),
        ensures
            same == (self@ == other@),
    {
        if !text::same(self.stem.as_str(), other.stem.as_str()) || !text::same(
            self.symbol.as_str(),
            other.symbol.as_str(),
        ) {
            return false;
        }
        let there: bool = Tag::within(&self.config, &other.config);
        let back: bool = Tag::within(&other.config, &self.config);
        proof {
            if there && back {
                assert(self@.config =~= other@.config);
                assert(self@ =~= other@);
            }
            if self@ == other@ {
                assert(self@.config == other@.config);
                assert(table(self.config@) == table(other.config@));
            }
        }
        there && back
    }
}

/// One kernel asked for: what it is told apart by, and the kernel once it is loaded.
#[derive(Debug)]
struct Wanted {
    tag: Tag,
    kernel: Option<u64>,
}

/// A kernel that was asked for. A handle, not yet a kernel: copy it into as many structures as the
/// kernel is used from.
#[derive(Clone, Copy, Debug, PartialEq, Eq, Structural)]
pub struct Kernel {
    slot: usize,
}

impl Kernel {
    /// Which request the handle stands for.
    pub closed spec fn place(&self) -> int {
        self.slot as int
    }
}

/// What the outside has to say to a request: whether the module's source was found, and what opening
/// the compiler reported.
#[derive(Debug)]
pub struct Outside {
    pub source: bool,
    pub library: std::result::Result<(), String>,
}

/// Source selection and the requests for kernels.
#[derive(Debug)]
pub struct Compiler {
    library: Option<String>,
    sources: String,
    /// what the kernels are compiled for, fixed by the first request
    target: Option<String>,
    /// the modules whose source has been read
    modules: Named<()>,
    wanted: Vec<Wanted>,
}

#[verifier::ext_equal]
pub struct CompilerView {
    pub library: Option<Seq<char>>,
    pub sources: Seq<char>,
    pub target: Option<Seq<char>>,
    pub modules: Set<Seq<char>>,
    /// what was asked for, each kernel once, in the order they were first asked for
    pub tags: Seq<TagView>,
    /// the kernels loaded, in the same order
    pub kernels: Seq<Option<u64>>,
}

impl View for Compiler {
    type V = CompilerView;

    closed spec fn view(&self) -> CompilerView {
        CompilerView {
            library: match self.library {
                Some(path) => Some(path@),
                None => None,
            },
            sources: self.sources@,
            target: match self.target {
                Some(t) => Some(t@),
                None => None,
            },
            modules: self.modules@.dom(),
            tags: Seq::new(self.wanted@.len(), |i: int| self.wanted@[i].tag@),
            kernels: Seq::new(self.wanted@.len(), |i: int| self.wanted@[i].kernel),
        }
    }
}

/// Where a module's source is looked for.
pub open spec fn source_path(sources: Seq<char>, stem: Seq<char>) -> Seq<char> {
    text::path_under(sources, stem + ".loom"@)
}

/// What is said where a stream's device is not the one the kernels are compiled for.
pub open spec fn targets_differ(fixed: Seq<char>, target: Seq<char>) -> Seq<char> {
    "compiler target "@ + fixed + " differs from stream target "@ + target
}

/// Why a module cannot be had.
pub enum ModuleTrouble {
    Source,
    Target,
    Library,
}

/// Why a module cannot be had for a target, where it cannot.
pub open spec fn module_trouble(
    c: CompilerView,
    target: Option<Seq<char>>,
    stem: Seq<char>,
    outside: Outside,
) -> Option<ModuleTrouble> {
    if !c.modules.contains(stem) && !outside.source {
        Some(ModuleTrouble::Source)
    } else if c.target is Some {
        if target is Some && target != c.target {
            Some(ModuleTrouble::Target)
        } else {
            None
        }
    } else if outside.library is Err {
        Some(ModuleTrouble::Library)
    } else {
        None
    }
}

/// Whether an error says that a module cannot be had, and why.
pub open spec fn module_reports(
    error: Error,
    why: ModuleTrouble,
    c: CompilerView,
    target: Option<Seq<char>>,
    stem: Seq<char>,
    outside: Outside,
) -> bool {
    match why {
        ModuleTrouble::Source => error matches Error::MissingSource(path) && path@ == source_path(
            c.sources,
            stem,
        ),
        ModuleTrouble::Target => says(error, targets_differ(c.target->0, target->0)),
        ModuleTrouble::Library => error matches Error::Runtime(message) && message@
            == outside.library->Err_0@,
    }
}

/// A compiler once a module has been had for a target.
pub open spec fn with_module(
    c: CompilerView,
    target: Option<Seq<char>>,
    stem: Seq<char>,
) -> CompilerView {
    CompilerView {
        target: if c.target is Some {
            c.target
        } else if target is Some {
            target
        } else {
            Some(TARGET_KEY@)
        },
        modules: c.modules.insert(stem),
        ..c
    }
}

/// A compiler once a module could not be had: its source is remembered where it was found.
pub open spec fn without_module(c: CompilerView, stem: Seq<char>, why: ModuleTrouble) -> CompilerView {
    match why {
        ModuleTrouble::Source => c,
        ModuleTrouble::Target | ModuleTrouble::Library => CompilerView {
            modules: c.modules.insert(stem),
            ..c
        },
    }
}

/// A compiler once a kernel has been asked for: one that was not asked for before is queued, not yet loaded.
pub open spec fn with_kernel(c: CompilerView, target: Seq<char>, tag: TagView) -> CompilerView {
    let read = with_module(c, Some(target), tag.stem);
    if c.tags.contains(tag) {
        read
    } else {
        CompilerView { tags: read.tags.push(tag), kernels: read.kernels.push(None), ..read }
    }
}

/// A compiler once every outstanding request has come out one way or the other.
pub open spec fn with_outcomes(
    c: CompilerView,
    outcomes: Seq<std::result::Result<u64, String>>,
) -> CompilerView {
    CompilerView { kernels: flushed(c.kernels, outcomes), ..c }
}

/// How many of the first `n` kernels asked for are not yet loaded.
pub open spec fn outstanding_before(kernels: Seq<Option<u64>>, n: int) -> int
    decreases n,
{
    if n <= 0 {
        0
    } else {
        outstanding_before(kernels, n - 1) + if kernels[n - 1] is None {
            1int
        } else {
            0
        }
    }
}

/// The kernels loaded once every outstanding request has come out one way or the other: each request
/// that was built is, and each that was not is still outstanding.
pub open spec fn flushed(
    kernels: Seq<Option<u64>>,
    outcomes: Seq<std::result::Result<u64, String>>,
) -> Seq<Option<u64>> {
    Seq::new(
        kernels.len(),
        |i: int|
            if kernels[i] is Some {
                kernels[i]
            } else {
                match outcomes[outstanding_before(kernels, i)] {
                    Ok(k) => Some(k),
                    Err(_) => None,
                }
            },
    )
}

/// The first failure among outcomes.
pub open spec fn first_failure(outcomes: Seq<std::result::Result<u64, String>>) -> Option<
    Seq<char>,
>
    decreases outcomes.len(),
{
    if outcomes.len() == 0 {
        None
    } else if first_failure(outcomes.drop_last()) is Some {
        first_failure(outcomes.drop_last())
    } else {
        match outcomes.last() {
            Ok(_) => None,
            Err(e) => Some(e@),
        }
    }
}

proof fn lemma_outstanding_counts(kernels: Seq<Option<u64>>, i: int, n: int)
    requires
        0 <= i <= n <= kernels.len(),
    ensures
        0 <= outstanding_before(kernels, i) <= outstanding_before(kernels, n) <= n,
        i < n && kernels[i] is None ==> outstanding_before(kernels, i) < outstanding_before(
            kernels,
            n,
        ),
    decreases n,
{
    if i < n {
        lemma_outstanding_counts(kernels, i, n - 1);
    } else if n > 0 {
        lemma_outstanding_counts(kernels, n - 1, n - 1);
    }
}

impl Compiler {
    /// Each kernel is asked for once.
    pub closed spec fn wf(&self) -> bool {
        &&& self.modules.wf()
        &&& forall|i: int| 0 <= i < self.wanted@.len() ==> (#[trigger] self.wanted@[i]).tag.wf()
        &&& forall|i: int, j: int|
            0 <= i < j < self.wanted@.len() ==> (#[trigger] self.wanted@[i]).tag@ != (
            #[trigger] self.wanted@[j]).tag@
    }

    pub fn new(library: Option<String>, sources: String) -> (c: Self)
        ensures
            c.wf(),
            c@ == (CompilerView {
                library: match library {
                    Some(path) => Some(path@),
                    None => None,
                },
                sources: sources@,
                target: None,
                modules: Set::empty(),
                tags: Seq::empty(),
                kernels: Seq::empty(),
            }),
    {
        let c = Compiler { library, sources, target: None, modules: Named::new(), wanted: Vec::new() };
        assert(c@.modules =~= Set::empty());
        assert(c@.tags =~= Seq::empty());
        assert(c@.kernels =~= Seq::empty());
        c
    }

    /// Has a module read, for a target. The first target fixes what this compiler compiles for.
    fn module(&mut self, target: Option<&str>, stem: &str, outside: &Outside) -> (result: Result<()>)
        requires
            old(self).wf(),
        ensures
            final(self).wf(),
            ({
                let want = match target {
                    Some(t) => Some(t@),
                    None => None,
                };
                match module_trouble(old(self)@, want, stem@, *outside) {
                    Some(why) => {
                        &&& result matches Err(e)
                        &&& module_reports(e, why, old(self)@, want, stem@, *outside)
                        &&& final(self)@ == without_module(old(self)@, stem@, why)
                    },
                    None => result is Ok && final(self)@ == with_module(old(self)@, want, stem@),
                }
            }),
    {
        let ghost before = self@;
        if self.modules.get(stem).is_none() && !outside.source {
            let file = text::cat2(stem, ".loom");
            let path = text::join_path(self.sources.as_str(), file.as_str());
            return Err(Error::MissingSource(path));
        }
        self.modules.insert(String::from_str(stem), ());
        assert(self@.modules =~= before.modules.insert(stem@));
        assert(self@.tags =~= before.tags);
        assert(self@.kernels =~= before.kernels);
        match (&self.target, target) {
            (Some(fixed), Some(target)) => {
                if !text::same(fixed.as_str(), target) {
                    let mut message = text::cat3(
                        "compiler target ",
                        fixed.as_str(),
                        " differs from stream target ",
                    );
                    message.append(target);
                    return Err(Error::Io(message));
                }
            },
            (Some(_), None) => {},
            (None, _) => {
                match &outside.library {
                    Ok(_) => {},
                    Err(e) => {
                        return Err(Error::Runtime(e.clone()));
                    },
                }
                self.target = Some(
                    String::from_str(
                        match target {
                            Some(t) => t,
                            None => TARGET_KEY,
                        },
                    ),
                );
            },
        }
        assert(self@.tags =~= before.tags);
        assert(self@.kernels =~= before.kernels);
        Ok(())
    }

    /// What a request is told apart by.
    pub fn tag(&mut self, stem: &str, symbol: &str, cfg: &Cfg, outside: &Outside) -> (result: Result<
        Tag,
    >)
        requires
            old(self).wf(),
        ensures
            final(self).wf(),
            if !keys_differ(pairs(cfg@)) {
                &&& result matches Err(e)
                &&& repeats(e, stem@)
                &&& *final(self) == *old(self)
            } else {
                match module_trouble(old(self)@, None, stem@, *outside) {
                    Some(why) => {
                        &&& result matches Err(e)
                        &&& module_reports(e, why, old(self)@, None, stem@, *outside)
                        &&& final(self)@ == without_module(old(self)@, stem@, why)
                    },
                    None => {
                        &&& result matches Ok(tag)
                        &&& tag.wf()
                        &&& tag@ == tag_of(stem@, symbol@, pairs(cfg@))
                        &&& final(self)@ == with_module(old(self)@, None, stem@)
                    },
                }
            },
    {
        let config = config(stem, cfg)?;
        self.module(None, stem, outside)?;
        Ok(Tag { stem: String::from_str(stem), symbol: String::from_str(symbol), config })
    }

    /// Asks for a kernel. What comes back is a handle, not yet a kernel.
    ///
    /// A kernel that was asked for before, built or not, is shared: the fifty blocks of a stack cost
    /// what one does.
    pub fn get(
        &mut self,
        target: &str,
        stem: &str,
        symbol: &str,
        cfg: &Cfg,
        outside: &Outside,
    ) -> (result: Result<Kernel>)
        requires
            old(self).wf(),
        ensures
            final(self).wf(),
            match module_trouble(old(self)@, Some(target@), stem@, *outside) {
                Some(why) => {
                    &&& result matches Err(e)
                    &&& module_reports(e, why, old(self)@, Some(target@), stem@, *outside)
                    &&& final(self)@ == without_module(old(self)@, stem@, why)
                },
                None => {
                    let read = with_module(old(self)@, Some(target@), stem@);
                    let tag = tag_of(stem@, symbol@, pairs(cfg@));
                    if !keys_differ(pairs(cfg@)) {
                        &&& result matches Err(e)
                        &&& repeats(e, stem@)
                        &&& final(self)@ == read
                    } else {
                        &&& result matches Ok(kernel)
                        &&& final(self)@.kernels.len() == final(self)@.tags.len()
                        &&& 0 <= kernel.place() < final(self)@.kernels.len()
                        &&& final(self)@.tags[kernel.place()] == tag
                        &&& forall|i: int|
                            0 <= i < old(self)@.tags.len() && #[trigger] old(self)@.tags[i] == tag
                                ==> kernel.place() == i
                        &&& final(self)@ == with_kernel(old(self)@, target@, tag)
                    }
                },
            },
    {
        self.module(Some(target), stem, outside)?;
        let ghost read = self@;
        let config = config(stem, cfg)?;
        let tag = Tag { stem: String::from_str(stem), symbol: String::from_str(symbol), config };
        let ghost want = tag@;
        let mut i: usize = 0;
        while i < self.wanted.len()
            invariant
                i <= self.wanted@.len(),
                self.wf(),
                self@ == read,
                module_trouble(old(self)@, Some(target@), stem@, *outside) is None,
                read == with_module(old(self)@, Some(target@), stem@),
                keys_differ(pairs(cfg@)),
                want == tag_of(stem@, symbol@, pairs(cfg@)),
                tag.wf(),
                tag@ == want,
                forall|j: int| 0 <= j < i ==> (#[trigger] self.wanted@[j]).tag@ != want,
            decreases self.wanted@.len() - i,
        {
            if self.wanted[i].tag.same(&tag) {
                assert(read.tags[i as int] == want);
                assert(read.tags.contains(want));
                proof {
                    assert forall|j: int| 0 <= j < read.tags.len() && #[trigger] read.tags[j] == want implies i == j by {
                        assert(self.wanted@[j].tag@ == want);
                        assert(self.wanted@[i as int].tag@ == want);
                    }
                }
                return Ok(Kernel { slot: i });
            }
            i += 1;
        }
        let ghost before = self.wanted@;
        proof {
            if read.tags.contains(want) {
                let j = choose|j: int| 0 <= j < read.tags.len() && read.tags[j] == want;
                assert(self.wanted@[j].tag@ == want);
            }
        }
        self.wanted.push(Wanted { tag, kernel: None });
        proof {
            assert(self@.tags =~= read.tags.push(want));
            assert(self@.kernels =~= read.kernels.push(None));
        }
        Ok(Kernel { slot: i })
    }

    /// The requests not yet built, in the order they are to be built in.
    pub fn outstanding(&self) -> (slots: Vec<usize>)
        requires
            self.wf(),
        ensures
            slots@.len() == outstanding_before(self@.kernels, self@.kernels.len() as int),
            forall|i: int|
                0 <= i < self@.kernels.len() && (#[trigger] self@.kernels[i]) is None
                    ==> slots@[outstanding_before(self@.kernels, i)] == i,
    {
        let mut slots: Vec<usize> = Vec::new();
        let mut i: usize = 0;
        let ghost kernels = self@.kernels;
        while i < self.wanted.len()
            invariant
                i <= self.wanted@.len(),
                kernels == self@.kernels,
                slots@.len() == outstanding_before(kernels, i as int),
                forall|j: int|
                    0 <= j < i && (#[trigger] kernels[j]) is None ==> outstanding_before(
                        kernels,
                        j,
                    ) < slots@.len() && slots@[outstanding_before(kernels, j)] == j,
            decreases self.wanted@.len() - i,
        {
            proof {
                assert(kernels[i as int] == self.wanted@[i as int].kernel);
                assert forall|j: int| 0 <= j < i implies 0 <= #[trigger] outstanding_before(
                    kernels,
                    j,
                ) by {
                    lemma_outstanding_counts(kernels, j, j);
                }
            }
            if self.wanted[i].kernel.is_none() {
                slots.push(i);
            }
            i += 1;
        }
        slots
    }

    /// What a request asks for.
    pub fn wanted(&self, slot: usize) -> (tag: &Tag)
        requires
            self.wf(),
            slot < self@.tags.len(),
        ensures
            tag.wf(),
            tag@ == self@.tags[slot as int],
    {
        &self.wanted[slot].tag
    }

    /// What the kernels are compiled for, once a request has fixed it.
    pub fn target(&self) -> (target: Option<&str>)
        ensures
            match target {
                Some(t) => self@.target == Some(t@),
                None => self@.target is None,
            },
    {
        match &self.target {
            Some(t) => Some(t.as_str()),
            None => None,
        }
    }

    /// Takes what every outstanding request came to, in the order of [`Compiler::outstanding`].
    ///
    /// A kernel that will not build is that kernel's failure and no one else's, so the rest of the batch
    /// is loaded. It stays wanted: dropping it would leave the handles that asked for it with nothing to
    /// say about why. What is reported is the first failure.
    pub fn flush(&mut self, outcomes: &[std::result::Result<u64, String>]) -> (result: Result<()>)
        requires
            old(self).wf(),
            outcomes@.len() == outstanding_before(
                old(self)@.kernels,
                old(self)@.kernels.len() as int,
            ),
        ensures
            final(self).wf(),
            final(self)@ == with_outcomes(old(self)@, outcomes@),
            match first_failure(outcomes@) {
                Some(text) => result matches Err(Error::Runtime(message)) && message@ == text,
                None => result is Ok,
            },
    {
        let ghost before = self@;
        let ghost was = self.wanted@;
        let ghost kernels = self@.kernels;
        let mut failed: Option<String> = None;
        let mut next: usize = 0;
        let mut i: usize = 0;
        assert(outcomes@.take(0) =~= Seq::empty());
        while i < self.wanted.len()
            invariant
                i <= self.wanted@.len(),
                self.wanted@.len() == was.len() == kernels.len(),
                before.kernels == kernels,
                self.modules == old(self).modules,
                self.target == old(self).target,
                self.sources == old(self).sources,
                self.library == old(self).library,
                was == old(self).wanted@,
                kernels == old(self)@.kernels,
                outcomes@.len() == outstanding_before(kernels, kernels.len() as int),
                next == outstanding_before(kernels, i as int),
                next <= outcomes@.len(),
                forall|j: int|
                    0 <= j < was.len() ==> (#[trigger] self.wanted@[j]).tag == was[j].tag,
                forall|j: int|
                    i <= j < was.len() ==> (#[trigger] self.wanted@[j]).kernel == kernels[j],
                forall|j: int|
                    0 <= j < i ==> (#[trigger] self.wanted@[j]).kernel == flushed(
                        kernels,
                        outcomes@,
                    )[j],
                match first_failure(outcomes@.take(next as int)) {
                    Some(text) => failed matches Some(message) && message@ == text,
                    None => failed is None,
                },
            decreases self.wanted@.len() - i,
        {
            proof {
                lemma_outstanding_counts(kernels, i as int, kernels.len() as int);
                assert(self.wanted@[i as int].kernel == kernels[i as int]);
            }
            if self.wanted[i].kernel.is_none() {
                proof {
                    let longer = outcomes@.take(next + 1);
                    assert(longer.drop_last() =~= outcomes@.take(next as int));
                    assert(longer.last() == outcomes@[next as int]);
                }
                match &outcomes[next] {
                    Ok(kernel) => {
                        let ghost held = self.wanted@;
                        self.wanted[i].kernel = Some(*kernel);
                        assert(self.wanted@ =~= held.update(i as int, self.wanted@[i as int]));
                    },
                    Err(e) => {
                        if failed.is_none() {
                            failed = Some(e.clone());
                        }
                    },
                }
                next += 1;
            }
            i += 1;
        }
        proof {
            assert(outcomes@.take(next as int) =~= outcomes@);
            assert(self@.tags =~= before.tags);
            assert(self@.kernels =~= flushed(kernels, outcomes@));
            assert forall|a: int, b: int| 0 <= a < b < self.wanted@.len() implies (
            #[trigger] self.wanted@[a]).tag@ != (#[trigger] self.wanted@[b]).tag@ by {
                assert(was[a].tag@ != was[b].tag@);
            }
            assert forall|a: int| 0 <= a < self.wanted@.len() implies (
            #[trigger] self.wanted@[a]).tag.wf() by {
                assert(was[a].tag.wf());
            }
        }
        match failed {
            Some(message) => Err(Error::Runtime(message)),
            None => Ok(()),
        }
    }

    /// The loaded kernel, if its batch has already been built.
    pub fn built(&self, kernel: Kernel) -> (loaded: Option<u64>)
        requires
            self.wf(),
        ensures
            loaded == if kernel.place() < self@.kernels.len() {
                self@.kernels[kernel.place()]
            } else {
                None
            },
    {
        if kernel.slot < self.wanted.len() {
            self.wanted[kernel.slot].kernel
        } else {
            None
        }
    }

    /// The loaded kernel; where it is not loaded yet, once the outstanding batch has come out.
    ///
    /// A batch reports the first kernel in it that would not build, which is not necessarily this one,
    /// so the kernel is looked for again before that failure is passed on.
    pub fn resolve(
        &mut self,
        kernel: Kernel,
        outcomes: &[std::result::Result<u64, String>],
    ) -> (result: Result<u64>)
        requires
            old(self).wf(),
            outcomes@.len() == outstanding_before(
                old(self)@.kernels,
                old(self)@.kernels.len() as int,
            ),
        ensures
            final(self).wf(),
            ({
                let i = kernel.place();
                let was = old(self)@.kernels;
                let now = flushed(was, outcomes@);
                if i < was.len() && was[i] is Some {
                    &&& result matches Ok(k)
                    &&& Some(k) == was[i]
                    &&& *final(self) == *old(self)
                } else {
                    &&& final(self)@ == with_outcomes(old(self)@, outcomes@)
                    &&& if i < was.len() && now[i] is Some {
                        result matches Ok(k) && Some(k) == now[i]
                    } else {
                        match first_failure(outcomes@) {
                            Some(text) => result matches Err(Error::Runtime(message)) && message@
                                == text,
                            None => result matches Err(e) && says(
                                e,
                                "a kernel outlived the compiler that queued it"@,
                            ),
                        }
                    }
                }
            }),
    {
        if let Some(loaded) = self.built(kernel) {
            return Ok(loaded);
        }
        let outcome = self.flush(outcomes);
        if let Some(loaded) = self.built(kernel) {
            return Ok(loaded);
        }
        outcome?;
        Err(Error::Io(String::from_str("a kernel outlived the compiler that queued it")))
    }
}

/// A kernel that is asked for again is shared: two handles to one request are one handle, and what one of them has
/// loaded the other has.
pub proof fn law_asking_again_shares_the_kernel(c: Compiler, first: Kernel, again: Kernel)
    requires
        c.wf(),
        first.place() < c@.tags.len(),
        again.place() < c@.tags.len(),
        c@.tags[first.place()] == c@.tags[again.place()],
    ensures
        first == again,
        c@.kernels[first.place()] == c@.kernels[again.place()],
{
    assert(c.wanted@[first.place()].tag@ == c@.tags[first.place()]);
    assert(c.wanted@[again.place()].tag@ == c@.tags[again.place()]);
}

/// No kernel is asked for twice: the requests of a compiler differ.
pub proof fn law_no_request_is_made_twice(c: Compiler, i: int, j: int)
    requires
        c.wf(),
        0 <= i < j < c@.tags.len(),
    ensures
        c@.tags[i] != c@.tags[j],
{
    assert(c.wanted@[i].tag@ == c@.tags[i]);
    assert(c.wanted@[j].tag@ == c@.tags[j]);
}

/// A kernel asked for twice, with the same settings in any order, is one request. Asking again succeeds, whatever
/// the outside has to say by then, queues nothing, and gives the handle of the first time. Where it was new, it is
/// not loaded and one more request is outstanding. Where the batch in between succeeded, the handle's kernel is
/// loaded when it is asked for again, and nothing is outstanding.
pub proof fn law_a_kernel_asked_for_twice_is_built_once(
    c: Compiler,
    target: Seq<char>,
    stem: Seq<char>,
    symbol: Seq<char>,
    first: Seq<(Seq<char>, Seq<char>)>,
    again: Seq<(Seq<char>, Seq<char>)>,
    outside: Outside,
    later: Outside,
    outcomes: Seq<std::result::Result<u64, String>>,
)
    requires
        c.wf(),
        keys_differ(first),
        first.to_multiset() == again.to_multiset(),
        module_trouble(c@, Some(target), stem, outside) is None,
    ensures
        keys_differ(again),
        ({
            let tag = tag_of(stem, symbol, first);
            let asked = with_kernel(c@, target, tag);
            let all = asked.kernels.len() as int;
            let built = with_outcomes(asked, outcomes);
            &&& tag_of(stem, symbol, again) == tag
            &&& module_trouble(asked, Some(target), stem, later) is None
            &&& with_kernel(asked, target, tag) == asked
            &&& asked.tags.contains(tag)
            &&& asked.tags.len() == asked.kernels.len()
            &&& forall|i: int, j: int|
                0 <= i < all && 0 <= j < all && #[trigger] asked.tags[i] == tag
                    && #[trigger] asked.tags[j] == tag ==> i == j
            &&& !c@.tags.contains(tag) ==> {
                &&& asked.tags[all - 1] == tag
                &&& asked.kernels[all - 1] is None
                &&& outstanding_before(asked.kernels, all) == outstanding_before(
                    c@.kernels,
                    all - 1,
                ) + 1
            }
            &&& outcomes.len() == outstanding_before(asked.kernels, all) ==> {
                &&& module_trouble(built, Some(target), stem, later) is None
                &&& with_kernel(built, target, tag) == built
                &&& first_failure(outcomes) is None ==> {
                    &&& forall|i: int| 0 <= i < all ==> (#[trigger] built.kernels[i]) is Some
                    &&& outstanding_before(built.kernels, all) == 0
                }
            }
        }),
{
    let tag = tag_of(stem, symbol, first);
    let asked = with_kernel(c@, target, tag);
    let all = asked.kernels.len() as int;
    let built = with_outcomes(asked, outcomes);
    lemma_same_pairs_differ(first, again);
    law_the_order_of_a_configuration_does_not_matter(first, again);
    if !c@.tags.contains(tag) {
        assert(asked.tags[all - 1] == tag);
        lemma_outstanding_prefix(asked.kernels, c@.kernels, all - 1);
    }
    assert(asked.tags.contains(tag));
    assert(asked.modules.insert(stem) =~= asked.modules);
    assert(with_kernel(asked, target, tag) =~= asked);
    assert(with_kernel(built, target, tag) =~= built);
    assert forall|i: int, j: int|
        0 <= i < all && 0 <= j < all && #[trigger] asked.tags[i] == tag && #[trigger] asked.tags[j] == tag implies i
        == j by {
        if c@.tags.contains(tag) {
            if i < j {
                law_no_request_is_made_twice(c, i, j);
            } else if j < i {
                law_no_request_is_made_twice(c, j, i);
            }
        } else {
            assert(i < all - 1 ==> c@.tags[i] == tag);
            assert(j < all - 1 ==> c@.tags[j] == tag);
        }
    }
    if outcomes.len() == outstanding_before(asked.kernels, all) && first_failure(outcomes) is None {
        assert forall|i: int| 0 <= i < all implies (#[trigger] built.kernels[i]) is Some by {
            law_a_batch_that_succeeds_loads_every_kernel(asked.kernels, outcomes, i);
        }
        lemma_nothing_outstanding(built.kernels, all);
    }
}

/// Where the keys of a configuration differ, so do those of the same pairs in another order.
proof fn lemma_same_pairs_differ(a: Seq<(Seq<char>, Seq<char>)>, b: Seq<(Seq<char>, Seq<char>)>)
    requires
        keys_differ(a),
        a.to_multiset() == b.to_multiset(),
    ensures
        keys_differ(b),
{
    broadcast use vstd::seq_lib::group_to_multiset_ensures;

    assert(a.no_duplicates());
    a.lemma_multiset_has_no_duplicates();
    b.lemma_multiset_has_no_duplicates_conv();
    assert forall|i: int, j: int| 0 <= i < j < b.len() implies (#[trigger] b[i]).0 != (
    #[trigger] b[j]).0 by {
        assert(b.to_multiset().count(b[i]) > 0 && b.to_multiset().count(b[j]) > 0);
        assert(a.contains(b[i]) && a.contains(b[j]));
        let m = choose|m: int| 0 <= m < a.len() && a[m] == b[i];
        let n = choose|n: int| 0 <= n < a.len() && a[n] == b[j];
        assert(m != n);
        if m < n {
            assert(a[m].0 != a[n].0);
        } else {
            assert(a[n].0 != a[m].0);
        }
    }
}

proof fn lemma_outstanding_prefix(a: Seq<Option<u64>>, b: Seq<Option<u64>>, n: int)
    requires
        0 <= n <= a.len(),
        n <= b.len(),
        forall|i: int| 0 <= i < n ==> a[i] == b[i],
    ensures
        outstanding_before(a, n) == outstanding_before(b, n),
    decreases n,
{
    if n > 0 {
        lemma_outstanding_prefix(a, b, n - 1);
    }
}

proof fn lemma_nothing_outstanding(kernels: Seq<Option<u64>>, n: int)
    requires
        0 <= n <= kernels.len(),
        forall|i: int| 0 <= i < n ==> (#[trigger] kernels[i]) is Some,
    ensures
        outstanding_before(kernels, n) == 0,
    decreases n,
{
    if n > 0 {
        lemma_nothing_outstanding(kernels, n - 1);
    }
}

/// Where a batch succeeds every kernel asked for is loaded, and those that were loaded before stay.
pub proof fn law_a_batch_that_succeeds_loads_every_kernel(
    kernels: Seq<Option<u64>>,
    outcomes: Seq<std::result::Result<u64, String>>,
    i: int,
)
    requires
        0 <= i < kernels.len(),
        outcomes.len() == outstanding_before(kernels, kernels.len() as int),
        first_failure(outcomes) is None,
    ensures
        flushed(kernels, outcomes)[i] is Some,
        kernels[i] is Some ==> flushed(kernels, outcomes)[i] == kernels[i],
{
    lemma_outstanding_counts(kernels, i, kernels.len() as int);
    if kernels[i] is None {
        lemma_no_failure(outcomes, outstanding_before(kernels, i));
    }
}

proof fn lemma_no_failure(outcomes: Seq<std::result::Result<u64, String>>, i: int)
    requires
        first_failure(outcomes) is None,
        0 <= i < outcomes.len(),
    ensures
        outcomes[i] is Ok,
    decreases outcomes.len(),
{
    if i < outcomes.len() - 1 {
        lemma_no_failure(outcomes.drop_last(), i);
    }
}

/// A batch is not all-or-nothing: whatever else failed in it, a request that was built is loaded, and one
/// that was not is still outstanding with its place in the queue kept.
pub proof fn law_a_failed_batch_still_builds_the_rest(
    kernels: Seq<Option<u64>>,
    outcomes: Seq<std::result::Result<u64, String>>,
    i: int,
)
    requires
        0 <= i < kernels.len(),
        outcomes.len() == outstanding_before(kernels, kernels.len() as int),
    ensures
        kernels[i] is Some ==> flushed(kernels, outcomes)[i] == kernels[i],
        kernels[i] is None ==> {
            let place = outstanding_before(kernels, i);
            &&& 0 <= place < outcomes.len()
            &&& flushed(kernels, outcomes)[i] is None <==> outcomes[place] is Err
            &&& outcomes[place] matches Ok(k) ==> flushed(kernels, outcomes)[i] == Some(k)
        },
        outstanding_before(flushed(kernels, outcomes), i) <= outstanding_before(kernels, i),
{
    lemma_outstanding_counts(kernels, i, kernels.len() as int);
    lemma_flush_shortens(kernels, outcomes, i);
}

proof fn lemma_flush_shortens(
    kernels: Seq<Option<u64>>,
    outcomes: Seq<std::result::Result<u64, String>>,
    n: int,
)
    requires
        0 <= n <= kernels.len(),
    ensures
        outstanding_before(flushed(kernels, outcomes), n) <= outstanding_before(kernels, n),
    decreases n,
{
    if n > 0 {
        lemma_flush_shortens(kernels, outcomes, n - 1);
    }
}

/// How many kernels may be built at once, where the machine says how many threads it runs.
///
/// Each worker holds its own workspace, so this trades memory for latency. Bounded rather than taken whole:
/// past a handful of threads the artifact cache and the allocator dominate.
pub fn workers(parallelism: Option<usize>) -> (n: usize)
    ensures
        n == match parallelism {
            None => 1int,
            Some(p) if p < 8 => p as int,
            _ => 8,
        },
{
    match parallelism {
        None => 1,
        Some(p) => if p < 8 {
            p
        } else {
            8
        },
    }
}

/// What comes out of a batch is given to its requests in the order they were asked: of the requests that are not loaded
/// yet, wherever they stand, the first gets the first outcome, the next the next. What is loaded stays.
pub proof fn law_outcomes_are_given_in_order(
    kernels: Seq<Option<u64>>,
    outcomes: Seq<std::result::Result<u64, String>>,
    places: Seq<int>,
    k: int,
    i: int,
)
    requires
        forall|q: int| 0 <= q < places.len() ==> 0 <= #[trigger] places[q] < kernels.len() && kernels[places[q]] is None,
        forall|q: int, r: int| 0 <= q < r < places.len() ==> #[trigger] places[q] < #[trigger] places[r],
        forall|p: int| 0 <= p < kernels.len() && kernels[p] is None ==> #[trigger] places.contains(p),
        0 <= k < places.len(),
        0 <= i < kernels.len(),
    ensures
        flushed(kernels, outcomes)[places[k]] == match outcomes[k] {
            Ok(kernel) => Some(kernel),
            Err(_) => None,
        },
        kernels[i] is Some ==> flushed(kernels, outcomes)[i] == kernels[i],
        flushed(kernels, outcomes).len() == kernels.len(),
{
    assert(0 <= places[k] < kernels.len());
    assert(k == 0 || places[k - 1] < places[k]);
    lemma_outstanding_are_counted(kernels, places, places[k], k);
}

proof fn lemma_outstanding_are_counted(kernels: Seq<Option<u64>>, places: Seq<int>, n: int, m: int)
    requires
        forall|q: int| 0 <= q < places.len() ==> 0 <= #[trigger] places[q] < kernels.len() && kernels[places[q]] is None,
        forall|q: int, r: int| 0 <= q < r < places.len() ==> #[trigger] places[q] < #[trigger] places[r],
        forall|p: int| 0 <= p < kernels.len() && kernels[p] is None ==> #[trigger] places.contains(p),
        0 <= n <= kernels.len(),
        0 <= m <= places.len(),
        m == 0 || places[m - 1] < n,
        m == places.len() || places[m] >= n,
    ensures
        outstanding_before(kernels, n) == m,
    decreases n,
{
    if n > 0 {
        if kernels[n - 1] is None {
            assert(places.contains(n - 1));
            let q = places.index_of(n - 1);
            assert(0 <= q < places.len() && places[q] == n - 1);
            if q < m - 1 {
                assert(places[q] < places[m - 1]);
            }
            if q >= m {
                assert(q == m || places[m] < places[q]);
            }
            assert(q == m - 1);
            assert(m - 1 == 0 || places[m - 2] < places[m - 1]);
            lemma_outstanding_are_counted(kernels, places, n - 1, m - 1);
        } else {
            assert(m == 0 || places[m - 1] != n - 1);
            lemma_outstanding_are_counted(kernels, places, n - 1, m);
        }
    } else {
        assert(m == 0 || places[m - 1] >= 0);
    }
}

/// A batch is blamed for the first of its requests that failed, and for none where none did.
pub proof fn law_the_first_failure_is_told(outcomes: Seq<std::result::Result<u64, String>>, i: int)
    requires
        0 <= i <= outcomes.len(),
        forall|k: int| 0 <= k < i ==> (#[trigger] outcomes[k]) is Ok,
    ensures
        i < outcomes.len() && outcomes[i] is Err ==> first_failure(outcomes) == Some(outcomes[i]->Err_0@),
        i == outcomes.len() ==> first_failure(outcomes) is None,
    decreases outcomes.len(),
{
    if outcomes.len() > 0 {
        let short = outcomes.drop_last();
        if i == outcomes.len() {
            law_the_first_failure_is_told(short, i - 1);
        } else if i < short.len() {
            assert(short[i] == outcomes[i]);
            law_the_first_failure_is_told(short, i);
        } else {
            law_the_first_failure_is_told(short, i);
        }
    }
}

} // verus!
