//! A read-only view of one ComfyUI checkpoint, over bytes that are mapped rather than read.
//!
//! Nothing is looked at when one is opened beyond the header. The dtypes are the file's own, so a plan
//! validates against what the checkpoint actually holds rather than against an expectation baked in
//! here.
use vstd::prelude::*;
use vstd::string::StringExecFns;
use vstd::utf8;

use safetensors::tensor::{Metadata, SafeTensorError, SafeTensors};

use crate::bytes;
use crate::json;
use crate::json::{Lexeme, Mark};
use crate::names::Named;
use crate::text;

verus! {

/// What an element of a tensor is.
#[allow(non_camel_case_types)]
#[derive(Clone, Copy, Debug, PartialEq, Eq, Structural)]
pub enum Dtype {
    BOOL,
    F4,
    F6_E2M3,
    F6_E3M2,
    U8,
    I8,
    F8_E5M2,
    F8_E4M3,
    F8_E8M0,
    F8_E4M3FNUZ,
    F8_E5M2FNUZ,
    I16,
    U16,
    F16,
    BF16,
    I32,
    U32,
    F32,
    C64,
    F64,
    I64,
    U64,
}

impl Dtype {
    /// The name a header spells it with.
    pub open spec fn name_spec(self) -> Seq<char> {
        match self {
            Dtype::BOOL => "BOOL"@,
            Dtype::F4 => "F4"@,
            Dtype::F6_E2M3 => "F6_E2M3"@,
            Dtype::F6_E3M2 => "F6_E3M2"@,
            Dtype::U8 => "U8"@,
            Dtype::I8 => "I8"@,
            Dtype::F8_E5M2 => "F8_E5M2"@,
            Dtype::F8_E4M3 => "F8_E4M3"@,
            Dtype::F8_E8M0 => "F8_E8M0"@,
            Dtype::F8_E4M3FNUZ => "F8_E4M3FNUZ"@,
            Dtype::F8_E5M2FNUZ => "F8_E5M2FNUZ"@,
            Dtype::I16 => "I16"@,
            Dtype::U16 => "U16"@,
            Dtype::F16 => "F16"@,
            Dtype::BF16 => "BF16"@,
            Dtype::I32 => "I32"@,
            Dtype::U32 => "U32"@,
            Dtype::F32 => "F32"@,
            Dtype::C64 => "C64"@,
            Dtype::F64 => "F64"@,
            Dtype::I64 => "I64"@,
            Dtype::U64 => "U64"@,
        }
    }

    /// How many bits one element takes.
    pub open spec fn bits(self) -> int {
        match self {
            Dtype::F4 => 4,
            Dtype::F6_E2M3 | Dtype::F6_E3M2 => 6,
            Dtype::BOOL | Dtype::U8 | Dtype::I8 | Dtype::F8_E5M2 | Dtype::F8_E4M3
            | Dtype::F8_E8M0 | Dtype::F8_E4M3FNUZ | Dtype::F8_E5M2FNUZ => 8,
            Dtype::I16 | Dtype::U16 | Dtype::F16 | Dtype::BF16 => 16,
            Dtype::I32 | Dtype::U32 | Dtype::F32 => 32,
            Dtype::C64 | Dtype::F64 | Dtype::I64 | Dtype::U64 => 64,
        }
    }

    /// The name a header spells it with.
    pub fn name(self) -> (name: &'static str)
        ensures
            name@ == self.name_spec(),
    {
        match self {
            Dtype::BOOL => "BOOL",
            Dtype::F4 => "F4",
            Dtype::F6_E2M3 => "F6_E2M3",
            Dtype::F6_E3M2 => "F6_E3M2",
            Dtype::U8 => "U8",
            Dtype::I8 => "I8",
            Dtype::F8_E5M2 => "F8_E5M2",
            Dtype::F8_E4M3 => "F8_E4M3",
            Dtype::F8_E8M0 => "F8_E8M0",
            Dtype::F8_E4M3FNUZ => "F8_E4M3FNUZ",
            Dtype::F8_E5M2FNUZ => "F8_E5M2FNUZ",
            Dtype::I16 => "I16",
            Dtype::U16 => "U16",
            Dtype::F16 => "F16",
            Dtype::BF16 => "BF16",
            Dtype::I32 => "I32",
            Dtype::U32 => "U32",
            Dtype::F32 => "F32",
            Dtype::C64 => "C64",
            Dtype::F64 => "F64",
            Dtype::I64 => "I64",
            Dtype::U64 => "U64",
        }
    }

    /// The dtype of a name, where the name is one.
    pub fn named(name: &str) -> (dtype: Option<Dtype>)
        ensures
            dtype matches Some(d) ==> d.name_spec() == name@,
            dtype is None ==> forall|d: Dtype| (#[trigger] d.name_spec()) != name@,
    {
        let all: [Dtype; 22] = [
            Dtype::BOOL,
            Dtype::F4,
            Dtype::F6_E2M3,
            Dtype::F6_E3M2,
            Dtype::U8,
            Dtype::I8,
            Dtype::F8_E5M2,
            Dtype::F8_E4M3,
            Dtype::F8_E8M0,
            Dtype::F8_E4M3FNUZ,
            Dtype::F8_E5M2FNUZ,
            Dtype::I16,
            Dtype::U16,
            Dtype::F16,
            Dtype::BF16,
            Dtype::I32,
            Dtype::U32,
            Dtype::F32,
            Dtype::C64,
            Dtype::F64,
            Dtype::I64,
            Dtype::U64,
        ];
        let mut i: usize = 0;
        while i < 22
            invariant
                i <= 22,
                forall|k: int| 0 <= k < i ==> (#[trigger] all@[k]).name_spec() != name@,
            decreases 22 - i,
        {
            if text::same(name, all[i].name()) {
                return Some(all[i]);
            }
            i += 1;
        }
        proof {
            assert forall|d: Dtype| (#[trigger] d.name_spec()) != name@ by {
                let k: int = match d {
                    Dtype::BOOL => 0,
                    Dtype::F4 => 1,
                    Dtype::F6_E2M3 => 2,
                    Dtype::F6_E3M2 => 3,
                    Dtype::U8 => 4,
                    Dtype::I8 => 5,
                    Dtype::F8_E5M2 => 6,
                    Dtype::F8_E4M3 => 7,
                    Dtype::F8_E8M0 => 8,
                    Dtype::F8_E4M3FNUZ => 9,
                    Dtype::F8_E5M2FNUZ => 10,
                    Dtype::I16 => 11,
                    Dtype::U16 => 12,
                    Dtype::F16 => 13,
                    Dtype::BF16 => 14,
                    Dtype::I32 => 15,
                    Dtype::U32 => 16,
                    Dtype::F32 => 17,
                    Dtype::C64 => 18,
                    Dtype::F64 => 19,
                    Dtype::I64 => 20,
                    Dtype::U64 => 21,
                };
                assert(all@[k] == d);
            }
        }
        None
    }
}

#[derive(Debug)]
pub enum Error {
    /// The file could not be opened or mapped.
    Open { path: String, source: String },
    Header { path: String, message: String },
    Missing { name: String, path: String },
    Mismatch { name: String, found: String, expected: String, path: String },
    Dtype { name: String, dtype: Dtype, path: String },
}

impl Error {
    /// What the error says.
    pub open spec fn text(self) -> Seq<char> {
        match self {
            Error::Open { path, source } => "cannot open "@ + path@ + ": "@ + source@,
            Error::Header { path, message } => path@ + " is not a safetensors file: "@ + message@,
            Error::Missing { name, path } => "missing tensor "@ + name@ + " in "@ + path@,
            Error::Mismatch { name, found, expected, path } => name@ + " is "@ + found@
                + ", expected "@ + expected@ + " in "@ + path@,
            Error::Dtype { name, dtype, path } => name@ + " has an unsupported checkpoint dtype "@
                + dtype.name_spec() + " in "@ + path@,
        }
    }

    /// What the error says.
    pub fn message(&self) -> (text: String)
        ensures
            text@ == self.text(),
    {
        let mut out = String::new();
        match self {
            Error::Open { path, source } => {
                out.append("cannot open ");
                out.append(path.as_str());
                out.append(": ");
                out.append(source.as_str());
            },
            Error::Header { path, message } => {
                out.append(path.as_str());
                out.append(" is not a safetensors file: ");
                out.append(message.as_str());
            },
            Error::Missing { name, path } => {
                out.append("missing tensor ");
                out.append(name.as_str());
                out.append(" in ");
                out.append(path.as_str());
            },
            Error::Mismatch { name, found, expected, path } => {
                out.append(name.as_str());
                out.append(" is ");
                out.append(found.as_str());
                out.append(", expected ");
                out.append(expected.as_str());
                out.append(" in ");
                out.append(path.as_str());
            },
            Error::Dtype { name, dtype, path } => {
                out.append(name.as_str());
                out.append(" has an unsupported checkpoint dtype ");
                out.append(dtype.name());
                out.append(" in ");
                out.append(path.as_str());
            },
        }
        assert(out@ =~= self.text());
        out
    }
}

pub type Result<T> = std::result::Result<T, Error>;

/// How many elements the first `n` dimensions of a shape hold.
pub open spec fn volume(shape: Seq<usize>, n: int) -> int
    decreases n,
{
    if n <= 0 {
        1
    } else {
        volume(shape, n - 1) * shape[n - 1]
    }
}

/// Whether a shape can be counted, dimension by dimension.
pub open spec fn countable(shape: Seq<usize>) -> bool {
    forall|n: int| 0 <= n <= shape.len() ==> #[trigger] volume(shape, n) <= usize::MAX
}

/// Whether bytes `begin` up to `end` hold a tensor of this dtype and shape.
pub open spec fn spans(dtype: Dtype, shape: Seq<usize>, begin: int, end: int) -> bool {
    &&& countable(shape)
    &&& volume(shape, shape.len() as int) * dtype.bits() <= usize::MAX
    &&& begin <= end
    &&& volume(shape, shape.len() as int) * dtype.bits() == 8 * (end - begin)
}

/// One tensor's placement in the mapped data block.
#[derive(Clone, Debug)]
pub struct Entry {
    pub dtype: Dtype,
    pub shape: Vec<usize>,
    /// Offset from the start of the data block, not the file.
    pub offset: usize,
    pub bytes: usize,
}

/// What an entry is.
pub struct EntryView {
    pub dtype: Dtype,
    pub shape: Seq<usize>,
    pub offset: usize,
    pub bytes: usize,
}

impl View for Entry {
    type V = EntryView;

    open spec fn view(&self) -> EntryView {
        EntryView {
            dtype: self.dtype,
            shape: self.shape@,
            offset: self.offset,
            bytes: self.bytes,
        }
    }
}

impl EntryView {
    /// The first dimension; a scalar counts as one row.
    pub open spec fn rows(self) -> int {
        if self.shape.len() == 0 {
            1
        } else {
            self.shape[0] as int
        }
    }

    pub open spec fn row_bytes(self) -> int {
        if self.rows() == 0 {
            self.bytes as int
        } else {
            self.bytes as int / self.rows()
        }
    }

    pub open spec fn elements(self) -> int {
        volume(self.shape, self.shape.len() as int)
    }

    /// Whether the bytes are those of a tensor of this dtype and shape.
    pub open spec fn sound(self) -> bool {
        spans(self.dtype, self.shape, self.offset as int, self.offset + self.bytes)
    }

    pub open spec fn describe(self) -> Seq<char> {
        self.dtype.name_spec() + " "@ + text::list_of(self.shape)
    }
}

impl Entry {
    /// A scalar counts as one row, so `row_bytes` is well defined for every tensor.
    pub fn rows(&self) -> (rows: usize)
        ensures
            rows == self@.rows(),
    {
        if self.shape.len() == 0 {
            1
        } else {
            self.shape[0]
        }
    }

    pub fn row_bytes(&self) -> (bytes: usize)
        ensures
            bytes == self@.row_bytes(),
    {
        let rows: usize = self.rows();
        if rows == 0 {
            self.bytes
        } else {
            self.bytes / rows
        }
    }

    pub fn elements(&self) -> (n: usize)
        requires
            countable(self.shape@),
        ensures
            n == self@.elements(),
    {
        let mut n: usize = 1;
        let mut i: usize = 0;
        while i < self.shape.len()
            invariant
                i <= self.shape@.len(),
                countable(self.shape@),
                n == volume(self.shape@, i as int),
            decreases self.shape@.len() - i,
        {
            assert(volume(self.shape@, i + 1) <= usize::MAX);
            n = n * self.shape[i];
            i += 1;
        }
        n
    }

    /// `I8 [32, 8]`, as it appears in a mismatch message.
    pub fn describe(&self) -> (text: String)
        ensures
            text@ == self@.describe(),
    {
        let mut out = String::from_str(self.dtype.name());
        out.append(" ");
        text::push_list(&mut out, self.shape.as_slice());
        out
    }
}

/// `safetensors::tensor::Metadata`: a header that was read.
#[verifier::external_type_specification]
#[verifier::external_body]
pub struct ExMetadata(Metadata);

/// `safetensors::tensor::SafeTensorError`: why a header could not be read.
#[verifier::external_type_specification]
#[verifier::external_body]
pub struct ExSafeTensorError(SafeTensorError);

/// The tensors of a header, by name: the dtype's name, the shape, and where the bytes begin and end.
pub uninterp spec fn tensors_of(metadata: Metadata) -> Map<
    Seq<char>,
    (Seq<char>, Seq<usize>, usize, usize),
>;

/// What a file's header says: how long it is and the tensors it names; `None` where the file does not
/// begin with a header of its length.
pub uninterp spec fn header_of(file: Seq<u8>) -> Option<
    (usize, Map<Seq<char>, (Seq<char>, Seq<usize>, usize, usize)>),
>;

/// How many bytes a header has at most: a longer one is not read.
pub const MOST_HEADER: usize = 100_000_000;

/// The header of a file that begins with the eight bytes of its length; nothing where the file is too short for it, or
/// it is too long to be read.
pub open spec fn header_text(file: Seq<u8>) -> Seq<u8> {
    if file.len() < 8 {
        Seq::empty()
    } else {
        let n = bytes::from_le32(file.subrange(0, 4)) + 4294967296 * bytes::from_le32(
            file.subrange(4, 8),
        );
        if 8 + n <= file.len() && n <= MOST_HEADER {
            file.subrange(8, 8 + n)
        } else {
            Seq::empty()
        }
    }
}

/// How many objects and lists are open in front of lexeme `k`.
pub open spec fn depth_at(ls: Seq<Lexeme>, k: int) -> int
    decreases k,
{
    if k <= 0 {
        0
    } else {
        depth_at(ls, k - 1) + match ls[k - 1].mark {
            Mark::OpenObject | Mark::OpenList => 1int,
            Mark::CloseObject | Mark::CloseList => -1,
            _ => 0,
        }
    }
}

/// What a string literal spells.
pub open spec fn name_of(s: Seq<u8>, l: Lexeme) -> Seq<u8> {
    json::spelled(s, l.start as int, l.end as int)
}

/// Whether lexeme `k` opens the two offsets of a tensor: a member of that name, or the last item of a list.
pub open spec fn offsets_at(s: Seq<u8>, ls: Seq<Lexeme>, k: int) -> bool {
    &&& 2 <= k < ls.len() - 5
    &&& depth_at(ls, k) == 2
    &&& ls[k].mark == Mark::OpenList
    &&& ls[k + 1].mark == Mark::Number
    &&& ls[k + 2].mark == Mark::Comma
    &&& ls[k + 3].mark == Mark::Number
    &&& ls[k + 4].mark == Mark::CloseList
    &&& ls[k - 1].mark == Mark::Colon && ls[k - 2].mark == Mark::Text && name_of(s, ls[k - 2])
        == utf8::encode_utf8("data_offsets"@) || ls[k - 1].mark == Mark::Comma && ls[k + 5].mark
        == Mark::CloseList
}

/// The last lexeme in front of `k` that names a tensor.
pub open spec fn tensor_at(ls: Seq<Lexeme>, k: int) -> Option<int>
    decreases k,
{
    if k <= 0 {
        None
    } else if depth_at(ls, k - 1) == 1 && ls[k - 1].mark == Mark::Text {
        Some(k - 1)
    } else {
        tensor_at(ls, k - 1)
    }
}

/// Whether the tensor that lexeme `k` belongs to is given again behind it: what is given last is what holds.
pub open spec fn given_again(s: Seq<u8>, ls: Seq<Lexeme>, k: int) -> bool {
    tensor_at(ls, k) matches Some(t) && exists|j: int|
        k <= j < ls.len() - 1 && #[trigger] depth_at(ls, j) == 1 && ls[j].mark == Mark::Text && ls[j
            + 1].mark == Mark::Colon && name_of(s, ls[j]) == name_of(s, ls[t])
}

/// The number that the digits from `start` to `end` write.
pub open spec fn number_of(s: Seq<u8>, start: int, end: int) -> nat
    decreases end - start,
{
    if end <= start {
        0
    } else {
        10 * number_of(s, start, end - 1) + (if json::is_digit(s[end - 1]) {
            s[end - 1] - 0x30
        } else {
            0
        }) as nat
    }
}

/// Whether the end of a tensor whose offsets lexeme `k` opens can be counted from the data block's beginning on.
pub open spec fn ends_within(s: Seq<u8>, ls: Seq<Lexeme>, k: int) -> bool {
    number_of(s, ls[k + 3].start as int, ls[k + 3].end as int) + 8 + s.len() <= usize::MAX
}

/// Whether where each tensor of a file's header ends can be counted from the beginning of the file on. A header that is
/// not made of lexemes has no tensors.
pub open spec fn countable_header(file: Seq<u8>) -> bool {
    let s = header_text(file);
    match json::lexemes_of(s) {
        Some(ls) => all_end_within(s, ls),
        None => true,
    }
}

/// Whether where each tensor ends that is not given again can be counted.
pub open spec fn all_end_within(s: Seq<u8>, ls: Seq<Lexeme>) -> bool {
    forall|k: int| #[trigger]
        offsets_at(s, ls, k) ==> ends_within(s, ls, k) || given_again(s, ls, k)
}

/// Whether the number that digits write is more than `most`.
fn is_past(s: &[u8], l: Lexeme, most: usize) -> (yes: bool)
    requires
        l.end <= s@.len(),
    ensures
        yes == (number_of(s@, l.start as int, l.end as int) > most),
{
    let mut number: usize = 0;
    let mut i: usize = l.start;
    while i < l.end
        invariant
            l.end <= s@.len(),
            l.start <= i,
            l.start < l.end ==> i <= l.end,
            number == number_of(s@, l.start as int, i as int),
            number <= most,
        decreases l.end - i,
    {
        let b: u8 = s[i];
        let d: usize = if 0x30 <= b && b <= 0x39 {
            (b - 0x30) as usize
        } else {
            0
        };
        if d > most || number > (most - d) / 10 {
            proof {
                lemma_number_grows(s@, l.start as int, i + 1, l.end as int);
            }
            return true;
        }
        number = 10 * number + d;
        i += 1;
    }
    false
}

proof fn lemma_number_grows(s: Seq<u8>, start: int, a: int, b: int)
    requires
        start <= a <= b,
    ensures
        number_of(s, start, a) <= number_of(s, start, b),
    decreases b - a,
{
    if a < b {
        lemma_number_grows(s, start, a, b - 1);
    }
}

fn same_name(s: &[u8], a: Lexeme, b: Lexeme) -> (same: bool)
    requires
        a.end <= s@.len(),
        b.end <= s@.len(),
        s@.len() + 12 <= usize::MAX,
    ensures
        same == (name_of(s@, a) == name_of(s@, b)),
{
    let x = json::spell(s, a);
    let y = json::spell(s, b);
    bytes::same(x.as_slice(), y.as_slice())
}

/// How many objects and lists are open behind a lexeme.
fn deeper(depth: i64, mark: Mark) -> (d: i64)
    requires
        -0x1000_0000_0000_0000 <= depth <= 0x1000_0000_0000_0000,
    ensures
        d == depth + match mark {
            Mark::OpenObject | Mark::OpenList => 1int,
            Mark::CloseObject | Mark::CloseList => -1,
            _ => 0,
        },
{
    match mark {
        Mark::OpenObject | Mark::OpenList => depth + 1,
        Mark::CloseObject | Mark::CloseList => depth - 1,
        _ => depth,
    }
}

/// Whether the tensor that lexeme `k` belongs to is given again behind it.
fn is_given_again(s: &[u8], ls: &Vec<Lexeme>, k: usize, depth: i64, tensor: Option<usize>) -> (yes: bool)
    requires
        k < ls@.len() <= MOST_HEADER,
        s@.len() + 12 <= usize::MAX,
        forall|i: int| 0 <= i < ls@.len() ==> (#[trigger] ls@[i]).end <= s@.len(),
        depth == depth_at(ls@, k as int),
        -k <= depth <= k,
        match tensor {
            Some(t) => t < ls@.len() && tensor_at(ls@, k as int) == Some(t as int),
            None => tensor_at(ls@, k as int) is None,
        },
    ensures
        yes == given_again(s@, ls@, k as int),
{
    let t: usize = match tensor {
        Some(t) => t,
        None => {
            return false;
        },
    };
    let mut depth: i64 = depth;
    let mut j: usize = k;
    while j < ls.len() - 1
        invariant
            k <= j < ls@.len() <= MOST_HEADER,
            t < ls@.len(),
            s@.len() + 12 <= usize::MAX,
            forall|i: int| 0 <= i < ls@.len() ==> (#[trigger] ls@[i]).end <= s@.len(),
            depth == depth_at(ls@, j as int),
            -j <= depth <= j,
            tensor_at(ls@, k as int) == Some(t as int),
            forall|i: int|
                k <= i < j ==> !(#[trigger] depth_at(ls@, i) == 1 && ls@[i].mark == Mark::Text && ls@[i
                    + 1].mark == Mark::Colon && name_of(s@, ls@[i]) == name_of(s@, ls@[t as int])),
        decreases ls@.len() - j,
    {
        if depth == 1 && ls[j].mark == Mark::Text && ls[j + 1].mark == Mark::Colon && same_name(
            s,
            ls[j],
            ls[t],
        ) {
            assert(depth_at(ls@, j as int) == 1);
            return true;
        }
        depth = deeper(depth, ls[j].mark);
        j += 1;
    }
    false
}

/// Whether lexeme `k` opens the two offsets of a tensor.
fn opens_offsets(s: &[u8], ls: &Vec<Lexeme>, k: usize, depth: i64) -> (yes: bool)
    requires
        k < ls@.len(),
        s@.len() + 12 <= usize::MAX,
        forall|i: int| 0 <= i < ls@.len() ==> (#[trigger] ls@[i]).end <= s@.len(),
        depth == depth_at(ls@, k as int),
    ensures
        yes == offsets_at(s@, ls@, k as int),
{
    if k < 2 || ls.len() - k <= 5 || depth != 2 || ls[k].mark != Mark::OpenList || ls[k + 1].mark
        != Mark::Number || ls[k + 2].mark != Mark::Comma || ls[k + 3].mark != Mark::Number || ls[k
        + 4].mark != Mark::CloseList {
        return false;
    }
    if ls[k - 1].mark == Mark::Comma {
        return ls[k + 5].mark == Mark::CloseList;
    }
    if ls[k - 1].mark != Mark::Colon || ls[k - 2].mark != Mark::Text {
        return false;
    }
    let name = json::spell(s, ls[k - 2]);
    bytes::same(name.as_slice(), "data_offsets".as_bytes())
}

/// Whether where each tensor of a file's header ends can be counted from the beginning of the file on.
fn has_countable_header(file: &[u8]) -> (yes: bool)
    ensures
        yes == countable_header(file@),
{
    let ghost s = header_text(file@);
    if file.len() < 8 {
        proof {
            lemma_nothing_is_countable(s);
        }
        return true;
    }
    let low: u64 = bytes::read_le32(file, 0) as u64;
    let high: u64 = bytes::read_le32(file, 4) as u64;
    let n: u64 = low + 4294967296 * high;
    if n > (file.len() - 8) as u64 || n > MOST_HEADER as u64 {
        proof {
            lemma_nothing_is_countable(s);
        }
        return true;
    }
    let end: usize = 8 + n as usize;
    let header: &[u8] = vstd::slice::slice_subrange(file, 8, end);
    assert(header@ =~= s);
    let ls = match json::lexemes(header) {
        Some(ls) => ls,
        None => {
            return true;
        },
    };
    let most: usize = usize::MAX - 8 - header.len();
    let mut depth: i64 = 0;
    let mut tensor: Option<usize> = None;
    let mut k: usize = 0;
    while k < ls.len()
        invariant
            k <= ls@.len() <= MOST_HEADER,
            header@ == s,
            s.len() <= MOST_HEADER,
            s.len() + 12 <= usize::MAX,
            s == header_text(file@),
            json::lexemes_of(s) == Some(ls@),
            most == usize::MAX - 8 - s.len(),
            forall|i: int| 0 <= i < ls@.len() ==> (#[trigger] ls@[i]).end <= s.len(),
            depth == depth_at(ls@, k as int),
            -k <= depth <= k,
            match tensor {
                Some(t) => t < ls@.len() && tensor_at(ls@, k as int) == Some(t as int),
                None => tensor_at(ls@, k as int) is None,
            },
            forall|i: int|
                i < k && #[trigger] offsets_at(s, ls@, i) ==> ends_within(s, ls@, i) || given_again(
                    s,
                    ls@,
                    i,
                ),
        decreases ls@.len() - k,
    {
        if opens_offsets(header, &ls, k, depth) && is_past(header, ls[k + 3], most)
            && !is_given_again(header, &ls, k, depth, tensor) {
            proof {
                let at = k as int;
                assert(offsets_at(s, ls@, at));
                assert(!ends_within(s, ls@, at) && !given_again(s, ls@, at));
                assert(!all_end_within(s, ls@));
            }
            return false;
        }
        if depth == 1 && ls[k].mark == Mark::Text {
            tensor = Some(k);
        }
        depth = deeper(depth, ls[k].mark);
        k += 1;
    }
    true
}

/// A header of no bytes names no tensors.
proof fn lemma_nothing_is_countable(s: Seq<u8>)
    requires
        s.len() == 0,
    ensures
        json::lexemes_of(s) == Some(Seq::<Lexeme>::empty()),
{
}

/// `SafeTensors::read_metadata`: the header's length and the tensors it names, or an error.
///
/// Which files have a header is not spelled out, only that it is told by the file's bytes. Where there
/// is one, it and the eight bytes of its length fit the file, and every tensor spans as many bytes as
/// its dtype and shape take, all of it counted without overflow. It adds the length of the header to where the
/// last tensor ends without a check, so that end has to be countable.
#[verifier::external_body]
fn read_metadata(file: &[u8]) -> (header: std::result::Result<(usize, Metadata), SafeTensorError>)
    requires
        countable_header(file@),
    ensures
        match header {
            Ok((n, metadata)) => {
                &&& header_of(file@) == Some((n, tensors_of(metadata)))
                &&& n + 8 <= file@.len()
                &&& forall|name: Seq<char>| #[trigger]
                    tensors_of(metadata).contains_key(name) ==> sound_info(
                        tensors_of(metadata)[name],
                    )
            },
            Err(_) => header_of(file@) is None,
        },
{
    SafeTensors::read_metadata(file)
}

/// `Metadata::tensors`: every tensor of the header once, in no order.
#[verifier::external_body]
fn tensors(metadata: &Metadata) -> (all: Vec<(String, String, Vec<usize>, usize, usize)>)
    ensures
        forall|i: int|
            0 <= i < all@.len() ==> tensors_of(*metadata).contains_pair(
                (#[trigger] all@[i]).0@,
                (all@[i].1@, all@[i].2@, all@[i].3, all@[i].4),
            ),
        forall|i: int, j: int|
            0 <= i < j < all@.len() ==> (#[trigger] all@[i]).0@ != (#[trigger] all@[j]).0@,
        forall|name: Seq<char>| #[trigger]
            tensors_of(*metadata).contains_key(name) ==> exists|i: int|
                0 <= i < all@.len() && (#[trigger] all@[i]).0@ == name,
{
    metadata
        .tensors()
        .into_iter()
        .map(|(name, t)| (name, format!("{:?}", t.dtype), t.shape.clone(), t.data_offsets.0, t.data_offsets.1))
        .collect()
}

/// `SafeTensorError`'s own words. Nothing is claimed of them.
#[verifier::external_body]
fn header_error(error: &SafeTensorError) -> String {
    error.to_string()
}

/// Whether a header's account of a tensor holds together: it names a dtype, and its bytes are as many
/// as the dtype and the shape take.
pub open spec fn sound_info(info: (Seq<char>, Seq<usize>, usize, usize)) -> bool {
    exists|d: Dtype| #[trigger]
        d.name_spec() == info.0 && spans(d, info.1, info.2 as int, info.3 as int)
}

/// No two dtypes share a name.
pub proof fn law_dtype_names_differ(a: Dtype, b: Dtype)
    requires
        a.name_spec() == b.name_spec(),
    ensures
        a == b,
{
    reveal_strlit("BOOL");
    reveal_strlit("F4");
    reveal_strlit("F6_E2M3");
    reveal_strlit("F6_E3M2");
    reveal_strlit("U8");
    reveal_strlit("I8");
    reveal_strlit("F8_E5M2");
    reveal_strlit("F8_E4M3");
    reveal_strlit("F8_E8M0");
    reveal_strlit("F8_E4M3FNUZ");
    reveal_strlit("F8_E5M2FNUZ");
    reveal_strlit("I16");
    reveal_strlit("U16");
    reveal_strlit("F16");
    reveal_strlit("BF16");
    reveal_strlit("I32");
    reveal_strlit("U32");
    reveal_strlit("F32");
    reveal_strlit("C64");
    reveal_strlit("F64");
    reveal_strlit("I64");
    reveal_strlit("U64");
    let (x, y) = (a.name_spec(), b.name_spec());
    assert(x.len() == y.len());
    assert(x[0] == y[0] && x[1] == y[1] && x[2] == y[2] && x[3] == y[3] && x[4] == y[4] && x[6]
        == y[6]);
}

/// The dtype of a name that is one.
pub open spec fn dtype_of(name: Seq<char>) -> Dtype {
    choose|d: Dtype| #[trigger] d.name_spec() == name
}

/// The tensors of a header as entries, by name.
pub open spec fn entries_of(
    tensors: Map<Seq<char>, (Seq<char>, Seq<usize>, usize, usize)>,
    name: Seq<char>,
) -> EntryView {
    let info = tensors[name];
    EntryView {
        dtype: dtype_of(info.0),
        shape: info.1,
        offset: info.2,
        bytes: (info.3 - info.2) as usize,
    }
}

/// Entries as what they are.
pub open spec fn viewed(entries: Map<Seq<char>, Entry>) -> Map<Seq<char>, EntryView> {
    Map::new(|name: Seq<char>| entries.contains_key(name), |name: Seq<char>| entries[name]@)
}

pub struct Checkpoint<'a> {
    path: String,
    map: &'a [u8],
    /// Where the data block starts in the file.
    data: usize,
    /// Ordered, because a lookup failure reports the lexicographically first offender.
    entries: Named<Entry>,
}

/// What a checkpoint is: where it came from, its bytes, where its data block begins, and its tensors.
pub struct CheckpointView {
    pub path: Seq<char>,
    pub map: Seq<u8>,
    pub data: int,
    pub entries: Map<Seq<char>, EntryView>,
}

impl CheckpointView {
    /// A tensor's bytes.
    pub open spec fn bytes(self, entry: EntryView) -> Seq<u8> {
        self.map.subrange(self.data + entry.offset, self.data + entry.offset + entry.bytes)
    }

    /// Whether an entry lies in the data block.
    pub open spec fn holds(self, entry: EntryView) -> bool {
        self.data + entry.offset + entry.bytes <= self.map.len()
    }
}

impl<'a> View for Checkpoint<'a> {
    type V = CheckpointView;

    closed spec fn view(&self) -> CheckpointView {
        CheckpointView {
            path: self.path@,
            map: self.map@,
            data: self.data as int,
            entries: viewed(self.entries@),
        }
    }
}

/// What a header whose tensors end past counting is refused with.
pub open spec fn past_counting() -> Seq<char> {
    "a tensor of the header ends past counting"@
}

/// What is wrong with a tensor that does not end in the data block.
pub open spec fn past_the_block(name: Seq<char>) -> Seq<char> {
    "tensor "@ + name + " spans past the data block"@
}

/// One tensor as a header gives it: name, dtype's name, shape, and where its bytes begin and end.
pub type Info = (String, String, Vec<usize>, usize, usize);

/// Whether a list of tensors is one that a header can give.
pub open spec fn sound_list(list: Seq<Info>) -> bool {
    &&& forall|i: int|
        0 <= i < list.len() ==> sound_info(
            ((#[trigger] list[i]).1@, list[i].2@, list[i].3, list[i].4),
        )
    &&& forall|i: int, j: int|
        0 <= i < j < list.len() ==> (#[trigger] list[i]).0@ != (#[trigger] list[j]).0@
}

/// The entry a tensor of such a list becomes.
pub open spec fn entry_of(info: Info) -> EntryView {
    EntryView {
        dtype: dtype_of(info.1@),
        shape: info.2@,
        offset: info.3,
        bytes: (info.4 - info.3) as usize,
    }
}

/// The entries of such a list, by name.
pub open spec fn entries_from(list: Seq<Info>) -> Map<Seq<char>, EntryView>
    decreases list.len(),
{
    if list.len() == 0 {
        Map::empty()
    } else {
        entries_from(list.drop_last()).insert(list.last().0@, entry_of(list.last()))
    }
}

impl<'a> Checkpoint<'a> {
    /// The names are each given once, in order, and every entry is sound and lies in the data block.
    pub closed spec fn wf(&self) -> bool {
        &&& self.entries.wf()
        &&& self.data <= self.map@.len()
        &&& forall|name: Seq<char>| #[trigger]
            self.entries@.contains_key(name) ==> self.entries@[name]@.sound() && self@.holds(
                self.entries@[name]@,
            )
    }
}

/// What a checkpoint whose entries hold together promises: each of them is sound, and lies in the data
/// block.
pub proof fn lemma_entries_hold(ck: &Checkpoint<'_>, name: Seq<char>)
    requires
        ck.wf(),
        ck@.entries.contains_key(name),
    ensures
        ck@.entries[name].sound(),
        ck@.holds(ck@.entries[name]),
        0 <= ck@.data <= ck@.map.len() <= usize::MAX,
{
    assert(ck.entries@.contains_key(name));
    assert(ck.map@.len() == ck.map.len());
}

proof fn lemma_entries_from(list: Seq<Info>, name: Seq<char>)
    ensures
        entries_from(list).contains_key(name) <==> exists|i: int|
            0 <= i < list.len() && (#[trigger] list[i]).0@ == name,
        sound_list(list) ==> forall|i: int|
            0 <= i < list.len() && (#[trigger] list[i]).0@ == name ==> entries_from(list)[name]
                == entry_of(list[i]),
    decreases list.len(),
{
    if list.len() > 0 {
        let rest = list.drop_last();
        lemma_entries_from(rest, name);
        let last = list.len() - 1;
        if exists|i: int| 0 <= i < list.len() && (#[trigger] list[i]).0@ == name {
            let i = choose|i: int| 0 <= i < list.len() && (#[trigger] list[i]).0@ == name;
            if i < last {
                assert(rest[i] == list[i]);
            }
        }
        if exists|i: int| 0 <= i < rest.len() && (#[trigger] rest[i]).0@ == name {
            let i = choose|i: int| 0 <= i < rest.len() && (#[trigger] rest[i]).0@ == name;
            assert(list[i] == rest[i]);
        }
        if list.last().0@ == name {
            assert(list[last].0@ == name);
        }
        if sound_list(list) {
            assert(sound_list(rest)) by {
                assert forall|i: int| 0 <= i < rest.len() implies sound_info(
                    ((#[trigger] rest[i]).1@, rest[i].2@, rest[i].3, rest[i].4),
                ) by {
                    assert(rest[i] == list[i]);
                }
                assert forall|i: int, j: int| 0 <= i < j < rest.len() implies (
                #[trigger] rest[i]).0@ != (#[trigger] rest[j]).0@ by {
                    assert(rest[i] == list[i] && rest[j] == list[j]);
                }
            }
            assert forall|i: int| 0 <= i < list.len() && (#[trigger] list[i]).0@ == name implies entries_from(
                list,
            )[name] == entry_of(list[i]) by {
                if i < last {
                    assert(rest[i] == list[i]);
                    assert(list[last].0@ != list[i].0@);
                }
            }
        }
    }
}

/// The first tensor of a list that does not end within `room` bytes.
pub open spec fn first_past(list: Seq<Info>, room: int, i: int) -> bool {
    &&& 0 <= i < list.len()
    &&& list[i].4 > room
    &&& forall|k: int| 0 <= k < i ==> (#[trigger] list[k]).4 <= room
}

impl<'a> Checkpoint<'a> {
    /// A checkpoint of a file whose header has been read: it is `header` bytes long and names these
    /// tensors.
    pub fn from_header(path: String, map: &'a [u8], header: usize, list: Vec<Info>) -> (result: Result<
        Self,
    >)
        requires
            header + 8 <= usize::MAX,
            sound_list(list@),
        ensures
            ({
                let room = map@.len() - (header + 8);
                match result {
                    Ok(ck) => {
                        &&& room >= 0
                        &&& forall|i: int| 0 <= i < list@.len() ==> (#[trigger] list@[i]).4 <= room
                        &&& ck.wf()
                        &&& ck@ == (CheckpointView {
                            path: path@,
                            map: map@,
                            data: header + 8,
                            entries: entries_from(list@),
                        })
                    },
                    Err(Error::Header { path: at, message }) => at@ == path@ && if room < 0 {
                        message@ == "header runs past the end of the file"@
                    } else {
                        exists|i: int| #[trigger]
                            first_past(list@, room, i) && message@ == past_the_block(list@[i].0@)
                    },
                    Err(_) => false,
                }
            }),
    {
        let data: usize = 8 + header;
        if map.len() < data {
            return Err(
                Error::Header {
                    path,
                    message: String::from_str("header runs past the end of the file"),
                },
            );
        }
        let room: usize = map.len() - data;
        let mut entries: Named<Entry> = Named::new();
        let mut i: usize = 0;
        assert(list@.take(0).len() == 0);
        assert(viewed(entries@) =~= entries_from(list@.take(0)));
        while i < list.len()
            invariant
                i <= list@.len(),
                sound_list(list@),
                data == header + 8,
                data + room == map@.len(),
                entries.wf(),
                viewed(entries@) == entries_from(list@.take(i as int)),
                forall|k: int| 0 <= k < i ==> (#[trigger] list@[k]).4 <= room,
                forall|name: Seq<char>| #[trigger]
                    entries@.contains_key(name) ==> entries@[name]@.sound() && entries@[name]@.offset
                        + entries@[name]@.bytes <= room,
            decreases list@.len() - i,
        {
            let info = &list[i];
            assert(sound_info((list@[i as int].1@, list@[i as int].2@, list@[i as int].3, list@[
                i as int].4)));
            let (begin, end): (usize, usize) = (info.3, info.4);
            if end < begin || end > room {
                let mut message = String::from_str("tensor ");
                message.append(info.0.as_str());
                message.append(" spans past the data block");
                assert(first_past(list@, room as int, i as int));
                return Err(Error::Header { path, message });
            }
            let dtype = match Dtype::named(info.1.as_str()) {
                Some(d) => d,
                None => Dtype::U8,
            };
            let ghost sound = choose|d: Dtype| #[trigger]
                d.name_spec() == info.1@ && spans(d, info.2@, begin as int, end as int);
            proof {
                law_dtype_names_differ(sound, dtype);
                law_dtype_names_differ(dtype_of(info.1@), dtype);
            }
            let entry = Entry {
                dtype,
                shape: info.2.clone(),
                offset: begin,
                bytes: end - begin,
            };
            assert(entry.shape@ =~= info.2@);
            assert(entry@ == entry_of(list@[i as int]));
            proof {
                assert(list@.take(i + 1).drop_last() =~= list@.take(i as int));
                assert(list@.take(i + 1).last() == list@[i as int]);
                assert(viewed(entries@.insert(info.0@, entry)) =~= viewed(entries@).insert(
                    info.0@,
                    entry@,
                ));
            }
            entries.insert(info.0.clone(), entry);
            i += 1;
        }
        assert(list@.take(i as int) =~= list@);
        Ok(Checkpoint { path, map, data, entries })
    }

    /// Reads the header of a checkpoint whose bytes are `map`, mapped from `path`.
    ///
    /// A header with a number that cannot be counted from the end of the file on is refused.
    pub fn open(path: String, map: &'a [u8]) -> (result: Result<Self>)
        ensures
            !countable_header(map@) ==> (result matches Err(Error::Header { path: at, message })
                && at@ == path@ && message@ == past_counting()),
            countable_header(map@) ==> match header_of(map@) {
                None => result matches Err(Error::Header { path: at, .. }) && at@ == path@,
                Some((header, named)) => {
                    let room = map@.len() - (header + 8);
                    match result {
                        Ok(ck) => {
                            &&& ck.wf()
                            &&& ck@.path == path@
                            &&& ck@.map == map@
                            &&& ck@.data == header + 8
                            &&& ck@.entries.dom() == named.dom()
                            &&& forall|name: Seq<char>| #[trigger]
                                named.contains_key(name) ==> named[name].3 <= room
                                    && ck@.entries[name] == entries_of(named, name)
                        },
                        Err(Error::Header { path: at, message }) => at@ == path@ && exists|
                            name: Seq<char>,
                        | #[trigger]
                            named.contains_key(name) && named[name].3 > room && message@
                                == past_the_block(name),
                        Err(_) => false,
                    }
                },
            },
    {
        if !has_countable_header(map) {
            return Err(
                Error::Header { path, message: String::from_str("a tensor of the header ends past counting") },
            );
        }
        let (header, metadata) = match read_metadata(map) {
            Ok(read) => read,
            Err(e) => {
                return Err(Error::Header { path, message: header_error(&e) });
            },
        };
        let list = tensors(&metadata);
        let ghost named = tensors_of(metadata);
        let ghost all = list@;
        proof {
            assert(map@.len() == map.len());
            assert forall|i: int| 0 <= i < list@.len() implies sound_info(
                ((#[trigger] list@[i]).1@, list@[i].2@, list@[i].3, list@[i].4),
            ) by {
                assert(named.contains_key(list@[i].0@));
            }
        }
        let result = Checkpoint::from_header(path, map, header, list);
        proof {
            let room = map@.len() - (header + 8);
            if let Ok(ref ck) = result {
                assert forall|name: Seq<char>| #[trigger] named.dom().contains(name) implies ck@.entries.dom().contains(
                    name,
                ) && named[name].3 <= room && ck@.entries[name] == entries_of(named, name) by {
                    lemma_entries_from(all, name);
                    let i = choose|i: int| 0 <= i < all.len() && (#[trigger] all[i]).0@ == name;
                    assert(all[i].0@ == name);
                }
                assert forall|name: Seq<char>| #[trigger] ck@.entries.dom().contains(name) implies named.dom().contains(
                    name,
                ) by {
                    lemma_entries_from(all, name);
                    let i = choose|i: int| 0 <= i < all.len() && (#[trigger] all[i]).0@ == name;
                    assert(all[i].0@ == name);
                }
                assert(ck@.entries.dom() =~= named.dom());
            } else {
                let i = choose|i: int| #[trigger] first_past(all, room, i);
                if first_past(all, room, i) {
                    assert(named.contains_key(all[i].0@));
                }
            }
        }
        result
    }

    /// Where the checkpoint came from.
    pub fn path(&self) -> (path: &str)
        ensures
            path@ == self@.path,
    {
        self.path.as_str()
    }

    /// Every tensor, by name, in the order the names sort in.
    pub fn entries(&self) -> (entries: &Named<Entry>)
        requires
            self.wf(),
        ensures
            entries.wf(),
            viewed(entries@) == self@.entries,
    {
        &self.entries
    }

    pub fn has(&self, name: &str) -> (has: bool)
        requires
            self.wf(),
        ensures
            has == self@.entries.contains_key(name@),
    {
        self.entries.get(name).is_some()
    }

    pub fn at(&self, name: &str) -> (result: Result<&Entry>)
        requires
            self.wf(),
        ensures
            match result {
                Ok(entry) => self@.entries.contains_pair(name@, entry@),
                Err(Error::Missing { name: wanted, path }) => !self@.entries.contains_key(name@)
                    && wanted@ == name@ && path@ == self@.path,
                Err(_) => false,
            },
    {
        match self.entries.get(name) {
            Some(entry) => Ok(entry),
            None => Err(
                Error::Missing { name: String::from_str(name), path: self.path.clone() },
            ),
        }
    }

    /// The checked lookup a plan uses. A negative dimension matches whatever the file has there.
    pub fn at_checked(&self, name: &str, dtype: Dtype, shape: &[i64]) -> (result: Result<&Entry>)
        requires
            self.wf(),
        ensures
            match result {
                Ok(entry) => self@.entries.contains_pair(name@, entry@) && entry@.dtype == dtype
                    && matches_shape(entry@.shape, shape@),
                Err(Error::Missing { name: wanted, path }) => !self@.entries.contains_key(name@)
                    && wanted@ == name@ && path@ == self@.path,
                Err(Error::Mismatch { name: wanted, found, expected, path }) => {
                    &&& self@.entries.contains_key(name@)
                    &&& !(self@.entries[name@].dtype == dtype && matches_shape(
                        self@.entries[name@].shape,
                        shape@,
                    ))
                    &&& wanted@ == name@
                    &&& path@ == self@.path
                    &&& found@ == self@.entries[name@].describe()
                    &&& expected@ == dtype.name_spec() + " "@ + text::signed_list_of(shape@)
                },
                Err(_) => false,
            },
    {
        let entry = self.at(name)?;
        let mut ok: bool = entry.shape.len() == shape.len();
        let mut i: usize = 0;
        while ok && i < shape.len()
            invariant
                i <= shape@.len(),
                ok ==> entry.shape@.len() == shape@.len() && forall|k: int|
                    0 <= k < i ==> (#[trigger] shape@[k]) < 0 || entry.shape@[k] == shape@[k],
                !ok ==> !matches_shape(entry.shape@, shape@),
            decreases shape@.len() - i,
        {
            let want: i64 = shape[i];
            if want >= 0 && entry.shape[i] as u64 != want as u64 {
                ok = false;
            }
            i += 1;
        }
        if entry.dtype != dtype || !ok {
            let mut expected = String::from_str(dtype.name());
            expected.append(" ");
            text::push_signed_list(&mut expected, shape);
            return Err(
                Error::Mismatch {
                    name: String::from_str(name),
                    found: entry.describe(),
                    expected,
                    path: self.path.clone(),
                },
            );
        }
        Ok(entry)
    }

    /// A tensor's bytes, still in the mapping. Reading them faults their pages in.
    pub fn bytes(&self, entry: &Entry) -> (bytes: &'a [u8])
        requires
            self@.data + entry.offset + entry.bytes <= self@.map.len(),
        ensures
            bytes@ == self@.bytes(entry@),
    {
        assert(self.map@.len() == self.map.len());
        let from: usize = self.data + entry.offset;
        vstd::slice::slice_subrange(self.map, from, from + entry.bytes)
    }
}

/// Whether a shape is the one wanted, where a negative dimension wants any.
pub open spec fn matches_shape(shape: Seq<usize>, wanted: Seq<i64>) -> bool {
    &&& shape.len() == wanted.len()
    &&& forall|i: int| 0 <= i < wanted.len() ==> (#[trigger] wanted[i]) < 0 || shape[i] == wanted[i]
}

/// Bytes per element for the dtypes a ComfyUI checkpoint holds; `None` is a dtype it does not.
pub open spec fn held_bytes(dtype: Dtype) -> Option<int> {
    match dtype {
        Dtype::BOOL | Dtype::U8 | Dtype::I8 => Some(1),
        Dtype::U16 | Dtype::I16 | Dtype::F16 | Dtype::BF16 => Some(2),
        Dtype::U32 | Dtype::I32 | Dtype::F32 => Some(4),
        Dtype::U64 | Dtype::I64 | Dtype::F64 => Some(8),
        _ => None,
    }
}

/// Bytes per element for the dtypes a ComfyUI checkpoint holds. `U8` covers its quantisation metadata
/// blobs. Anything else is a checkpoint this build does not understand.
pub fn dtype_bytes(name: &str, dtype: Dtype, path: &str) -> (result: Result<usize>)
    ensures
        match result {
            Ok(n) => held_bytes(dtype) == Some(n as int),
            Err(Error::Dtype { name: of, dtype: found, path: at }) => held_bytes(dtype) is None
                && of@ == name@ && found == dtype && at@ == path@,
            Err(_) => false,
        },
{
    match dtype {
        Dtype::BOOL | Dtype::U8 | Dtype::I8 => Ok(1),
        Dtype::U16 | Dtype::I16 | Dtype::F16 | Dtype::BF16 => Ok(2),
        Dtype::U32 | Dtype::I32 | Dtype::F32 => Ok(4),
        Dtype::U64 | Dtype::I64 | Dtype::F64 => Ok(8),
        other => Err(
            Error::Dtype {
                name: String::from_str(name),
                dtype: other,
                path: String::from_str(path),
            },
        ),
    }
}

/// The start of the page an address is in.
pub open spec fn page_of(address: int, page: int) -> int {
    address / page * page
}

/// The first page that starts at an address or after it.
pub open spec fn page_from(address: int, page: int) -> int {
    page_of(address + page - 1, page)
}

/// The whole pages to advise about a range of addresses, so a partial page at either end is never
/// advised away under a neighbouring tensor's bytes: reading ahead rounds outward, dropping inward.
/// Dropping a shared page would cost the neighbour a re-read, not correctness, so the asymmetry is the
/// safe direction.
///
/// The range must lie inside the mapping, and nothing is advised about anything else: dropping private
/// memory erases it, so a range that is not checked is a way to erase a caller's data.
pub fn advised_pages(
    map_start: usize,
    map_len: usize,
    first: usize,
    len: usize,
    page: usize,
    ahead: bool,
) -> (pages: Option<(usize, usize)>)
    requires
        page > 0,
        map_start + map_len <= usize::MAX,
        first + len + (page - 1) <= usize::MAX,
    ensures
        ({
            let last = first + len;
            let (begin, end) = if ahead {
                (page_of(first as int, page as int), page_from(last, page as int))
            } else {
                (page_from(first as int, page as int), page_of(last, page as int))
            };
            let inside = len > 0 && map_start <= first && last <= map_start + map_len;
            match pages {
                Some((b, e)) => inside && begin < end && b == begin && e == end,
                None => !(inside && begin < end),
            }
        }),
{
    if len == 0 {
        return None;
    }
    let last: usize = first + len;
    if first < map_start || last > map_start + map_len {
        return None;
    }
    proof {
        lemma_page(first as int, page as int);
        lemma_page(last as int, page as int);
        lemma_page(first + page - 1, page as int);
        lemma_page(last + page - 1, page as int);
    }
    let (begin, end): (usize, usize) = if ahead {
        (first / page * page, (last + (page - 1)) / page * page)
    } else {
        ((first + (page - 1)) / page * page, last / page * page)
    };
    if end > begin {
        Some((begin, end))
    } else {
        None
    }
}

proof fn lemma_page(address: int, page: int)
    by (nonlinear_arith)
    requires
        address >= 0,
        page > 0,
    ensures
        0 <= address / page * page <= address,
        address < address / page * page + page,
        (address / page * page) % page == 0,
{
}

/// Pages are dropped only where every byte of them is the range's own, and read ahead wherever one is.
pub proof fn law_pages_dropped_are_wholly_the_ranges(first: int, last: int, page: int)
    requires
        0 <= first,
        first <= last,
        page > 0,
    ensures
        page_of(first, page) <= first <= page_from(first, page),
        page_of(last, page) <= last <= page_from(last, page),
        page_of(first, page) % page == 0,
        page_from(last, page) % page == 0,
        first - page_of(first, page) < page,
        page_from(last, page) - last < page,
{
    lemma_page(first, page);
    lemma_page(last, page);
    lemma_page(first + page - 1, page);
    lemma_page(last + page - 1, page);
}

/// Whether pages are kept once their bytes are on the device: a setting that is neither empty nor `0` keeps
/// them, which is what a repeated run wants.
pub fn keeps_mapped(setting: Option<&str>) -> (keeps: bool)
    ensures
        keeps == (setting matches Some(v) && v@ != ""@ && v@ != "0"@),
{
    match setting {
        Some(v) => !text::same(v, "") && !text::same(v, "0"),
        None => false,
    }
}

} // verus!
