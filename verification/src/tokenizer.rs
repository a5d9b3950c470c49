//! The tokenizer a prompt becomes ids with.
//!
//! The vocabulary is a `tokenizer.json`, read by the `tokenizers` crate. Nothing is added to a prompt:
//! the presentation this model wants is built by the caller.
use vstd::prelude::*;
use vstd::string::StringExecFns;

use tokenizers::Tokenizer as Vocabulary;

use crate::text;
use crate::vocabulary;

verus! {

#[derive(Debug)]
pub struct Error(pub String);

impl Error {
    pub open spec fn text(self) -> Seq<char> {
        "tokenizer: "@ + self.0@
    }

    /// What the error says.
    pub fn message(&self) -> (text: String)
        ensures
            text@ == self.text(),
    {
        text::cat2("tokenizer: ", self.0.as_str())
    }
}

pub type Result<T> = std::result::Result<T, Error>;

/// `tokenizers::Tokenizer`: a vocabulary that was read.
#[verifier::external_type_specification]
#[verifier::external_body]
pub struct ExVocabulary(Vocabulary);

/// How many tokens a vocabulary holds, its added ones included.
pub uninterp spec fn tokens_in(vocabulary: Vocabulary) -> usize;

/// The ids of a vocabulary's tokens, its added ones included.
pub uninterp spec fn ids_in(vocabulary: Vocabulary) -> Set<u32>;

/// What texts may come to with a vocabulary, or with another read from the same document: each with the ids that may be
/// given for it, or with `None` where it may be refused.
pub uninterp spec fn outcomes_of(vocabulary: Vocabulary) -> Set<(Seq<char>, Option<Seq<u32>>)>;

/// How a vocabulary cuts texts off, where it does: after how many ids, and how many of them the next piece
/// repeats.
pub uninterp spec fn truncation_of(vocabulary: Vocabulary) -> Option<(usize, usize)>;

/// What a `tokenizer.json` describes: how many tokens and their ids, what texts may come to, and how it cuts them off.
/// `None` where it is not one.
pub uninterp spec fn described_by(json: Seq<u8>) -> Option<
    (usize, Set<u32>, Set<(Seq<char>, Option<Seq<u32>>)>, Option<(usize, usize)>),
>;

/// The document a vocabulary was read from.
pub uninterp spec fn read_from(vocabulary: Vocabulary) -> Seq<u8>;

/// `tokenizers::Tokenizer::from_bytes`: the vocabulary a `tokenizer.json` describes, or the parser's own
/// words where it is not one. Which bytes are one is not spelled out, only that the bytes tell.
///
/// The documents that are not readable are those it may panic on: a decoder that is no JSON, a precompiled normalizer
/// without its table, merges that make more than the longest token, and added tokens that the normalizer may panic on.
#[verifier::external_body]
fn read_vocabulary(json: &[u8]) -> (result: std::result::Result<Vocabulary, String>)
    requires
        vocabulary::readable(json@),
    ensures
        match result {
            Ok(vocabulary) => read_from(vocabulary) == json@ && described_by(json@) == Some(
                (
                    tokens_in(vocabulary),
                    ids_in(vocabulary),
                    outcomes_of(vocabulary),
                    truncation_of(vocabulary),
                ),
            ),
            Err(_) => described_by(json@) is None,
        },
{
    Vocabulary::from_bytes(json).map_err(|e| e.to_string())
}

/// `tokenizers::TokenizerImpl::get_truncation`: the length a vocabulary cuts texts off at, and its stride.
#[verifier::external_body]
fn truncation(vocabulary: &Vocabulary) -> (cut: Option<(usize, usize)>)
    ensures
        cut == truncation_of(*vocabulary),
{
    vocabulary.get_truncation().map(|t| (t.max_length, t.stride))
}

/// Whether each piece a text is cut into moves on from the one before: cutting panics where the stride is not less
/// than the length.
pub open spec fn moves_on(cut: Option<(usize, usize)>) -> bool {
    cut matches Some((max_length, stride)) ==> max_length == 0 || stride < max_length
}

/// `tokenizers::TokenizerImpl::encode` without special tokens, and `Encoding::get_ids` of what it gives.
///
/// What comes back, the ids or a refusal, is among what the text may come to. A vocabulary may ask for merges to be
/// dropped at random, or have two added tokens that are looked for as one, so two calls on one text need not agree; where
/// it does neither, a text comes to one thing only. Which that is, is not said. It panics where it cuts a text into
/// pieces that do not move on, and on vocabularies of documents that are not encodable: pieces of length zero, an added
/// token that matches nothing, a template for one text that names a second.
#[verifier::external_body]
fn encode_plain(vocabulary: &Vocabulary, text: &str) -> (result: std::result::Result<Vec<u32>, String>)
    requires
        moves_on(truncation_of(*vocabulary)),
        vocabulary::readable(read_from(*vocabulary)),
        vocabulary::encodable(read_from(*vocabulary)),
    ensures
        outcomes_of(*vocabulary).contains(
            (
                text@,
                match result {
                    Ok(ids) => Some(ids@),
                    Err(_) => None,
                },
            ),
        ),
        vocabulary::steady(read_from(*vocabulary)) ==> forall|other: Option<Seq<u32>>| #[trigger]
            outcomes_of(*vocabulary).contains((text@, other)) ==> match result {
                Ok(ids) => other == Some(ids@),
                Err(_) => other is None,
            },
{
    vocabulary.encode(text, false).map(|e| e.get_ids().to_vec()).map_err(|e| e.to_string())
}

/// `tokenizers::TokenizerImpl::get_vocab_size`, with the added tokens.
#[verifier::external_body]
fn count_tokens(vocabulary: &Vocabulary) -> (n: usize)
    ensures
        n == tokens_in(*vocabulary),
{
    vocabulary.get_vocab_size(true)
}

/// `tokenizers::TokenizerImpl::get_vocab`, with the added tokens: their ids, each at least once and in no order that
/// is said.
#[verifier::external_body]
fn token_ids(vocabulary: &Vocabulary) -> (ids: Vec<u32>)
    ensures
        ids@.to_set() == ids_in(*vocabulary),
{
    vocabulary.get_vocab(true).into_values().collect()
}

/// Whether a number is the largest id plus one: every id is below it, and the one before it is an id.
pub open spec fn bounds(n: int, ids: Set<u32>) -> bool {
    &&& forall|id: u32| #[trigger] ids.contains(id) ==> id < n
    &&& n == 0 || ids.contains((n - 1) as u32)
}

/// Ids as the model takes them.
pub open spec fn signed_ids(ids: Seq<u32>) -> Seq<i32> {
    Seq::new(ids.len(), |i: int| ids[i] as i32)
}

/// Ids as the model takes them.
pub fn ids_of(ids: &[u32]) -> (out: Vec<i32>)
    ensures
        out@ == signed_ids(ids@),
{
    let mut out: Vec<i32> = Vec::new();
    let mut i: usize = 0;
    while i < ids.len()
        invariant
            i <= ids@.len(),
            out@ == signed_ids(ids@.take(i as int)),
        decreases ids@.len() - i,
    {
        out.push(ids[i] as i32);
        i += 1;
        assert(out@ =~= signed_ids(ids@.take(i as int)));
    }
    assert(ids@.take(i as int) =~= ids@);
    out
}

/// Whether what an encode gave is what its text came to: the ids as the model takes them, or an error where it was
/// refused.
pub open spec fn is_outcome(result: Result<Vec<i32>>, raw: Option<Seq<u32>>) -> bool {
    match result {
        Ok(ids) => raw matches Some(raw) && ids@ == signed_ids(raw),
        Err(_) => raw is None,
    }
}

/// A vocabulary, to turn prompts into ids with.
pub struct Tokenizer {
    vocabulary: Vocabulary,
    /// whether the document it was read from is one that texts are encoded with
    sound: bool,
}

/// What a document that is not read is refused with.
pub open spec fn not_read() -> Seq<char> {
    "not a vocabulary that can be read"@
}

impl Tokenizer {
    /// The vocabulary was read from a document that can be.
    #[verifier::type_invariant]
    spec fn wf(self) -> bool {
        &&& vocabulary::readable(read_from(self.vocabulary))
        &&& self.sound == vocabulary::encodable(read_from(self.vocabulary))
    }

    /// How many tokens the vocabulary holds.
    pub closed spec fn size(&self) -> usize {
        tokens_in(self.vocabulary)
    }

    /// The ids of the vocabulary's tokens.
    pub closed spec fn ids(&self) -> Set<u32> {
        ids_in(self.vocabulary)
    }

    /// What texts may come to.
    pub closed spec fn outcomes(&self) -> Set<(Seq<char>, Option<Seq<u32>>)> {
        outcomes_of(self.vocabulary)
    }

    /// How the vocabulary cuts texts off.
    pub closed spec fn cut(&self) -> Option<(usize, usize)> {
        truncation_of(self.vocabulary)
    }

    /// Whether the vocabulary's document is one that texts are encoded with.
    pub closed spec fn sound(&self) -> bool {
        vocabulary::encodable(read_from(self.vocabulary))
    }

    /// Whether the vocabulary leaves nothing to chance.
    pub closed spec fn steady(&self) -> bool {
        vocabulary::steady(read_from(self.vocabulary))
    }

    /// Whether texts can be encoded at all: the vocabulary's document is one that they are encoded with, and where it
    /// cuts them off it does so in pieces that move on.
    pub open spec fn can_encode(&self) -> bool {
        self.sound() && moves_on(self.cut())
    }

    /// Whether this may come of encoding a text. Where the vocabulary leaves nothing to chance nothing else may.
    pub open spec fn may_give(&self, text: Seq<char>, result: Result<Vec<i32>>) -> bool {
        &&& exists|raw: Option<Seq<u32>>| #[trigger]
            self.outcomes().contains((text, raw)) && is_outcome(result, raw)
        &&& self.steady() ==> forall|raw: Option<Seq<u32>>| #[trigger]
            self.outcomes().contains((text, raw)) ==> is_outcome(result, raw)
    }

    /// The vocabulary a `tokenizer.json` describes.
    ///
    /// A document that is not [`vocabulary::readable`] is refused unread: one that is no JSON, or that has a part which
    /// the reader panics on.
    pub fn from_bytes(bytes: &[u8]) -> (result: Result<Self>)
        ensures
            !vocabulary::readable(bytes@) ==> (result matches Err(e) && e.0@ == not_read()),
            vocabulary::readable(bytes@) ==> match result {
                Ok(t) => {
                    &&& described_by(bytes@) == Some((t.size(), t.ids(), t.outcomes(), t.cut()))
                    &&& t.sound() == vocabulary::encodable(bytes@)
                    &&& t.steady() == vocabulary::steady(bytes@)
                },
                Err(_) => described_by(bytes@) is None,
            },
    {
        let fit = vocabulary::fitness(bytes);
        if !fit.read {
            return Err(Error(String::from_str("not a vocabulary that can be read")));
        }
        match read_vocabulary(bytes) {
            Ok(vocabulary) => Ok(Tokenizer { vocabulary, sound: fit.encodes }),
            Err(e) => Err(Error(e)),
        }
    }

    /// Whether texts can be encoded at all.
    pub fn encodes(&self) -> (yes: bool)
        ensures
            yes == self.can_encode(),
    {
        proof {
            use_type_invariant(self);
        }
        self.sound && match truncation(&self.vocabulary) {
            Some((max_length, stride)) => max_length == 0 || stride < max_length,
            None => true,
        }
    }

    /// The prompt's ids, with no special tokens added.
    ///
    /// A vocabulary that leaves something to chance may give one text different ids.
    pub fn encode(&self, text: &str) -> (result: Result<Vec<i32>>)
        requires
            self.can_encode(),
        ensures
            self.may_give(text@, result),
    {
        proof {
            use_type_invariant(self);
        }
        match encode_plain(&self.vocabulary, text) {
            Ok(ids) => {
                assert(self.outcomes().contains((text@, Some(ids@))));
                Ok(ids_of(ids.as_slice()))
            },
            Err(e) => {
                assert(self.outcomes().contains((text@, None)));
                Err(Error(e))
            },
        }
    }

    /// The largest id plus one, or zero where there are none.
    pub fn id_bound(&self) -> (n: u64)
        ensures
            bounds(n as int, self.ids()),
    {
        let ids = token_ids(&self.vocabulary);
        let mut n: u64 = 0;
        let mut i: usize = 0;
        while i < ids.len()
            invariant
                i <= ids@.len(),
                0 <= n <= u32::MAX + 1,
                forall|k: int| 0 <= k < i ==> (#[trigger] ids@[k]) < n,
                n == 0 || ids@.contains((n - 1) as u32),
            decreases ids@.len() - i,
        {
            if ids[i] as u64 >= n {
                n = ids[i] as u64 + 1;
            }
            i += 1;
        }
        assert forall|id: u32| #[trigger] self.ids().contains(id) implies id < n by {
            assert(ids@.to_set().contains(id));
            assert(ids@.contains(id));
        }
        n
    }

    /// How many tokens the vocabulary holds.
    pub fn vocab_size(&self) -> (n: usize)
        ensures
            n == self.size(),
    {
        count_tokens(&self.vocabulary)
    }
}

/// Encoding is a pure function of the text, where the vocabulary leaves nothing to chance: whatever two calls on one
/// text give, both give the same ids, or both refuse it.
pub proof fn law_encoding_is_a_function_of_the_text(
    tokenizer: Tokenizer,
    text: Seq<char>,
    first: Result<Vec<i32>>,
    again: Result<Vec<i32>>,
)
    requires
        tokenizer.steady(),
        tokenizer.may_give(text, first),
        tokenizer.may_give(text, again),
    ensures
        match first {
            Ok(ids) => again matches Ok(others) && others@ == ids@,
            Err(_) => again is Err,
        },
{
}

/// Two vocabularies of one document are alike: a text that comes to something with the one may come to it with the
/// other, and where the document leaves nothing to chance it comes to nothing else.
pub proof fn law_one_document_is_one_vocabulary(
    document: Seq<u8>,
    one: Tokenizer,
    other: Tokenizer,
    text: Seq<char>,
    result: Result<Vec<i32>>,
)
    requires
        described_by(document) == Some((one.size(), one.ids(), one.outcomes(), one.cut())),
        described_by(document) == Some((other.size(), other.ids(), other.outcomes(), other.cut())),
        one.steady() == vocabulary::steady(document),
        other.steady() == vocabulary::steady(document),
    ensures
        one.may_give(text, result) == other.may_give(text, result),
{
}

} // verus!
