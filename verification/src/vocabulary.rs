//! Which `tokenizer.json` documents are read, and which are encoded with.
//!
//! The `tokenizers` crate reads such a document and encodes texts with it, and on some documents it panics: reading
//! a decoder that is no JSON, a precompiled normalizer that is no table, merges longer than any token; or encoding,
//! where a part of it cuts texts in pieces of no length, or matches nothing at all. The first are refused before they
//! are read, and with the others nothing is encoded. Which they are is told by the lexemes of the document and by the
//! part each belongs to.
use vstd::prelude::*;
use vstd::utf8;

use crate::bytes;
use crate::charsmap;
use crate::charsmap::Kind;
use crate::json;
use crate::json::{Lexeme, Mark};

verus! {

/// What may come next in a document.
#[derive(Clone, Copy, Debug, PartialEq, Eq, Structural)]
pub enum Phase {
    /// A value.
    Value,
    /// The first value of a list, or its end.
    First,
    /// The first key of an object, or its end.
    FirstKey,
    /// A key.
    Key,
    /// The colon behind a key.
    Colon,
    /// What follows a value.
    After,
}

/// A part of a vocabulary's document: a member of the document itself.
#[derive(Clone, Copy, Debug, PartialEq, Eq, Structural)]
pub enum Part {
    Normalizer,
    PreTokenizer,
    PostProcessor,
    Padding,
    AddedTokens,
    Decoder,
    Model,
    Other,
}

/// A member of a part.
#[derive(Clone, Copy, Debug, PartialEq, Eq, Structural)]
pub enum Field {
    Vocab,
    Merges,
    Prefix,
    Other,
}

/// Whether a name is a word.
pub open spec fn is_word(name: Seq<u8>, word: Seq<char>) -> bool {
    name == utf8::encode_utf8(word)
}

fn spells(name: &Vec<u8>, word: &str) -> (yes: bool)
    ensures
        yes == is_word(name@, word@),
{
    bytes::same(name.as_slice(), word.as_bytes())
}

pub open spec fn part_named(name: Seq<u8>) -> Part {
    if is_word(name, "normalizer"@) {
        Part::Normalizer
    } else if is_word(name, "pre_tokenizer"@) {
        Part::PreTokenizer
    } else if is_word(name, "post_processor"@) {
        Part::PostProcessor
    } else if is_word(name, "padding"@) {
        Part::Padding
    } else if is_word(name, "added_tokens"@) {
        Part::AddedTokens
    } else if is_word(name, "decoder"@) {
        Part::Decoder
    } else if is_word(name, "model"@) {
        Part::Model
    } else {
        Part::Other
    }
}

fn find_part(name: &Vec<u8>) -> (part: Part)
    ensures
        part == part_named(name@),
{
    if spells(name, "normalizer") {
        Part::Normalizer
    } else if spells(name, "pre_tokenizer") {
        Part::PreTokenizer
    } else if spells(name, "post_processor") {
        Part::PostProcessor
    } else if spells(name, "padding") {
        Part::Padding
    } else if spells(name, "added_tokens") {
        Part::AddedTokens
    } else if spells(name, "decoder") {
        Part::Decoder
    } else if spells(name, "model") {
        Part::Model
    } else {
        Part::Other
    }
}

pub open spec fn field_named(name: Seq<u8>) -> Field {
    if is_word(name, "vocab"@) {
        Field::Vocab
    } else if is_word(name, "merges"@) {
        Field::Merges
    } else if is_word(name, "continuing_subword_prefix"@) {
        Field::Prefix
    } else {
        Field::Other
    }
}

fn find_field(name: &Vec<u8>) -> (field: Field)
    ensures
        field == field_named(name@),
{
    if spells(name, "vocab") {
        Field::Vocab
    } else if spells(name, "merges") {
        Field::Merges
    } else if spells(name, "continuing_subword_prefix") {
        Field::Prefix
    } else {
        Field::Other
    }
}

/// Where a lexeme stands.
pub struct State {
    /// The objects and lists that are open, the outermost first: `true` is an object.
    pub open: Seq<bool>,
    pub phase: Phase,
    /// The member of the document, and the member of that.
    pub part: Part,
    pub field: Field,
    /// How many objects and lists were open at the template for one text, where this is inside one; zero elsewhere.
    pub template: int,
}

pub open spec fn start() -> State {
    State {
        open: Seq::empty(),
        phase: Phase::Value,
        part: Part::Other,
        field: Field::Other,
        template: 0,
    }
}

/// How deep the objects and lists of a decoder nest at most: the parser gives up past it.
pub const MOST_OPEN: usize = 127;

impl State {
    pub open spec fn at_key(self) -> bool {
        self.phase == Phase::FirstKey || self.phase == Phase::Key
    }

    /// Behind a value.
    pub open spec fn past(self) -> State {
        State { phase: Phase::After, ..self }
    }

    /// Inside one more object or list.
    pub open spec fn opened(self, object: bool) -> State {
        State {
            open: self.open.push(object),
            phase: if object {
                Phase::FirstKey
            } else {
                Phase::First
            },
            ..self
        }
    }

    /// Behind the innermost object or list.
    pub open spec fn closed(self) -> State {
        State {
            open: self.open.drop_last(),
            phase: Phase::After,
            template: if self.open.len() - 1 < self.template {
                0
            } else {
                self.template
            },
            ..self
        }
    }

    /// Behind a key.
    pub open spec fn named(self, name: Seq<u8>) -> State {
        let depth = self.open.len() as int;
        State {
            phase: Phase::Colon,
            part: if depth == 1 {
                part_named(name)
            } else {
                self.part
            },
            field: if depth == 1 {
                Field::Other
            } else if depth == 2 {
                field_named(name)
            } else {
                self.field
            },
            template: if is_word(name, "single"@) && !(0 < self.template < depth) {
                depth
            } else if depth <= self.template {
                0
            } else {
                self.template
            },
            ..self
        }
    }

    /// Where what follows a lexeme stands; `None` where the lexeme may not stand here. A string literal comes with
    /// what it spells.
    pub open spec fn after(self, mark: Mark, name: Seq<u8>) -> Option<State> {
        match self.phase {
            Phase::Value | Phase::First => match mark {
                Mark::OpenObject => Some(self.opened(true)),
                Mark::OpenList => Some(self.opened(false)),
                Mark::Text | Mark::Number | Mark::True | Mark::False | Mark::Null => Some(self.past()),
                Mark::CloseList => if self.phase == Phase::First {
                    Some(self.closed())
                } else {
                    None
                },
                _ => None,
            },
            Phase::FirstKey | Phase::Key => match mark {
                Mark::Text => Some(self.named(name)),
                Mark::CloseObject => if self.phase == Phase::FirstKey {
                    Some(self.closed())
                } else {
                    None
                },
                _ => None,
            },
            Phase::Colon => if mark == Mark::Colon {
                Some(State { phase: Phase::Value, ..self })
            } else {
                None
            },
            Phase::After => if self.open.len() == 0 {
                None
            } else if self.open.last() {
                match mark {
                    Mark::Comma => Some(State { phase: Phase::Key, ..self }),
                    Mark::CloseObject => Some(self.closed()),
                    _ => None,
                }
            } else {
                match mark {
                    Mark::Comma => Some(State { phase: Phase::Value, ..self }),
                    Mark::CloseList => Some(self.closed()),
                    _ => None,
                }
            },
        }
    }

    /// Whether a list here is the value of a member of a part.
    pub open spec fn lists(self) -> bool {
        self.phase == Phase::Value && self.open.len() >= 2 && self.open.last()
    }
}

/// Where a lexeme stands.
struct Walk {
    open: Vec<bool>,
    phase: Phase,
    part: Part,
    field: Field,
    template: usize,
}

impl Walk {
    spec fn view(&self) -> State {
        State {
            open: self.open@,
            phase: self.phase,
            part: self.part,
            field: self.field,
            template: self.template as int,
        }
    }

    /// Something is open where a list or an object is gone into.
    spec fn wf(&self) -> bool {
        self.phase == Phase::First || self.phase == Phase::FirstKey || self.phase == Phase::Key
            ==> self.open@.len() > 0
    }

    fn start() -> (w: Self)
        ensures
            w.wf(),
            w@ == start(),
    {
        let w = Walk {
            open: Vec::new(),
            phase: Phase::Value,
            part: Part::Other,
            field: Field::Other,
            template: 0,
        };
        assert(w.open@ =~= Seq::<bool>::empty());
        w
    }

    fn close(&mut self)
        requires
            old(self).wf(),
            old(self).open@.len() > 0,
        ensures
            final(self).wf(),
            final(self)@ == old(self)@.closed(),
    {
        let _ = self.open.pop();
        self.phase = Phase::After;
        if self.open.len() < self.template {
            self.template = 0;
        }
        assert(self.open@ =~= old(self).open@.drop_last());
    }

    fn nest(&mut self, object: bool)
        requires
            old(self).wf(),
        ensures
            final(self).wf(),
            final(self)@ == old(self)@.opened(object),
    {
        self.open.push(object);
        self.phase = if object {
            Phase::FirstKey
        } else {
            Phase::First
        };
    }

    fn name(&mut self, name: &Vec<u8>)
        requires
            old(self).wf(),
        ensures
            final(self).wf(),
            final(self)@ == old(self)@.named(name@),
    {
        let depth: usize = self.open.len();
        self.phase = Phase::Colon;
        if depth == 1 {
            self.part = find_part(name);
            self.field = Field::Other;
        } else if depth == 2 {
            self.field = find_field(name);
        }
        if spells(name, "single") && !(0 < self.template && self.template < depth) {
            self.template = depth;
        } else if depth <= self.template {
            self.template = 0;
        }
    }

    /// Moves past a lexeme, where it may stand here.
    fn step(&mut self, mark: Mark, name: &Vec<u8>) -> (done: bool)
        requires
            old(self).wf(),
        ensures
            done ==> final(self).wf() && old(self)@.after(mark, name@) == Some(final(self)@),
            !done ==> old(self)@.after(mark, name@) is None,
    {
        match self.phase {
            Phase::Value | Phase::First => match mark {
                Mark::OpenObject => {
                    self.nest(true);
                    true
                },
                Mark::OpenList => {
                    self.nest(false);
                    true
                },
                Mark::Text | Mark::Number | Mark::True | Mark::False | Mark::Null => {
                    self.phase = Phase::After;
                    true
                },
                Mark::CloseList => if self.phase == Phase::First {
                    self.close();
                    true
                } else {
                    false
                },
                _ => false,
            },
            Phase::FirstKey | Phase::Key => match mark {
                Mark::Text => {
                    self.name(name);
                    true
                },
                Mark::CloseObject => if self.phase == Phase::FirstKey {
                    self.close();
                    true
                } else {
                    false
                },
                _ => false,
            },
            Phase::Colon => if mark == Mark::Colon {
                self.phase = Phase::Value;
                true
            } else {
                false
            },
            Phase::After => {
                let n: usize = self.open.len();
                if n == 0 {
                    false
                } else if self.open[n - 1] {
                    match mark {
                        Mark::Comma => {
                            self.phase = Phase::Key;
                            true
                        },
                        Mark::CloseObject => {
                            self.close();
                            true
                        },
                        _ => false,
                    }
                } else {
                    match mark {
                        Mark::Comma => {
                            self.phase = Phase::Value;
                            true
                        },
                        Mark::CloseList => {
                            self.close();
                            true
                        },
                        _ => false,
                    }
                }
            },
        }
    }
}

/// What the string literal that is lexeme `k` spells; nothing where it is another lexeme.
pub open spec fn name_of(s: Seq<u8>, l: Lexeme) -> Seq<u8> {
    if l.mark == Mark::Text {
        json::spelled(s, l.start as int, l.end as int)
    } else {
        Seq::empty()
    }
}

fn find_name(s: &[u8], l: Lexeme) -> (name: Vec<u8>)
    requires
        l.end <= s@.len(),
        2 * s@.len() + 12 <= usize::MAX,
    ensures
        name@ == name_of(s@, l),
{
    if l.mark == Mark::Text {
        json::spell(s, l)
    } else {
        Vec::new()
    }
}

/// Where lexeme `k` stands; `None` where one before it may not stand where it does.
pub open spec fn state_at(s: Seq<u8>, ls: Seq<Lexeme>, k: int) -> Option<State>
    decreases k,
{
    if k <= 0 {
        Some(start())
    } else {
        match state_at(s, ls, k - 1) {
            Some(st) => st.after(ls[k - 1].mark, name_of(s, ls[k - 1])),
            None => None,
        }
    }
}

/// Whether lexemes are one value.
pub open spec fn is_document(s: Seq<u8>, ls: Seq<Lexeme>) -> bool {
    state_at(s, ls, ls.len() as int) matches Some(st) && st.phase == Phase::After && st.open.len() == 0
}

/// What a lexeme of a vocabulary says that the others are held against.
#[derive(Clone, Copy, Debug, PartialEq, Eq, Structural)]
pub enum Sign {
    /// Nothing.
    Plain,
    /// What the reader panics on.
    Broken,
    /// What a normalizer may panic on.
    Wild,
    /// What encoding may panic on.
    Unsound,
    /// A template for one text, a list of tokens, a list of merges, and a prefix begin.
    Template,
    Vocab,
    Merges,
    Prefix,
    /// A prefix, and how many bytes it has.
    Prefixed(usize),
    /// A token, and how many bytes it has.
    Token(usize),
    /// A merge: how many bytes its two sides have, and how many its second.
    Merge(usize, usize),
    /// An added token that takes the blanks on its left, or on its right, or is looked for in normalized texts, or
    /// shows nothing.
    TakesLeft,
    TakesRight,
    Normalized,
    Faint,
    /// A normalizer that may leave nothing of a text that shows nothing, or of any.
    Removes,
    Erases,
    /// A model that drops merges at random.
    Drops,
}

/// Whether lexeme `k` is the value of a member of this name.
pub open spec fn follows(s: Seq<u8>, ls: Seq<Lexeme>, k: int, word: Seq<char>) -> bool {
    k >= 2 && ls[k - 1].mark == Mark::Colon && ls[k - 2].mark == Mark::Text && is_word(
        name_of(s, ls[k - 2]),
        word,
    )
}

/// Names of a normalizer that takes blanks, marks and controls out of a text.
pub open spec fn removes(name: Seq<u8>) -> bool {
    is_word(name, "Strip"@) || is_word(name, "StripAccents"@) || is_word(name, "Nmt"@) || is_word(
        name,
        "Bert"@,
    ) || is_word(name, "BertNormalizer"@) || is_word(name, "strip_left"@) || is_word(name, "clean_text"@)
}

/// Whether a text shows something that no normalizer takes for a blank, a mark or a control: a letter, a digit or a
/// sign of ASCII.
pub open spec fn shows(name: Seq<u8>) -> bool {
    exists|i: int| 0 <= i < name.len() && 0x21 <= #[trigger] name[i] <= 0x7e
}

/// Whether a pattern, from `i` on, may move where its match begins: an escape in it is `\K`.
pub open spec fn keeps_out(name: Seq<u8>, i: int) -> bool
    decreases name.len() - i,
{
    if i < 0 || i >= name.len() - 1 {
        false
    } else if name[i] == 0x5c {
        name[i + 1] == 0x4b || keeps_out(name, i + 2)
    } else {
        keeps_out(name, i + 1)
    }
}

/// Whether a byte means something else than itself in a pattern.
pub open spec fn is_meta(b: u8) -> bool {
    b == 0x2e || b == 0x5e || b == 0x24 || b == 0x2a || b == 0x2b || b == 0x3f || b == 0x28 || b == 0x29 || b == 0x5b
        || b == 0x5d || b == 0x7b || b == 0x7d || b == 0x7c || b == 0x5c
}

/// How many bytes of a pattern stand before its repetition, `+` or `{2,}`, where it ends in one.
pub open spec fn unrepeated(name: Seq<u8>) -> int {
    let n = name.len() as int;
    if n >= 1 && name[n - 1] == 0x2b {
        n - 1
    } else if n >= 4 && name[n - 4] == 0x7b && name[n - 3] == 0x32 && name[n - 2] == 0x2c && name[n - 1] == 0x7d {
        n - 4
    } else {
        n
    }
}

/// Whether a pattern is a text as it stands, the last character of which may be repeated: it matches nothing empty.
pub open spec fn is_literal(name: Seq<u8>) -> bool {
    &&& unrepeated(name) > 0
    &&& forall|i: int| 0 <= i < unrepeated(name) ==> !is_meta(#[trigger] name[i])
}

/// The table of the precompiled normalizer whose type is lexeme `k`. It is the object's other member.
pub open spec fn table_at(s: Seq<u8>, ls: Seq<Lexeme>, k: int) -> Kind {
    if 3 <= k < ls.len() - 5 && ls[k - 3].mark == Mark::OpenObject && ls[k + 1].mark == Mark::Comma && ls[k
        + 5].mark == Mark::CloseObject && ls[k + 4].mark == Mark::Text && follows(
        s,
        ls,
        k + 4,
        "precompiled_charsmap"@,
    ) {
        charsmap::kind_of(name_of(s, ls[k + 4]))
    } else {
        Kind::Broken
    }
}

/// A precompiled normalizer has its table, and none stands by itself. A normalizer replaces only what is something,
/// puts something in front, and lists only in members.
pub open spec fn normalizer_sign(s: Seq<u8>, ls: Seq<Lexeme>, k: int, st: State) -> Sign {
    let name = name_of(s, ls[k]);
    if ls[k].mark == Mark::Text {
        if is_word(name, "Precompiled"@) && follows(s, ls, k, "type"@) {
            match table_at(s, ls, k) {
                Kind::Broken => Sign::Broken,
                Kind::Astray => Sign::Wild,
                Kind::Sound => Sign::Erases,
            }
        } else if is_word(name, "Precompiled"@) && follows(s, ls, k - 1, "type"@) {
            Sign::Broken
        } else if is_word(name, "precompiled_charsmap"@) && !follows(s, ls, k - 2, "type"@) {
            Sign::Wild
        } else if name.len() == 0 && (follows(s, ls, k, "String"@) || follows(s, ls, k, "prepend"@)) {
            Sign::Wild
        } else if follows(s, ls, k, "Regex"@) && !is_literal(name) {
            Sign::Wild
        } else if follows(s, ls, k, "content"@) && !shows(name) {
            Sign::Erases
        } else if removes(name) {
            Sign::Removes
        } else {
            Sign::Plain
        }
    } else if ls[k].mark == Mark::OpenList && !st.lists() {
        Sign::Wild
    } else {
        Sign::Plain
    }
}

/// A pre-tokenizer cuts no pieces of length zero, and its patterns do not move where their matches begin.
pub open spec fn pre_tokenizer_sign(s: Seq<u8>, ls: Seq<Lexeme>, k: int) -> Sign {
    if ls[k].mark == Mark::Number && ls[k].end == ls[k].start + 1 && json::at(s, ls[k].start as int)
        == 0x30 && (k < 1 || ls[k - 1].mark != Mark::Colon || follows(s, ls, k, "length"@)) {
        Sign::Unsound
    } else if ls[k].mark == Mark::Text && follows(s, ls, k, "Regex"@) && keeps_out(name_of(s, ls[k]), 0) {
        Sign::Unsound
    } else {
        Sign::Plain
    }
}

/// A post-processor's template for one text does not name a second, and it lists only in members.
pub open spec fn post_processor_sign(s: Seq<u8>, ls: Seq<Lexeme>, k: int, st: State) -> Sign {
    let name = name_of(s, ls[k]);
    if ls[k].mark == Mark::Text {
        if st.template > 0 && is_word(name, "B"@) {
            Sign::Unsound
        } else if st.at_key() && is_word(name, "single"@) {
            Sign::Template
        } else {
            Sign::Plain
        }
    } else if ls[k].mark == Mark::OpenList && !st.lists() {
        Sign::Unsound
    } else {
        Sign::Plain
    }
}

/// Nothing is padded to ten million tokens or more.
pub open spec fn padding_sign(s: Seq<u8>, ls: Seq<Lexeme>, k: int) -> Sign {
    if ls[k].mark == Mark::Number && ls[k].end > ls[k].start + 7 && !follows(s, ls, k, "pad_id"@) && !follows(
        s,
        ls,
        k,
        "pad_type_id"@,
    ) {
        Sign::Unsound
    } else {
        Sign::Plain
    }
}

pub open spec fn added_sign(s: Seq<u8>, ls: Seq<Lexeme>, k: int) -> Sign {
    if ls[k].mark == Mark::Text && follows(s, ls, k, "content"@) && !shows(name_of(s, ls[k])) {
        Sign::Faint
    } else if ls[k].mark != Mark::True {
        Sign::Plain
    } else if follows(s, ls, k, "lstrip"@) {
        Sign::TakesLeft
    } else if follows(s, ls, k, "rstrip"@) {
        Sign::TakesRight
    } else if follows(s, ls, k, "normalized"@) {
        Sign::Normalized
    } else {
        Sign::Plain
    }
}

/// A decoder is JSON in UTF-8 that the parser does not give up on.
pub open spec fn decoder_sign(s: Seq<u8>, ls: Seq<Lexeme>, k: int, st: State) -> Sign {
    let l = ls[k];
    let given_up = match l.mark {
        Mark::Text => l.start > l.end || !utf8::valid_utf8(s.subrange(l.start as int, l.end as int))
            || !json::is_spelled(s, l.start as int, l.end as int),
        Mark::Number => !json::is_finite(s, l.start as int),
        Mark::OpenObject | Mark::OpenList => st.open.len() >= MOST_OPEN,
        _ => false,
    };
    if given_up {
        Sign::Broken
    } else {
        Sign::Plain
    }
}

/// Where the first blank of a text is; its length where there is none.
pub open spec fn blank_from(name: Seq<u8>, i: int) -> int
    decreases name.len() - i,
{
    if 0 <= i < name.len() && name[i] != 0x20 {
        blank_from(name, i + 1)
    } else {
        i
    }
}

/// Whether a line of merges names their version.
pub open spec fn is_version(name: Seq<u8>) -> bool {
    name.len() >= 8 && is_word(name.take(8), "#version"@)
}

/// The sides of a merge that is one text, with a blank between them.
pub open spec fn merge_of(name: Seq<u8>) -> Sign {
    let blank = blank_from(name, 0);
    if is_version(name) || blank >= name.len() {
        Sign::Plain
    } else {
        Sign::Merge((name.len() - 1) as usize, (name.len() - 1 - blank) as usize)
    }
}

/// The two sides of a merge stand in a list of their own, or in one text.
pub open spec fn model_sign(s: Seq<u8>, ls: Seq<Lexeme>, k: int, st: State) -> Sign {
    let name = name_of(s, ls[k]);
    let depth = st.open.len();
    if ls[k].mark == Mark::Number && depth == 2 && follows(s, ls, k, "dropout"@) {
        Sign::Drops
    } else if ls[k].mark != Mark::Text {
        Sign::Plain
    } else if st.at_key() && depth == 2 {
        match field_named(name) {
            Field::Vocab => Sign::Vocab,
            Field::Merges => Sign::Merges,
            Field::Prefix => Sign::Prefix,
            Field::Other => Sign::Plain,
        }
    } else if st.field == Field::Vocab && st.at_key() && depth == 3 {
        Sign::Token(name.len() as usize)
    } else if st.field == Field::Merges && depth == 3 {
        merge_of(name)
    } else if st.field == Field::Merges && depth == 4 && k >= 2 && ls[k - 1].mark == Mark::Comma && ls[k
        - 2].mark == Mark::Text {
        Sign::Merge((name_of(s, ls[k - 2]).len() + name.len()) as usize, name.len() as usize)
    } else if st.field == Field::Prefix && depth == 2 {
        Sign::Prefixed(name.len() as usize)
    } else {
        Sign::Plain
    }
}

/// What lexeme `k` says, standing where it does.
pub open spec fn sign_of(s: Seq<u8>, ls: Seq<Lexeme>, k: int, st: State) -> Sign {
    match st.part {
        Part::Normalizer => normalizer_sign(s, ls, k, st),
        Part::PreTokenizer => pre_tokenizer_sign(s, ls, k),
        Part::PostProcessor => post_processor_sign(s, ls, k, st),
        Part::Padding => padding_sign(s, ls, k),
        Part::AddedTokens => added_sign(s, ls, k),
        Part::Decoder => decoder_sign(s, ls, k, st),
        Part::Model => model_sign(s, ls, k, st),
        Part::Other => Sign::Plain,
    }
}

/// What lexeme `k` of a document says.
#[verifier::opaque]
pub open spec fn sign_at(s: Seq<u8>, ls: Seq<Lexeme>, k: int) -> Sign {
    match state_at(s, ls, k) {
        Some(st) => sign_of(s, ls, k, st),
        None => Sign::Broken,
    }
}

/// Whether one of the first lexemes says this.
#[verifier::opaque]
pub open spec fn says(s: Seq<u8>, ls: Seq<Lexeme>, n: int, sign: Sign) -> bool {
    exists|k: int| 0 <= k < n && #[trigger] sign_at(s, ls, k) == sign
}

/// Whether at most one of the first lexemes says this.
#[verifier::opaque]
pub open spec fn says_once(s: Seq<u8>, ls: Seq<Lexeme>, n: int, sign: Sign) -> bool {
    forall|j: int, k: int|
        0 <= j < k < n && #[trigger] sign_at(s, ls, j) == sign ==> #[trigger] sign_at(s, ls, k) != sign
}

/// Whether a token is at least this long.
pub open spec fn has_token(s: Seq<u8>, ls: Seq<Lexeme>, length: int) -> bool {
    exists|k: int|
        0 <= k < ls.len() && (#[trigger] sign_at(s, ls, k) matches Sign::Token(n) && n >= length)
}

/// How many bytes the prefix has that the first lexemes give to what goes on a word.
pub open spec fn prefix_among(s: Seq<u8>, ls: Seq<Lexeme>, n: int) -> int
    decreases n,
{
    if n <= 0 {
        0
    } else {
        match sign_at(s, ls, n - 1) {
            Sign::Prefixed(p) => p as int,
            _ => prefix_among(s, ls, n - 1),
        }
    }
}

/// Whether merges make nothing longer than the longest token, the prefix taken off the second side.
pub open spec fn merges_fit(s: Seq<u8>, ls: Seq<Lexeme>) -> bool {
    let prefix = prefix_among(s, ls, ls.len() as int);
    forall|k: int|
        0 <= k < ls.len() ==> (#[trigger] sign_at(s, ls, k) matches Sign::Merge(both, second) ==> prefix <= second
            && has_token(s, ls, both - prefix))
}

/// Whether a document's lexemes can be read: none is broken, the model says what it has once, its merges fit, and where
/// an added token is looked for in normalized texts the normalizer is not wild.
pub open spec fn is_safe(s: Seq<u8>, ls: Seq<Lexeme>) -> bool {
    let n = ls.len() as int;
    &&& !says(s, ls, n, Sign::Broken)
    &&& says_once(s, ls, n, Sign::Vocab)
    &&& says_once(s, ls, n, Sign::Merges)
    &&& says_once(s, ls, n, Sign::Prefix)
    &&& !(says(s, ls, n, Sign::Normalized) && says(s, ls, n, Sign::Wild))
    &&& merges_fit(s, ls)
}

/// Whether what a document's lexemes say can be encoded with: nothing is wild or unsound, there is one template, added
/// tokens that show nothing take blanks on one side only, and where one is looked for in normalized texts the
/// normalizer leaves something of it.
pub open spec fn is_sound(s: Seq<u8>, ls: Seq<Lexeme>) -> bool {
    let n = ls.len() as int;
    &&& !says(s, ls, n, Sign::Wild)
    &&& !says(s, ls, n, Sign::Unsound)
    &&& says_once(s, ls, n, Sign::Template)
    &&& !(says(s, ls, n, Sign::TakesLeft) && says(s, ls, n, Sign::TakesRight) && says(s, ls, n, Sign::Faint))
    &&& !(says(s, ls, n, Sign::Normalized) && says(s, ls, n, Sign::Removes) && says(s, ls, n, Sign::Faint))
    &&& !(says(s, ls, n, Sign::Normalized) && says(s, ls, n, Sign::Erases))
}

/// Whether a vocabulary is read: it is a JSON document, and reading it comes to an end.
pub open spec fn readable(json: Seq<u8>) -> bool {
    &&& 2 * json.len() + 12 <= usize::MAX
    &&& json::lexemes_of(json) matches Some(ls) && is_document(json, ls) && is_safe(json, ls)
}

/// Whether texts are encoded with a vocabulary: encoding any of them comes to an end.
pub open spec fn encodable(json: Seq<u8>) -> bool {
    json::lexemes_of(json) matches Some(ls) && is_sound(json, ls)
}

/// Whether a vocabulary leaves nothing to chance: its model drops no merges, and no two of its added tokens are looked
/// for as one.
pub open spec fn steady(json: Seq<u8>) -> bool {
    json::lexemes_of(json) matches Some(ls) && !says(json, ls, ls.len() as int, Sign::Drops) && !says(
        json,
        ls,
        ls.len() as int,
        Sign::Normalized,
    )
}

/// The length of the longest token among the first lexemes.
#[verifier::opaque]
spec fn longest_token(s: Seq<u8>, ls: Seq<Lexeme>, n: int, longest: Option<usize>) -> bool {
    &&& forall|k: int|
        0 <= k < n ==> (#[trigger] sign_at(s, ls, k) matches Sign::Token(m) ==> longest is Some && m
            <= longest->0)
    &&& longest matches Some(m) ==> says(s, ls, n, Sign::Token(m))
}

/// The most bytes that the sides of a merge among the first lexemes have, and the least that a second side has.
#[verifier::opaque]
spec fn merges_among(s: Seq<u8>, ls: Seq<Lexeme>, n: int, extent: Option<(usize, usize)>) -> bool {
    &&& forall|k: int|
        0 <= k < n ==> (#[trigger] sign_at(s, ls, k) matches Sign::Merge(both, second) ==> (extent matches Some(
            (most, least),
        ) && both <= most && second >= least))
    &&& extent matches Some((most, least)) ==> {
        &&& exists|k: int| 0 <= k < n && (#[trigger] sign_at(s, ls, k) matches Sign::Merge(both, _) && both == most)
        &&& exists|k: int|
            0 <= k < n && (#[trigger] sign_at(s, ls, k) matches Sign::Merge(_, second) && second == least)
    }
}

/// What one more lexeme adds to what is said.
proof fn lemma_said(s: Seq<u8>, ls: Seq<Lexeme>, i: int, sign: Sign)
    requires
        i >= 0,
    ensures
        says(s, ls, i + 1, sign) == (says(s, ls, i, sign) || sign_at(s, ls, i) == sign),
        says_once(s, ls, i + 1, sign) == (says_once(s, ls, i, sign) && !(says(s, ls, i, sign) && sign_at(
            s,
            ls,
            i,
        ) == sign)),
{
    reveal(says);
    reveal(says_once);
    if says(s, ls, i, sign) {
        let k = choose|k: int| 0 <= k < i && #[trigger] sign_at(s, ls, k) == sign;
        assert(0 <= k < i + 1 && sign_at(s, ls, k) == sign);
        if sign_at(s, ls, i) == sign {
            assert(!says_once(s, ls, i + 1, sign));
        }
    }
    if says_once(s, ls, i, sign) && !(says(s, ls, i, sign) && sign_at(s, ls, i) == sign) {
        assert forall|j: int, k: int| 0 <= j < k < i + 1 && #[trigger] sign_at(s, ls, j) == sign implies #[trigger] sign_at(
            s,
            ls,
            k,
        ) != sign by {
            if k == i {
                assert(says(s, ls, i, sign));
            }
        }
    }
}

/// The larger of two lengths.
spec fn larger(longest: Option<usize>, n: usize) -> Option<usize> {
    if longest is Some && longest->0 >= n {
        longest
    } else {
        Some(n)
    }
}

/// What a token among the lexemes makes of the longest one.
spec fn with_token(longest: Option<usize>, sign: Sign) -> Option<usize> {
    match sign {
        Sign::Token(n) => larger(longest, n),
        _ => longest,
    }
}

/// What a merge among the lexemes makes of their extent.
spec fn with_merge(extent: Option<(usize, usize)>, sign: Sign) -> Option<(usize, usize)> {
    match sign {
        Sign::Merge(both, second) => match extent {
            None => Some((both, second)),
            Some((most, least)) => Some(
                (
                    if most >= both {
                        most
                    } else {
                        both
                    },
                    if least <= second {
                        least
                    } else {
                        second
                    },
                ),
            ),
        },
        _ => extent,
    }
}

/// What one more lexeme adds to the longest token.
proof fn lemma_token_measured(s: Seq<u8>, ls: Seq<Lexeme>, i: int, token: Option<usize>)
    requires
        i >= 0,
        longest_token(s, ls, i, token),
    ensures
        longest_token(s, ls, i + 1, with_token(token, sign_at(s, ls, i))),
{
    reveal(longest_token);
    if let Some(m) = token {
        lemma_said(s, ls, i, Sign::Token(m));
    }
    lemma_said(s, ls, i, sign_at(s, ls, i));
}

/// What one more lexeme adds to the extent of merges.
proof fn lemma_merge_measured(s: Seq<u8>, ls: Seq<Lexeme>, i: int, extent: Option<(usize, usize)>)
    requires
        i >= 0,
        merges_among(s, ls, i, extent),
    ensures
        merges_among(s, ls, i + 1, with_merge(extent, sign_at(s, ls, i))),
{
    reveal(merges_among);
    let sign = sign_at(s, ls, i);
    if let Some((most, least)) = extent {
        let a = choose|k: int| 0 <= k < i && (#[trigger] sign_at(s, ls, k) matches Sign::Merge(both, _) && both == most);
        let b = choose|k: int|
            0 <= k < i && (#[trigger] sign_at(s, ls, k) matches Sign::Merge(_, second) && second == least);
        assert(sign_at(s, ls, a) is Merge && sign_at(s, ls, b) is Merge);
    }
    assert(sign_at(s, ls, i) == sign);
}

/// Behind a lexeme that may not stand where it does, none does.
proof fn lemma_no_state_past(s: Seq<u8>, ls: Seq<Lexeme>, i: int, n: int)
    requires
        0 < i <= n,
        state_at(s, ls, i) is None,
    ensures
        state_at(s, ls, n) is None,
    decreases n - i,
{
    if i < n {
        assert(state_at(s, ls, i + 1) is None);
        lemma_no_state_past(s, ls, i + 1, n);
    }
}

/// Whether the extent of merges fits the longest token and the prefix.
spec fn extent_fits(token: Option<usize>, extent: Option<(usize, usize)>, prefix: int) -> bool {
    match extent {
        None => true,
        Some((most, least)) => prefix <= least && token is Some && most - prefix <= token->0,
    }
}

/// Merges fit where their extent does.
proof fn lemma_merges_fit(s: Seq<u8>, ls: Seq<Lexeme>, token: Option<usize>, extent: Option<(usize, usize)>)
    requires
        longest_token(s, ls, ls.len() as int, token),
        merges_among(s, ls, ls.len() as int, extent),
    ensures
        extent_fits(token, extent, prefix_among(s, ls, ls.len() as int)) == merges_fit(s, ls),
{
    reveal(longest_token);
    reveal(merges_among);
    reveal(says);
    let n = ls.len() as int;
    let prefix = prefix_among(s, ls, n);
    if extent_fits(token, extent, prefix) {
        assert forall|k: int| 0 <= k < n implies (#[trigger] sign_at(s, ls, k) matches Sign::Merge(
            both,
            second,
        ) ==> prefix <= second && has_token(s, ls, both - prefix)) by {
            if let Sign::Merge(both, second) = sign_at(s, ls, k) {
                let t = choose|t: int| 0 <= t < n && #[trigger] sign_at(s, ls, t) == Sign::Token(token->0);
                assert(sign_at(s, ls, t) == Sign::Token(token->0));
            }
        }
    }
    if merges_fit(s, ls) && extent is Some {
        let (most, least) = extent->0;
        let a = choose|k: int| 0 <= k < n && (#[trigger] sign_at(s, ls, k) matches Sign::Merge(both, _) && both == most);
        let b = choose|k: int|
            0 <= k < n && (#[trigger] sign_at(s, ls, k) matches Sign::Merge(_, second) && second == least);
        assert(sign_at(s, ls, a) is Merge && sign_at(s, ls, b) is Merge);
        assert(has_token(s, ls, most - prefix));
        let t = choose|t: int|
            0 <= t < n && (#[trigger] sign_at(s, ls, t) matches Sign::Token(m) && m >= most - prefix);
        assert(sign_at(s, ls, t) is Token);
    }
}

fn is_value_of(s: &[u8], ls: &Vec<Lexeme>, k: usize, word: &str) -> (yes: bool)
    requires
        k < ls@.len(),
        forall|i: int| 0 <= i < ls@.len() ==> (#[trigger] ls@[i]).end <= s@.len(),
        2 * s@.len() + 12 <= usize::MAX,
    ensures
        yes == follows(s@, ls@, k as int, word@),
{
    if k < 2 || ls[k - 1].mark != Mark::Colon || ls[k - 2].mark != Mark::Text {
        return false;
    }
    let key = find_name(s, ls[k - 2]);
    spells(&key, word)
}

fn is_remover(name: &Vec<u8>) -> (yes: bool)
    ensures
        yes == removes(name@),
{
    spells(name, "Strip") || spells(name, "StripAccents") || spells(name, "Nmt") || spells(name, "Bert")
        || spells(name, "BertNormalizer") || spells(name, "strip_left") || spells(name, "clean_text")
}

fn is_shown(name: &Vec<u8>) -> (yes: bool)
    ensures
        yes == shows(name@),
{
    let mut i: usize = 0;
    while i < name.len()
        invariant
            i <= name@.len(),
            forall|j: int| 0 <= j < i ==> !(0x21 <= #[trigger] name@[j] <= 0x7e),
        decreases name@.len() - i,
    {
        if 0x21 <= name[i] && name[i] <= 0x7e {
            return true;
        }
        i += 1;
    }
    false
}

fn has_keep_out(name: &Vec<u8>) -> (yes: bool)
    ensures
        yes == keeps_out(name@, 0),
{
    let mut i: usize = 0;
    while i < name.len() && name.len() - i > 1
        invariant
            i <= name@.len(),
            keeps_out(name@, 0) == keeps_out(name@, i as int),
        decreases name@.len() - i,
    {
        if name[i] == 0x5c {
            if name[i + 1] == 0x4b {
                return true;
            }
            i += 2;
        } else {
            i += 1;
        }
    }
    false
}

fn has_no_meta(name: &Vec<u8>) -> (yes: bool)
    ensures
        yes == is_literal(name@),
{
    let n: usize = name.len();
    let end: usize = if n >= 1 && name[n - 1] == 0x2b {
        n - 1
    } else if n >= 4 && name[n - 4] == 0x7b && name[n - 3] == 0x32 && name[n - 2] == 0x2c && name[n - 1] == 0x7d {
        n - 4
    } else {
        n
    };
    let mut i: usize = 0;
    while i < end
        invariant
            i <= end <= name@.len(),
            end == unrepeated(name@),
            forall|j: int| 0 <= j < i ==> !is_meta(#[trigger] name@[j]),
        decreases end - i,
    {
        let b: u8 = name[i];
        if b == 0x2e || b == 0x5e || b == 0x24 || b == 0x2a || b == 0x2b || b == 0x3f || b == 0x28 || b == 0x29 || b
            == 0x5b || b == 0x5d || b == 0x7b || b == 0x7d || b == 0x7c || b == 0x5c {
            assert(is_meta(name@[i as int]));
            return false;
        }
        i += 1;
    }
    end > 0
}

fn find_merge(name: &Vec<u8>) -> (sign: Sign)
    ensures
        sign == merge_of(name@),
{
    let mut blank: usize = 0;
    while blank < name.len() && name[blank] != 0x20
        invariant
            blank <= name@.len(),
            blank_from(name@, 0) == blank_from(name@, blank as int),
        decreases name@.len() - blank,
    {
        blank += 1;
    }
    if blank == name.len() {
        return Sign::Plain;
    }
    if name.len() >= 8 {
        let start: &[u8] = vstd::slice::slice_subrange(name.as_slice(), 0, 8);
        assert(start@ =~= name@.take(8));
        if bytes::same(start, "#version".as_bytes()) {
            return Sign::Plain;
        }
    }
    Sign::Merge(name.len() - 1, name.len() - 1 - blank)
}

fn find_table(s: &[u8], ls: &Vec<Lexeme>, k: usize) -> (kind: Kind)
    requires
        k < ls@.len(),
        forall|i: int| 0 <= i < ls@.len() ==> (#[trigger] ls@[i]).end <= s@.len(),
        2 * s@.len() + 12 <= usize::MAX,
    ensures
        kind == table_at(s@, ls@, k as int),
{
    if k >= 3 && ls.len() - k > 5 && ls[k - 3].mark == Mark::OpenObject && ls[k + 1].mark == Mark::Comma && ls[k
        + 5].mark == Mark::CloseObject && ls[k + 4].mark == Mark::Text && is_value_of(
        s,
        ls,
        k + 4,
        "precompiled_charsmap",
    ) {
        let text = find_name(s, ls[k + 4]);
        charsmap::kind(text.as_slice())
    } else {
        Kind::Broken
    }
}

impl Walk {
    fn at_key_here(&self) -> (yes: bool)
        ensures
            yes == self@.at_key(),
    {
        self.phase == Phase::FirstKey || self.phase == Phase::Key
    }

    fn lists_here(&self) -> (yes: bool)
        ensures
            yes == self@.lists(),
    {
        let n: usize = self.open.len();
        self.phase == Phase::Value && n >= 2 && self.open[n - 1]
    }

    /// What lexeme `k` says here.
    fn sign(&self, s: &[u8], ls: &Vec<Lexeme>, k: usize, name: &Vec<u8>) -> (sign: Sign)
        requires
            self.wf(),
            k < ls@.len(),
            forall|i: int| 0 <= i < ls@.len() ==> (#[trigger] ls@[i]).end <= s@.len(),
            2 * s@.len() + 12 <= usize::MAX,
            name@ == name_of(s@, ls@[k as int]),
        ensures
            sign == sign_of(s@, ls@, k as int, self@),
    {
        let l = ls[k];
        match self.part {
            Part::Normalizer => self.normalizer_sign_here(s, ls, k, name),
            Part::PreTokenizer => if l.mark == Mark::Number && l.end > l.start && l.end - l.start == 1
                && s[l.start] == 0x30 && (k < 1 || ls[k - 1].mark != Mark::Colon || is_value_of(s, ls, k, "length")) {
                Sign::Unsound
            } else if l.mark == Mark::Text && is_value_of(s, ls, k, "Regex") && has_keep_out(name) {
                Sign::Unsound
            } else {
                Sign::Plain
            },
            Part::PostProcessor => if l.mark == Mark::Text {
                if self.template > 0 && spells(name, "B") {
                    Sign::Unsound
                } else if self.at_key_here() && spells(name, "single") {
                    Sign::Template
                } else {
                    Sign::Plain
                }
            } else if l.mark == Mark::OpenList && !self.lists_here() {
                Sign::Unsound
            } else {
                Sign::Plain
            },
            Part::Padding => if l.mark == Mark::Number && l.end > l.start && l.end - l.start > 7 && !is_value_of(
                s,
                ls,
                k,
                "pad_id",
            ) && !is_value_of(s, ls, k, "pad_type_id") {
                Sign::Unsound
            } else {
                Sign::Plain
            },
            Part::AddedTokens => if l.mark == Mark::Text && is_value_of(s, ls, k, "content") && !is_shown(name) {
                Sign::Faint
            } else if l.mark != Mark::True {
                Sign::Plain
            } else if is_value_of(s, ls, k, "lstrip") {
                Sign::TakesLeft
            } else if is_value_of(s, ls, k, "rstrip") {
                Sign::TakesRight
            } else if is_value_of(s, ls, k, "normalized") {
                Sign::Normalized
            } else {
                Sign::Plain
            },
            Part::Decoder => self.decoder_sign_here(s, l, Ghost(ls@), Ghost(k as int)),
            Part::Model => self.model_sign_here(s, ls, k, name),
            Part::Other => Sign::Plain,
        }
    }

    fn normalizer_sign_here(&self, s: &[u8], ls: &Vec<Lexeme>, k: usize, name: &Vec<u8>) -> (sign: Sign)
        requires
            k < ls@.len(),
            forall|i: int| 0 <= i < ls@.len() ==> (#[trigger] ls@[i]).end <= s@.len(),
            2 * s@.len() + 12 <= usize::MAX,
            name@ == name_of(s@, ls@[k as int]),
        ensures
            sign == normalizer_sign(s@, ls@, k as int, self@),
    {
        if ls[k].mark == Mark::Text {
            let precompiled = spells(name, "Precompiled");
            if precompiled && is_value_of(s, ls, k, "type") {
                match find_table(s, ls, k) {
                    Kind::Broken => Sign::Broken,
                    Kind::Astray => Sign::Wild,
                    Kind::Sound => Sign::Erases,
                }
            } else if precompiled && k >= 1 && is_value_of(s, ls, k - 1, "type") {
                Sign::Broken
            } else if spells(name, "precompiled_charsmap") && !(k >= 2 && is_value_of(s, ls, k - 2, "type")) {
                Sign::Wild
            } else if name.len() == 0 && (is_value_of(s, ls, k, "String") || is_value_of(s, ls, k, "prepend")) {
                Sign::Wild
            } else if is_value_of(s, ls, k, "Regex") && !has_no_meta(name) {
                Sign::Wild
            } else if is_value_of(s, ls, k, "content") && !is_shown(name) {
                Sign::Erases
            } else if is_remover(name) {
                Sign::Removes
            } else {
                Sign::Plain
            }
        } else if ls[k].mark == Mark::OpenList && !self.lists_here() {
            Sign::Wild
        } else {
            Sign::Plain
        }
    }

    fn decoder_sign_here(
        &self,
        s: &[u8],
        l: Lexeme,
        Ghost(ls): Ghost<Seq<Lexeme>>,
        Ghost(k): Ghost<int>,
    ) -> (sign: Sign)
        requires
            l == ls[k],
            l.end <= s@.len(),
            2 * s@.len() + 12 <= usize::MAX,
        ensures
            sign == decoder_sign(s@, ls, k, self@),
    {
        let given_up = match l.mark {
            Mark::Text => {
                if l.start > l.end {
                    true
                } else {
                    let text: &[u8] = vstd::slice::slice_subrange(s, l.start, l.end);
                    !charsmap::is_utf8(text) || !json::spells_all(s, l)
                }
            },
            Mark::Number => !json::finite(s, l),
            Mark::OpenObject | Mark::OpenList => self.open.len() >= MOST_OPEN,
            _ => false,
        };
        if given_up {
            Sign::Broken
        } else {
            Sign::Plain
        }
    }

    fn model_sign_here(&self, s: &[u8], ls: &Vec<Lexeme>, k: usize, name: &Vec<u8>) -> (sign: Sign)
        requires
            self.wf(),
            k < ls@.len(),
            forall|i: int| 0 <= i < ls@.len() ==> (#[trigger] ls@[i]).end <= s@.len(),
            2 * s@.len() + 12 <= usize::MAX,
            name@ == name_of(s@, ls@[k as int]),
        ensures
            sign == model_sign(s@, ls@, k as int, self@),
    {
        let depth: usize = self.open.len();
        if ls[k].mark == Mark::Number && depth == 2 && is_value_of(s, ls, k, "dropout") {
            Sign::Drops
        } else if ls[k].mark != Mark::Text {
            Sign::Plain
        } else if self.at_key_here() && depth == 2 {
            match find_field(name) {
                Field::Vocab => Sign::Vocab,
                Field::Merges => Sign::Merges,
                Field::Prefix => Sign::Prefix,
                Field::Other => Sign::Plain,
            }
        } else if self.field == Field::Vocab && self.at_key_here() && depth == 3 {
            Sign::Token(name.len())
        } else if self.field == Field::Merges && depth == 3 {
            find_merge(name)
        } else if self.field == Field::Merges && depth == 4 && k >= 2 && ls[k - 1].mark == Mark::Comma
            && ls[k - 2].mark == Mark::Text {
            let left = find_name(s, ls[k - 2]);
            proof {
                json::lemma_spelled_is_no_longer(s@, ls@[k - 2].start as int, ls@[k - 2].end as int);
                json::lemma_spelled_is_no_longer(s@, ls@[k as int].start as int, ls@[k as int].end as int);
            }
            Sign::Merge(left.len() + name.len(), name.len())
        } else if self.field == Field::Prefix && depth == 2 {
            Sign::Prefixed(name.len())
        } else {
            Sign::Plain
        }
    }
}

/// What the lexemes so far said.
struct Tally {
    broken: bool,
    wild: bool,
    unsound: bool,
    template: bool,
    vocab: bool,
    merges: bool,
    prefix: bool,
    left: bool,
    right: bool,
    normalized: bool,
    faint: bool,
    removed: bool,
    erased: bool,
    dropped: bool,
    /// whether what the model has was said twice, and whether the template was
    twice: bool,
    templates: bool,
    token: Option<usize>,
    merge: Option<(usize, usize)>,
    prefixed: usize,
}

impl Tally {
    /// Whether this is what the first lexemes say.
    spec fn tells(&self, s: Seq<u8>, ls: Seq<Lexeme>, n: int) -> bool {
        &&& self.broken == says(s, ls, n, Sign::Broken)
        &&& self.wild == says(s, ls, n, Sign::Wild)
        &&& self.unsound == says(s, ls, n, Sign::Unsound)
        &&& self.template == says(s, ls, n, Sign::Template)
        &&& self.vocab == says(s, ls, n, Sign::Vocab)
        &&& self.merges == says(s, ls, n, Sign::Merges)
        &&& self.prefix == says(s, ls, n, Sign::Prefix)
        &&& self.left == says(s, ls, n, Sign::TakesLeft)
        &&& self.right == says(s, ls, n, Sign::TakesRight)
        &&& self.normalized == says(s, ls, n, Sign::Normalized)
        &&& self.faint == says(s, ls, n, Sign::Faint)
        &&& self.removed == says(s, ls, n, Sign::Removes)
        &&& self.erased == says(s, ls, n, Sign::Erases)
        &&& self.dropped == says(s, ls, n, Sign::Drops)
        &&& self.twice == !(says_once(s, ls, n, Sign::Vocab) && says_once(s, ls, n, Sign::Merges) && says_once(
            s,
            ls,
            n,
            Sign::Prefix,
        ))
        &&& self.templates == !says_once(s, ls, n, Sign::Template)
        &&& longest_token(s, ls, n, self.token)
        &&& merges_among(s, ls, n, self.merge)
        &&& self.prefixed == prefix_among(s, ls, n)
    }

    fn start(Ghost(s): Ghost<Seq<u8>>, Ghost(ls): Ghost<Seq<Lexeme>>) -> (t: Self)
        ensures
            t.tells(s, ls, 0),
    {
        proof {
            reveal(says);
            reveal(says_once);
            reveal(longest_token);
            reveal(merges_among);
        }
        Tally {
            broken: false,
            wild: false,
            unsound: false,
            template: false,
            vocab: false,
            merges: false,
            prefix: false,
            left: false,
            right: false,
            normalized: false,
            faint: false,
            removed: false,
            erased: false,
            dropped: false,
            twice: false,
            templates: false,
            token: None,
            merge: None,
            prefixed: 0,
        }
    }

    /// With what one more lexeme says.
    fn with(
        self,
        sign: Sign,
        Ghost(s): Ghost<Seq<u8>>,
        Ghost(ls): Ghost<Seq<Lexeme>>,
        Ghost(i): Ghost<int>,
    ) -> (t: Self)
        requires
            i >= 0,
            self.tells(s, ls, i),
            sign == sign_at(s, ls, i),
        ensures
            t.tells(s, ls, i + 1),
    {
        proof {
            lemma_said(s, ls, i, Sign::Broken);
            lemma_said(s, ls, i, Sign::Wild);
            lemma_said(s, ls, i, Sign::Unsound);
            lemma_said(s, ls, i, Sign::Template);
            lemma_said(s, ls, i, Sign::Vocab);
            lemma_said(s, ls, i, Sign::Merges);
            lemma_said(s, ls, i, Sign::Prefix);
            lemma_said(s, ls, i, Sign::TakesLeft);
            lemma_said(s, ls, i, Sign::TakesRight);
            lemma_said(s, ls, i, Sign::Normalized);
            lemma_said(s, ls, i, Sign::Faint);
            lemma_said(s, ls, i, Sign::Removes);
            lemma_said(s, ls, i, Sign::Erases);
            lemma_said(s, ls, i, Sign::Drops);
            lemma_token_measured(s, ls, i, self.token);
            lemma_merge_measured(s, ls, i, self.merge);
        }
        Tally {
            broken: self.broken || sign == Sign::Broken,
            wild: self.wild || sign == Sign::Wild,
            unsound: self.unsound || sign == Sign::Unsound,
            template: self.template || sign == Sign::Template,
            vocab: self.vocab || sign == Sign::Vocab,
            merges: self.merges || sign == Sign::Merges,
            prefix: self.prefix || sign == Sign::Prefix,
            left: self.left || sign == Sign::TakesLeft,
            right: self.right || sign == Sign::TakesRight,
            normalized: self.normalized || sign == Sign::Normalized,
            faint: self.faint || sign == Sign::Faint,
            removed: self.removed || sign == Sign::Removes,
            erased: self.erased || sign == Sign::Erases,
            dropped: self.dropped || sign == Sign::Drops,
            twice: self.twice || (self.vocab && sign == Sign::Vocab) || (self.merges && sign == Sign::Merges) || (
            self.prefix && sign == Sign::Prefix),
            templates: self.templates || (self.template && sign == Sign::Template),
            token: match sign {
                Sign::Token(n) => match self.token {
                    Some(m) => if m >= n {
                        Some(m)
                    } else {
                        Some(n)
                    },
                    None => Some(n),
                },
                _ => self.token,
            },
            merge: match sign {
                Sign::Merge(both, second) => match self.merge {
                    None => Some((both, second)),
                    Some((most, least)) => Some(
                        (
                            if most >= both {
                                most
                            } else {
                                both
                            },
                            if least <= second {
                                least
                            } else {
                                second
                            },
                        ),
                    ),
                },
                _ => self.merge,
            },
            prefixed: match sign {
                Sign::Prefixed(p) => p,
                _ => self.prefixed,
            },
        }
    }

    /// Whether what all lexemes said can be read.
    fn is_read(&self, Ghost(s): Ghost<Seq<u8>>, Ghost(ls): Ghost<Seq<Lexeme>>) -> (yes: bool)
        requires
            self.tells(s, ls, ls.len() as int),
        ensures
            yes == is_safe(s, ls),
    {
        proof {
            lemma_merges_fit(s, ls, self.token, self.merge);
        }
        let fits = match self.merge {
            None => true,
            Some((most, least)) => match self.token {
                Some(t) => self.prefixed <= least && (most <= self.prefixed || most - self.prefixed <= t),
                None => false,
            },
        };
        !self.broken && !self.twice && !(self.normalized && self.wild) && fits
    }

    /// Whether what all lexemes said can be encoded with.
    fn is_encoded(&self, Ghost(s): Ghost<Seq<u8>>, Ghost(ls): Ghost<Seq<Lexeme>>) -> (yes: bool)
        requires
            self.tells(s, ls, ls.len() as int),
        ensures
            yes == is_sound(s, ls),
    {
        !self.wild && !self.unsound && !self.templates && !(self.left && self.right && self.faint) && !(self.normalized
            && self.removed && self.faint) && !(self.normalized && self.erased)
    }
}

/// What a document is good for.
#[derive(Clone, Copy, Debug, PartialEq, Eq, Structural)]
pub struct Fitness {
    /// whether it is read
    pub read: bool,
    /// whether texts are encoded with it
    pub encodes: bool,
    /// whether it leaves nothing to chance
    pub steady: bool,
}

/// What a document is good for. One that is not read is good for nothing else.
pub fn fitness(bytes: &[u8]) -> (fit: Fitness)
    ensures
        fit.read == readable(bytes@),
        fit.encodes == (readable(bytes@) && encodable(bytes@)),
        fit.steady == (readable(bytes@) && steady(bytes@)),
{
    let unfit = Fitness { read: false, encodes: false, steady: false };
    if bytes.len() > (usize::MAX - 12) / 2 {
        return unfit;
    }
    let ls = match json::lexemes(bytes) {
        Some(ls) => ls,
        None => {
            return unfit;
        },
    };
    let mut walk = Walk::start();
    let mut tally = Tally::start(Ghost(bytes@), Ghost(ls@));
    let mut i: usize = 0;
    while i < ls.len()
        invariant
            i <= ls@.len(),
            2 * bytes@.len() + 12 <= usize::MAX,
            forall|k: int| 0 <= k < ls@.len() ==> (#[trigger] ls@[k]).end <= bytes@.len(),
            json::lexemes_of(bytes@) == Some(ls@),
            unfit == (Fitness { read: false, encodes: false, steady: false }),
            walk.wf(),
            state_at(bytes@, ls@, i as int) == Some(walk@),
            tally.tells(bytes@, ls@, i as int),
        decreases ls@.len() - i,
    {
        let name = find_name(bytes, ls[i]);
        let sign = walk.sign(bytes, &ls, i, &name);
        assert(sign == sign_at(bytes@, ls@, i as int)) by {
            reveal(sign_at);
        }
        tally = tally.with(sign, Ghost(bytes@), Ghost(ls@), Ghost(i as int));
        let mark = ls[i].mark;
        if !walk.step(mark, &name) {
            proof {
                lemma_no_state_past(bytes@, ls@, i + 1, ls@.len() as int);
            }
            return unfit;
        }
        i += 1;
    }
    let read = walk.phase == Phase::After && walk.open.len() == 0 && tally.is_read(Ghost(bytes@), Ghost(ls@));
    Fitness {
        read,
        encodes: read && tally.is_encoded(Ghost(bytes@), Ghost(ls@)),
        steady: read && !tally.dropped && !tally.normalized,
    }
}

} // verus!
