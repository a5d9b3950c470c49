//! The crate's error type.
//!
//! A caller's mistake and the pipeline's own failure map to different codes at the C boundary, and the
//! call sites choose between them deliberately.
use vstd::prelude::*;
use vstd::string::StringExecFns;

use crate::{checkpoint, compile, hrx, text, tokenizer, weights};

verus! {

#[derive(Debug)]
pub enum Error {
    Checkpoint(checkpoint::Error),
    Weights(weights::Error),
    Compile(compile::Error),
    Runtime(hrx::Error),
    Tokenizer(tokenizer::Error),
    /// The caller asked for something it may not: a shape the model does not do, a missing checkpoint.
    Invalid(String),
    /// A progress callback asked the run to stop.
    Cancelled,
    Other(String),
}

pub type Result<T> = std::result::Result<T, Error>;

impl Error {
    /// What the error says.
    pub open spec fn text(self) -> Seq<char> {
        match self {
            Error::Checkpoint(e) => e.text(),
            Error::Weights(e) => e.text(),
            Error::Compile(e) => e.text(),
            Error::Runtime(e) => e.0@,
            Error::Tokenizer(e) => "tokenizer: "@ + e.text(),
            Error::Invalid(message) => message@,
            Error::Cancelled => "cancelled"@,
            Error::Other(message) => message@,
        }
    }

    /// What the error says: every layer keeps its own words.
    pub fn message(&self) -> (text: String)
        ensures
            text@ == self.text(),
    {
        match self {
            Error::Checkpoint(e) => e.message(),
            Error::Weights(e) => e.message(),
            Error::Compile(e) => e.message(),
            Error::Runtime(e) => e.0.clone(),
            Error::Tokenizer(e) => {
                let words = e.message();
                text::cat2("tokenizer: ", words.as_str())
            },
            Error::Invalid(message) => message.clone(),
            Error::Cancelled => String::from_str("cancelled"),
            Error::Other(message) => message.clone(),
        }
    }
}

/// The code this error becomes at the C boundary.
pub fn code(e: &Error) -> (code: i32)
    ensures
        code == match e {
            Error::Cancelled => 2i32,
            Error::Invalid(_) => 64,
            _ => 1,
        },
{
    match e {
        Error::Cancelled => 2,
        Error::Invalid(_) => 64,
        _ => 1,
    }
}

/// Whether an error is a caller's mistake, in these words.
pub open spec fn blames(error: Error, words: Seq<char>) -> bool {
    error matches Error::Invalid(message) && message@ == words
}

pub fn invalid<T>(message: String) -> (result: Result<T>)
    ensures
        result matches Err(Error::Invalid(m)) && m@ == message@,
{
    Err(Error::Invalid(message))
}

pub fn other<T>(message: String) -> (result: Result<T>)
    ensures
        result matches Err(Error::Other(m)) && m@ == message@,
{
    Err(Error::Other(message))
}

} // verus!
