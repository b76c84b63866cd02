//! Engines and sessions: what a loaded model and a conversation with it offer.

use crate::sampler::SamplingParams;
use crate::text;
use crate::text::{decimal_of, joined};
use vstd::prelude::*;

verus! {

/// What can go wrong with an engine or a session.
#[derive(Debug)]
pub enum EngineError {
    /// Reading or writing failed.
    Io(String),
    /// A tensor or a metadata key is missing.
    Missing(String),
    /// A shape is not the one that is needed.
    ShapeMismatch {
        /// What has the shape.
        what: String,
        /// The shape that is needed.
        expected: String,
        /// The shape that it has.
        actual: String,
    },
    /// The key/value cache failed.
    KvCache(String),
    /// There is no room for another token before a reset.
    ContextFull {
        /// How many tokens there are.
        filled: usize,
        /// How many there is room for.
        capacity: usize,
    },
    /// Something is not there yet.
    NotImplemented(String),
}

impl EngineError {
    /// What the user is told.
    pub open spec fn told(self) -> Seq<char> {
        match self {
            EngineError::Io(s) => "io: "@ + s@,
            EngineError::Missing(s) => "missing: "@ + s@,
            EngineError::ShapeMismatch { what, expected, actual } => "shape mismatch: "@ + what@
                + " expected "@ + expected@ + ", got "@ + actual@,
            EngineError::KvCache(s) => "kv-cache: "@ + s@,
            EngineError::ContextFull { filled, capacity } => "context full: "@ + text::decimal(
                filled as nat,
            ) + " of "@ + text::decimal(capacity as nat) + " tokens"@,
            EngineError::NotImplemented(s) => "not yet implemented: "@ + s@,
        }
    }

    /// What the user is told.
    pub fn message(&self) -> (s: String)
        ensures
            s@ == self.told(),
    {
        match self {
            EngineError::Io(s) => joined("io: ", s.as_str()),
            EngineError::Missing(s) => joined("missing: ", s.as_str()),
            EngineError::ShapeMismatch { what, expected, actual } => {
                let mut s: String = joined("shape mismatch: ", what.as_str());
                s.append(" expected ");
                s.append(expected.as_str());
                s.append(", got ");
                s.append(actual.as_str());
                s
            },
            EngineError::KvCache(s) => joined("kv-cache: ", s.as_str()),
            EngineError::ContextFull { filled, capacity } => {
                let mut s: String = "context full: ".to_owned();
                s.append(decimal_of(*filled as u64).as_str());
                s.append(" of ");
                s.append(decimal_of(*capacity as u64).as_str());
                s.append(" tokens");
                s
            },
            EngineError::NotImplemented(s) => joined("not yet implemented: ", s.as_str()),
        }
    }
}

/// What comes out of a decode step.
#[derive(Debug, Clone)]
pub struct DecodeStep {
    /// The token that was drawn.
    pub token_id: u32,
    /// The probability of each token of the vocabulary, as bits.
    pub probs: Vec<u32>,
}

/// A loaded model.
pub trait Engine {
    /// A conversation with it.
    type Session<'engine>: Session where Self: 'engine;

    /// How many tokens it knows.
    closed spec fn vocabulary(&self) -> nat {
        0
    }

    /// How many tokens a session can hold at most.
    closed spec fn context_limit(&self) -> nat {
        0
    }

    /// Name of the architecture.
    fn architecture(&self) -> &'static str;

    /// How many tokens it knows.
    fn vocab_size(&self) -> (n: usize)
        ensures
            n == self.vocabulary(),
    ;

    /// How many tokens a session can hold at most.
    fn max_ctx_size(&self) -> (n: usize)
        ensures
            n == self.context_limit(),
    ;

    /// Starts a session with room for `ctx_size` tokens. More than
    /// `max_ctx_size` is a shape mismatch.
    fn start_session(&self, ctx_size: usize, params: SamplingParams) -> (r: Result<
        Self::Session<'_>,
        EngineError,
    >)
        ensures
            ctx_size > self.context_limit() ==> r is Err && r->Err_0 is ShapeMismatch,
            match r {
                Ok(s) => s.history() == Seq::<u32>::empty() && s.room() == ctx_size && s.vocabulary()
                    == self.vocabulary(),
                Err(_) => true,
            },
    ;
}

/// A conversation with a model.
pub trait Session {
    /// The tokens that were taken in, the first one first.
    closed spec fn history(&self) -> Seq<u32> {
        Seq::empty()
    }

    /// How many tokens there is room for.
    closed spec fn room(&self) -> nat {
        0
    }

    /// How many tokens the model knows.
    closed spec fn vocabulary(&self) -> nat {
        0
    }

    /// How many tokens there are: those of prompts and those that were decoded.
    fn position(&self) -> (n: usize)
        ensures
            n == self.history().len(),
    ;

    /// How many tokens there is room for.
    fn capacity(&self) -> (n: usize)
        ensures
            n == self.room(),
    ;

    /// Takes tokens in and gives the logits of the token after the last, as
    /// bits. Tokens that there is no room for are refused.
    fn prefill(&mut self, tokens: &[u32]) -> (r: Result<Vec<u32>, EngineError>)
        ensures
            final(self).room() == old(self).room(),
            final(self).vocabulary() == old(self).vocabulary(),
            old(self).history().len() + tokens@.len() > old(self).room() ==> r is Err
                && r->Err_0 is ContextFull && final(self).history() == old(self).history(),
            match r {
                Ok(logits) => final(self).history() == old(self).history() + tokens@
                    && logits@.len() == old(self).vocabulary(),
                Err(_) => true,
            },
    ;

    /// Takes a token in and draws the next. Without room for one more it is
    /// refused.
    fn decode_one(&mut self, last_token: u32) -> (r: Result<DecodeStep, EngineError>)
        ensures
            final(self).room() == old(self).room(),
            final(self).vocabulary() == old(self).vocabulary(),
            old(self).history().len() >= old(self).room() ==> r is Err && r->Err_0 is ContextFull
                && final(self).history() == old(self).history(),
            match r {
                Ok(step) => final(self).history() == old(self).history().push(last_token)
                    && step.probs@.len() == old(self).vocabulary(),
                Err(_) => true,
            },
    ;

    /// Forgets all tokens.
    fn reset(&mut self)
        ensures
            final(self).history() == Seq::<u32>::empty(),
            final(self).room() == old(self).room(),
            final(self).vocabulary() == old(self).vocabulary(),
    ;
}

} // verus!
