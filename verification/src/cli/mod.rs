//! What the command line program decides and shows.

pub mod args;
pub mod dump;
pub mod info;
pub mod inspect;
pub mod launch;
pub mod repl;
pub mod turn;
pub mod words;

use crate::gguf;
use crate::text::joined;
use vstd::prelude::*;

verus! {

/// What ends the program, or a turn of it, early.
#[derive(Debug, PartialEq, Eq)]
pub enum CliError {
    /// Reading or writing failed.
    Io(String),
    /// A model file could not be read.
    Gguf(gguf::error::Error),
    /// A command or a message cannot be carried out.
    BadCommand(String),
    /// A model is needed and none was given.
    ModelRequired(String),
    /// Something is not there yet.
    NotImplemented(String),
}

/// What an error is about, and what goes with it.
#[verifier::ext_equal]
pub enum CliErrorView {
    Io(Seq<char>),
    Gguf(gguf::error::ErrorView),
    BadCommand(Seq<char>),
    ModelRequired(Seq<char>),
    NotImplemented(Seq<char>),
}

impl View for CliError {
    type V = CliErrorView;

    open spec fn view(&self) -> CliErrorView {
        match *self {
            CliError::Io(s) => CliErrorView::Io(s@),
            CliError::Gguf(e) => CliErrorView::Gguf(e@),
            CliError::BadCommand(s) => CliErrorView::BadCommand(s@),
            CliError::ModelRequired(s) => CliErrorView::ModelRequired(s@),
            CliError::NotImplemented(s) => CliErrorView::NotImplemented(s@),
        }
    }
}

impl CliErrorView {
    /// What the user is told.
    pub open spec fn told(self) -> Seq<char> {
        match self {
            CliErrorView::Io(s) => "io error: "@ + s,
            CliErrorView::Gguf(e) => "gguf error: "@ + e.told(),
            CliErrorView::BadCommand(s) => "bad command: "@ + s,
            CliErrorView::ModelRequired(s) => "model required: "@ + s,
            CliErrorView::NotImplemented(s) => "not yet implemented: "@ + s,
        }
    }
}

impl CliError {
    /// What the user is told.
    pub fn message(&self) -> (s: String)
        ensures
            s@ == self@.told(),
    {
        match self {
            CliError::Io(s) => joined("io error: ", s.as_str()),
            CliError::Gguf(e) => joined("gguf error: ", e.message().as_str()),
            CliError::BadCommand(s) => joined("bad command: ", s.as_str()),
            CliError::ModelRequired(s) => joined("model required: ", s.as_str()),
            CliError::NotImplemented(s) => joined("not yet implemented: ", s.as_str()),
        }
    }
}

} // verus!
