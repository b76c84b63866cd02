//! What the program does when it starts.

use crate::cli::args::RunFlags;
use crate::cli::repl;
use crate::cli::{CliError, CliErrorView};
use crate::text::joined;
use vstd::prelude::*;

verus! {

/// What the program does where no other command is given.
#[derive(Debug)]
pub enum Launch {
    /// Answer a text.
    OneShot(String),
    /// Answer the text in a file.
    OneShotFile(String),
    /// Say how the program is used.
    Banner,
    /// Say that a model is missing, and how the program is used.
    NoModel,
    /// Hold a session with the model at this path.
    Repl(String),
}

/// What the program does where no other command is given.
#[verifier::ext_equal]
pub enum LaunchView {
    OneShot(Seq<char>),
    OneShotFile(Seq<char>),
    Banner,
    NoModel,
    Repl(Seq<char>),
}

impl View for Launch {
    type V = LaunchView;

    open spec fn view(&self) -> LaunchView {
        match *self {
            Launch::OneShot(s) => LaunchView::OneShot(s@),
            Launch::OneShotFile(s) => LaunchView::OneShotFile(s@),
            Launch::Banner => LaunchView::Banner,
            Launch::NoModel => LaunchView::NoModel,
            Launch::Repl(s) => LaunchView::Repl(s@),
        }
    }
}

/// A text to answer comes first, then a file with one; without them a session
/// needs a person at the terminal and a model.
pub open spec fn launched(
    prompt: Option<Seq<char>>,
    prompt_file: Option<Seq<char>>,
    terminal: bool,
    model: Option<Seq<char>>,
) -> LaunchView {
    if prompt is Some {
        LaunchView::OneShot(prompt->0)
    } else if prompt_file is Some {
        LaunchView::OneShotFile(prompt_file->0)
    } else if !terminal {
        LaunchView::Banner
    } else if model is None {
        LaunchView::NoModel
    } else {
        LaunchView::Repl(model->0)
    }
}

/// What the program does where no other command is given.
pub fn launch(flags: &RunFlags, terminal: bool) -> (r: Launch)
    ensures
        r@ == launched(
            repl::text_in(flags.prompt),
            repl::text_in(flags.prompt_file),
            terminal,
            repl::text_in(flags.model),
        ),
{
    if let Some(text) = &flags.prompt {
        return Launch::OneShot(text.clone());
    }
    if let Some(path) = &flags.prompt_file {
        return Launch::OneShotFile(path.clone());
    }
    if !terminal {
        return Launch::Banner;
    }
    match &flags.model {
        None => Launch::NoModel,
        Some(path) => Launch::Repl(path.clone()),
    }
}

/// The model that answers a single text.
pub fn one_shot_model(flags: &RunFlags) -> (r: Result<String, CliError>)
    ensures
        match r {
            Ok(path) => repl::text_in(flags.model) == Some(path@),
            Err(e) => repl::text_in(flags.model) is None && e@ == CliErrorView::ModelRequired(
                "one-shot mode (`-p`) needs `-m PATH`"@,
            ),
        },
{
    match &flags.model {
        Some(path) => Ok(path.clone()),
        None => Err(CliError::ModelRequired("one-shot mode (`-p`) needs `-m PATH`".to_owned())),
    }
}

/// A failure of a part of the program.
pub fn failed(part: &str, text: &str) -> (e: CliError)
    ensures
        e@ == CliErrorView::BadCommand(part@ + ": "@ + text@),
{
    let start: String = joined(part, ": ");
    CliError::BadCommand(joined(start.as_str(), text))
}

/// A model is asked for exactly where none is given; nothing else can fail.
pub proof fn law_session_needs_a_model(
    prompt: Option<Seq<char>>,
    prompt_file: Option<Seq<char>>,
    terminal: bool,
    model: Option<Seq<char>>,
)
    ensures
        launched(prompt, prompt_file, terminal, model) is Repl ==> model is Some && terminal,
        prompt is Some || prompt_file is Some ==> {
            let l = launched(prompt, prompt_file, terminal, model);
            l is OneShot || l is OneShotFile
        },
{
}

/// What is said to be answered is answered, whatever else is said; a text comes
/// before a file. Else the program talks to a person at the terminal, with the
/// model that was named.
pub proof fn law_what_is_answered(
    prompt_file: Option<Seq<char>>,
    terminal: bool,
    model: Option<Seq<char>>,
    text: Seq<char>,
)
    ensures
        launched(Some(text), prompt_file, terminal, model) == LaunchView::OneShot(text),
        launched(None, Some(text), terminal, model) == LaunchView::OneShotFile(text),
        launched(None, None, true, Some(text)) == LaunchView::Repl(text),
        launched(None, None, true, None) == LaunchView::NoModel,
        launched(None, None, false, model) == LaunchView::Banner,
{
}

} // verus!
