//! What the command line says.

use crate::sampler::{SamplingParams, DEFAULT_MIN_P, DEFAULT_TEMPERATURE};
use crate::float::fold::ONE;
use vstd::prelude::*;

verus! {

/// How much the program logs.
#[derive(Debug, Clone, Copy, PartialEq, Eq, Structural, Default)]
pub enum LogLevel {
    /// Nothing.
    Off,
    /// Failures.
    Error,
    /// And what is amiss.
    Warn,
    /// And what is going on.
    #[default]
    Info,
    /// And how.
    Debug,
    /// And every step.
    Trace,
}

impl LogLevel {
    /// The name of the level.
    pub open spec fn directive(self) -> &'static str {
        match self {
            LogLevel::Off => "off",
            LogLevel::Error => "error",
            LogLevel::Warn => "warn",
            LogLevel::Info => "info",
            LogLevel::Debug => "debug",
            LogLevel::Trace => "trace",
        }
    }

    /// The name of the level.
    pub fn as_filter_directive(self) -> (s: &'static str)
        ensures
            s == self.directive(),
    {
        match self {
            LogLevel::Off => "off",
            LogLevel::Error => "error",
            LogLevel::Warn => "warn",
            LogLevel::Info => "info",
            LogLevel::Debug => "debug",
            LogLevel::Trace => "trace",
        }
    }
}

/// Whether and how much the model thinks before it answers.
#[derive(Debug, Clone, Copy, PartialEq, Eq, Structural, Default)]
pub enum ThinkMode {
    /// Not at all.
    #[default]
    NoThink,
    /// As usual.
    Think,
    /// As much as it can.
    ThinkMax,
}

/// How much thinking a prompt asks for.
#[derive(Debug, Clone, Copy, PartialEq, Eq, Structural)]
pub enum PromptThink {
    /// No thinking.
    Off,
    /// Much.
    High,
    /// The most.
    Max,
}

impl ThinkMode {
    /// The name of the mode.
    pub open spec fn named(self) -> &'static str {
        match self {
            ThinkMode::NoThink => "nothink",
            ThinkMode::Think => "think",
            ThinkMode::ThinkMax => "think-max",
        }
    }

    /// The name of the mode.
    pub fn label(self) -> (s: &'static str)
        ensures
            s == self.named(),
    {
        match self {
            ThinkMode::NoThink => "nothink",
            ThinkMode::Think => "think",
            ThinkMode::ThinkMax => "think-max",
        }
    }
}

/// How much thinking the prompt of a mode asks for.
pub open spec fn asked(mode: ThinkMode) -> PromptThink {
    match mode {
        ThinkMode::NoThink => PromptThink::Off,
        ThinkMode::Think => PromptThink::High,
        ThinkMode::ThinkMax => PromptThink::Max,
    }
}

/// How much thinking the prompt of a mode asks for.
pub fn map_think(mode: ThinkMode) -> (r: PromptThink)
    ensures
        r == asked(mode),
{
    match mode {
        ThinkMode::NoThink => PromptThink::Off,
        ThinkMode::Think => PromptThink::High,
        ThinkMode::ThinkMax => PromptThink::Max,
    }
}

/// What to do other than to answer.
#[derive(Debug)]
pub enum Command {
    /// Show what a model file holds.
    Inspect(InspectArgs),
    /// Show what the machine can do and how much memory a context takes.
    Info(InfoArgs),
}

/// Arguments of `inspect`.
#[derive(Debug)]
pub struct InspectArgs {
    /// Path of the model file.
    pub model: String,
}

/// Arguments of `info`.
#[derive(Debug)]
pub struct InfoArgs {
    /// Path of a model file, if any.
    pub model: Option<String>,
    /// Context size to estimate for.
    pub ctx_size: usize,
}

/// Arguments of a run. Fractions are given as bits.
#[derive(Debug, Default)]
pub struct RunFlags {
    /// Text to answer.
    pub prompt: Option<String>,
    /// Path of a file with the text to answer.
    pub prompt_file: Option<String>,
    /// Path of the model file.
    pub model: Option<String>,
    /// Context size.
    pub ctx_size: usize,
    /// How much to think.
    pub think: ThinkMode,
    /// Whether to show each token.
    pub dump_tokens: bool,
    /// Path of the file to write likely tokens to, if any.
    pub dump_logprobs: Option<String>,
    /// How many likely tokens to write.
    pub logprobs_top_k: usize,
    /// Seed of the draws.
    pub seed: Option<u64>,
    /// Temperature of the draws.
    pub temperature: Option<u32>,
    /// How many tokens to keep.
    pub top_k: Option<usize>,
    /// The mass that the kept tokens are to reach.
    pub top_p: Option<u32>,
    /// Least part of the most likely token.
    pub min_p: Option<u32>,
}

/// How tokens are drawn in a run. The seed is the only flag in use; the rest
/// stays at its default.
pub fn sampling_params_from_flags(flags: &RunFlags) -> (p: SamplingParams)
    ensures
        p == (SamplingParams {
            temperature: DEFAULT_TEMPERATURE,
            top_k: None,
            top_p: Some(ONE),
            min_p: Some(DEFAULT_MIN_P),
            seed: flags.seed,
        }),
{
    let d: SamplingParams = SamplingParams::default();
    SamplingParams {
        temperature: d.temperature,
        top_k: d.top_k,
        top_p: d.top_p,
        min_p: d.min_p,
        seed: flags.seed,
    }
}

} // verus!
