use rsllm::cli::turn::{begin_message, begin_prompt};
use rsllm::engine::{DecodeStep, Engine, EngineError, Session};
use rsllm::sampler::SamplingParams;
use rsllm::version;

#[derive(Debug)]
struct DummyEngine {
    vocab: usize,
    max_ctx: usize,
}
#[derive(Debug)]
struct DummySession<'e> {
    engine: &'e DummyEngine,
    pos: usize,
    cap: usize,
}

impl Engine for DummyEngine {
    type Session<'engine> = DummySession<'engine>;

    fn architecture(&self) -> &'static str {
        "dummy"
    }
    fn vocab_size(&self) -> usize {
        self.vocab
    }
    fn max_ctx_size(&self) -> usize {
        self.max_ctx
    }
    fn start_session(
        &self,
        ctx_size: usize,
        _params: SamplingParams,
    ) -> Result<Self::Session<'_>, EngineError> {
        if ctx_size > self.max_ctx {
            return Err(EngineError::ShapeMismatch {
                what: "session.ctx_size".into(),
                expected: format!("<= {}", self.max_ctx),
                actual: format!("{ctx_size}"),
            });
        }
        Ok(DummySession {
            engine: self,
            pos: 0,
            cap: ctx_size,
        })
    }
}

impl Session for DummySession<'_> {
    fn position(&self) -> usize {
        self.pos
    }
    fn capacity(&self) -> usize {
        self.cap
    }
    fn prefill(&mut self, tokens: &[u32]) -> Result<Vec<u32>, EngineError> {
        if self.pos + tokens.len() > self.cap {
            return Err(EngineError::ContextFull {
                filled: self.pos,
                capacity: self.cap,
            });
        }
        self.pos += tokens.len();
        Ok(vec![0.0_f32.to_bits(); self.engine.vocab])
    }
    fn decode_one(&mut self, _last: u32) -> Result<DecodeStep, EngineError> {
        if self.pos >= self.cap {
            return Err(EngineError::ContextFull {
                filled: self.pos,
                capacity: self.cap,
            });
        }
        self.pos += 1;
        Ok(DecodeStep {
            token_id: 0,
            probs: vec![(1.0 / self.engine.vocab as f32).to_bits(); self.engine.vocab],
        })
    }
    fn reset(&mut self) {
        self.pos = 0;
    }
}

#[test]
fn engine_surface_compiles() {
    let e = DummyEngine {
        vocab: 32,
        max_ctx: 64,
    };
    assert_eq!(e.architecture(), "dummy");
    assert_eq!(e.vocab_size(), 32);
    assert_eq!(e.max_ctx_size(), 64);
}

#[test]
fn start_session_respects_max_ctx() {
    let e = DummyEngine {
        vocab: 32,
        max_ctx: 64,
    };
    let err = e.start_session(128, SamplingParams::default()).unwrap_err();
    assert!(matches!(err, EngineError::ShapeMismatch { .. }));
}

#[test]
fn session_prefill_and_decode_advance_position() {
    let e = DummyEngine {
        vocab: 16,
        max_ctx: 8,
    };
    let mut s = e.start_session(8, SamplingParams::default()).unwrap();
    assert_eq!(s.position(), 0);
    let logits = s.prefill(&[1, 2, 3]).unwrap();
    assert_eq!(logits.len(), 16);
    assert_eq!(s.position(), 3);
    let step = s.decode_one(3).unwrap();
    assert_eq!(step.probs.len(), 16);
    assert_eq!(s.position(), 4);
}

#[test]
fn context_full_fires_when_capacity_exceeded() {
    let e = DummyEngine {
        vocab: 4,
        max_ctx: 4,
    };
    let mut s = e.start_session(4, SamplingParams::default()).unwrap();
    s.prefill(&[1, 2, 3, 4]).unwrap();
    let err = s.decode_one(4).unwrap_err();
    assert!(matches!(err, EngineError::ContextFull { .. }));
}

#[test]
fn reset_returns_position_to_zero() {
    let e = DummyEngine {
        vocab: 4,
        max_ctx: 4,
    };
    let mut s = e.start_session(4, SamplingParams::default()).unwrap();
    s.prefill(&[1, 2]).unwrap();
    s.reset();
    assert_eq!(s.position(), 0);
}

#[test]
fn version_is_non_empty() {
    assert!(!version().is_empty());
}

#[test]
fn version_is_that_of_the_package() {
    assert_eq!(version(), "0.1.0");
}

#[test]
fn engine_errors_tell_what_is_wrong() {
    let text = |s: &str| s.to_string();
    assert_eq!(EngineError::Io(text("x")).message(), "io: x");
    assert_eq!(EngineError::Missing(text("x")).message(), "missing: x");
    assert_eq!(
        EngineError::ShapeMismatch { what: text("a"), expected: text("b"), actual: text("c") }
            .message(),
        "shape mismatch: a expected b, got c"
    );
    assert_eq!(EngineError::KvCache(text("x")).message(), "kv-cache: x");
    assert_eq!(
        EngineError::ContextFull { filled: 7, capacity: 8 }.message(),
        "context full: 7 of 8 tokens"
    );
    assert_eq!(EngineError::NotImplemented(text("x")).message(), "not yet implemented: x");
}

#[test]
fn a_turn_hands_the_prompt_over() {
    let e = DummyEngine { vocab: 4, max_ctx: 8 };
    let mut s = e.start_session(8, SamplingParams::default()).unwrap();
    let turn = begin_prompt(&mut s, &[5, 6, 7], 8, 1).unwrap();
    assert_eq!(turn.last_token, 7);
    assert_eq!(s.position(), 3);
    let step = turn.draw(&mut s).unwrap();
    assert_eq!(step.token_id, 0);
    assert_eq!(s.position(), 4);
}

#[test]
fn prompts_at_fault_do_not_reach_the_session() {
    let e = DummyEngine { vocab: 4, max_ctx: 8 };
    let mut s = e.start_session(8, SamplingParams::default()).unwrap();
    assert_eq!(
        begin_prompt(&mut s, &[], 8, 1).unwrap_err().message(),
        "bad command: tokenizer produced 0 tokens for the prompt"
    );
    assert_eq!(
        begin_prompt(&mut s, &[1, 2, 3], 2, 1).unwrap_err().message(),
        "bad command: prompt is 3 tokens but --ctx-size = 2; increase --ctx-size or shorten the prompt"
    );
    assert_eq!(
        begin_message(&mut s, &[], 1).unwrap_err().message(),
        "bad command: tokenizer produced 0 tokens for the message"
    );
    s.prefill(&[1, 2, 3, 4, 5]).unwrap();
    assert_eq!(
        begin_message(&mut s, &[1, 2, 3, 4], 1).unwrap_err().message(),
        "bad command: message is 4 tokens, session at 5/8; try /clear or /ctx N"
    );
    assert_eq!(s.position(), 5);
    let turn = begin_message(&mut s, &[1, 2, 3], 1).unwrap();
    assert_eq!(
        turn.draw(&mut s).unwrap_err().message(),
        "bad command: engine: context full: 8 of 8 tokens"
    );
}

/// A session that keeps what it was handed, and draws one more than that.
struct Keeper {
    tokens: Vec<u32>,
}

impl Session for Keeper {
    fn position(&self) -> usize {
        self.tokens.len()
    }
    fn capacity(&self) -> usize {
        64
    }
    fn prefill(&mut self, tokens: &[u32]) -> Result<Vec<u32>, EngineError> {
        self.tokens.extend_from_slice(tokens);
        Ok(Vec::new())
    }
    fn decode_one(&mut self, last_token: u32) -> Result<DecodeStep, EngineError> {
        self.tokens.push(last_token);
        Ok(DecodeStep { token_id: last_token + 1, probs: Vec::new() })
    }
    fn reset(&mut self) {
        self.tokens.clear();
    }
}

#[test]
fn the_tokens_of_a_turn_are_fed_back() {
    let mut s = Keeper { tokens: vec![90, 91] };
    let mut turn = begin_message(&mut s, &[5, 6, 7], 1).unwrap();
    assert_eq!(s.tokens, vec![90, 91, 5, 6, 7]);
    for _ in 0..3 {
        let step = turn.draw(&mut s).unwrap();
        turn.take(step.token_id, b"x");
    }
    assert_eq!(s.tokens, vec![90, 91, 5, 6, 7, 7, 8, 9]);
    assert_eq!(turn.last_token, 10);
    let turn = begin_prompt(&mut s, &[40, 30], 8, 1).unwrap();
    turn.draw(&mut s).unwrap();
    assert_eq!(s.tokens[8..], [40, 30, 30]);
}
