//! A turn: a prompt goes in, tokens come out one by one, and their bytes are
//! shown as text.

use crate::cli::launch::failed;
use crate::cli::{CliError, CliErrorView};
use crate::engine::{DecodeStep, EngineError, Session};
use crate::gguf::reader::text_of;
use crate::text;
use crate::text::{decimal_of, lossy};
use vstd::prelude::*;
use vstd::slice::{slice_subrange, slice_to_vec};
use vstd::utf8::*;

verus! {

/// How many tokens a turn produces at most.
pub const DEFAULT_MAX_DECODE_TOKENS: usize = 512;

/// What is wrong with a prompt of `n` tokens for a context of `ctx_size`.
pub open spec fn prompt_fault(n: nat, ctx_size: nat) -> Option<Seq<char>> {
    if n == 0 {
        Some("tokenizer produced 0 tokens for the prompt"@)
    } else if n > ctx_size {
        Some(
            "prompt is "@ + text::decimal(n) + " tokens but --ctx-size = "@ + text::decimal(ctx_size)
                + "; increase --ctx-size or shorten the prompt"@,
        )
    } else {
        None
    }
}

/// What is wrong with a message of `n` tokens in a session that holds
/// `position` of at most `capacity` tokens.
pub open spec fn message_fault(n: nat, position: nat, capacity: nat) -> Option<Seq<char>> {
    if n == 0 {
        Some("tokenizer produced 0 tokens for the message"@)
    } else if position + n > capacity {
        Some(
            "message is "@ + text::decimal(n) + " tokens, session at "@ + text::decimal(position)
                + "/"@ + text::decimal(capacity) + "; try /clear or /ctx N"@,
        )
    } else {
        None
    }
}

/// Whether a result is an error exactly where there is a fault.
pub open spec fn reports(r: Result<(), CliError>, fault: Option<Seq<char>>) -> bool {
    match r {
        Ok(_) => fault is None,
        Err(e) => fault is Some && e@ == CliErrorView::BadCommand(fault->0),
    }
}

/// Whether a prompt can be answered.
pub fn check_prompt(tokens: usize, ctx_size: usize) -> (r: Result<(), CliError>)
    ensures
        reports(r, prompt_fault(tokens as nat, ctx_size as nat)),
{
    if tokens == 0 {
        return Err(
            CliError::BadCommand("tokenizer produced 0 tokens for the prompt".to_owned()),
        );
    }
    if tokens > ctx_size {
        let mut s: String = "prompt is ".to_owned();
        s.append(decimal_of(tokens as u64).as_str());
        s.append(" tokens but --ctx-size = ");
        s.append(decimal_of(ctx_size as u64).as_str());
        s.append("; increase --ctx-size or shorten the prompt");
        return Err(CliError::BadCommand(s));
    }
    Ok(())
}

/// Whether a message can be answered.
pub fn check_message(tokens: usize, position: usize, capacity: usize) -> (r: Result<(), CliError>)
    ensures
        reports(r, message_fault(tokens as nat, position as nat, capacity as nat)),
{
    if tokens == 0 {
        return Err(
            CliError::BadCommand("tokenizer produced 0 tokens for the message".to_owned()),
        );
    }
    if position > capacity || tokens > capacity - position {
        let mut s: String = "message is ".to_owned();
        s.append(decimal_of(tokens as u64).as_str());
        s.append(" tokens, session at ");
        s.append(decimal_of(position as u64).as_str());
        s.append("/");
        s.append(decimal_of(capacity as u64).as_str());
        s.append("; try /clear or /ctx N");
        return Err(CliError::BadCommand(s));
    }
    Ok(())
}

/// The largest length up to `n` at which a prefix is valid UTF-8.
pub open spec fn valid_length_upto(bytes: Seq<u8>, n: nat) -> nat
    decreases n,
{
    if n == 0 || valid_utf8(bytes.take(n as int)) {
        n
    } else {
        valid_length_upto(bytes, (n - 1) as nat)
    }
}

/// The length of the longest prefix that is valid UTF-8.
pub open spec fn valid_length(bytes: Seq<u8>) -> nat {
    valid_length_upto(bytes, bytes.len())
}

proof fn lemma_valid_length_upto(bytes: Seq<u8>, n: nat, m: nat)
    requires
        n <= m <= bytes.len(),
        valid_utf8(bytes.take(n as int)),
        forall|k: int| n < k <= m ==> !valid_utf8(#[trigger] bytes.take(k)),
    ensures
        valid_length_upto(bytes, m) == n,
    decreases m,
{
    if n < m {
        assert(!valid_utf8(bytes.take(m as int)));
        lemma_valid_length_upto(bytes, n, (m - 1) as nat);
    }
}

proof fn lemma_valid_length_bounds(bytes: Seq<u8>, n: nat)
    requires
        n <= bytes.len(),
    ensures
        valid_length_upto(bytes, n) <= n,
        valid_utf8(bytes.take(valid_length_upto(bytes, n) as int)),
        forall|k: int|
            valid_length_upto(bytes, n) < k <= n ==> !valid_utf8(#[trigger] bytes.take(k)),
    decreases n,
{
    if n == 0 {
        assert(bytes.take(0).len() == 0);
    } else if !valid_utf8(bytes.take(n as int)) {
        lemma_valid_length_bounds(bytes, (n - 1) as nat);
    }
}

/// The length of the longest prefix that is valid UTF-8.
pub fn longest_valid_utf8_prefix(buf: &[u8]) -> (n: usize)
    ensures
        n == valid_length(buf@),
        n <= buf@.len(),
        valid_utf8(buf@.take(n as int)),
{
    let len: usize = buf.len();
    match text_of(buf) {
        Ok(_) => {
            proof {
                assert(buf@.take(len as int) =~= buf@);
                lemma_valid_length_upto(buf@, len as nat, len as nat);
            }
            len
        },
        Err(n) => {
            proof {
                assert(buf@.take(n as int) =~= buf@.subrange(0, n as int));
                assert forall|k: int| n < k <= len implies !valid_utf8(#[trigger] buf@.take(k)) by {
                    assert(buf@.take(k) =~= buf@.subrange(0, k));
                }
                lemma_valid_length_upto(buf@, n as nat, len as nat);
            }
            n
        },
    }
}

/// How far a turn has come.
#[derive(Debug)]
pub struct Turn {
    /// The token that the next one follows.
    pub last_token: u32,
    /// How many tokens there are.
    pub step: u32,
    /// Bytes of a character that is not complete yet.
    pub carry: Vec<u8>,
    /// The token that ends the turn.
    pub eos: u32,
}

/// How far a turn has come.
#[verifier::ext_equal]
pub struct TurnView {
    pub last_token: u32,
    pub step: nat,
    pub carry: Seq<u8>,
    pub eos: u32,
}

impl View for Turn {
    type V = TurnView;

    open spec fn view(&self) -> TurnView {
        TurnView {
            last_token: self.last_token,
            step: self.step as nat,
            carry: self.carry@,
            eos: self.eos,
        }
    }
}

/// The part of bytes that can be shown as text.
pub open spec fn ready(bytes: Seq<u8>) -> Seq<u8> {
    bytes.take(valid_length(bytes) as int)
}

/// The part of bytes that has to wait for more.
pub open spec fn waiting(bytes: Seq<u8>) -> Seq<u8> {
    bytes.skip(valid_length(bytes) as int)
}

impl TurnView {
    /// Whether another token may come.
    pub open spec fn open(self) -> bool {
        self.step < DEFAULT_MAX_DECODE_TOKENS
    }

    /// The turn after a token with these bytes.
    pub open spec fn after(self, token: u32, bytes: Seq<u8>) -> TurnView {
        TurnView {
            last_token: token,
            step: self.step + 1,
            carry: waiting(self.carry + bytes),
            eos: self.eos,
        }
    }

    /// The text that a token with these bytes completes.
    pub open spec fn text(self, bytes: Seq<u8>) -> Seq<char> {
        decode_utf8(ready(self.carry + bytes))
    }
}

impl Turn {
    /// A turn behind a prompt.
    pub fn start(tokens: &[u32], eos: u32) -> (t: Self)
        requires
            tokens@.len() > 0,
        ensures
            t@ == started(tokens@, eos),
    {
        let n: usize = tokens.len();
        let t: Turn = Turn { last_token: tokens[n - 1], step: 0, carry: Vec::new(), eos };
        assert(t.carry@ =~= Seq::<u8>::empty());
        t
    }

    /// Whether another token may come.
    pub fn is_open(&self) -> (r: bool)
        ensures
            r == self@.open(),
    {
        self.step < DEFAULT_MAX_DECODE_TOKENS as u32
    }

    /// Whether a token ends the turn.
    pub fn ends_with(&self, token: u32) -> (r: bool)
        ensures
            r == (token == self@.eos),
    {
        token == self.eos
    }

    /// Takes a token in and gives the text that its bytes complete.
    pub fn take(&mut self, token: u32, bytes: &[u8]) -> (text: String)
        requires
            old(self)@.open(),
        ensures
            final(self)@ == old(self)@.after(token, bytes@),
            text@ == old(self)@.text(bytes@),
            encode_utf8(text@) + final(self)@.carry == old(self)@.carry + bytes@,
    {
        self.last_token = token;
        self.step = self.step + 1;
        self.carry.extend_from_slice(bytes);
        let ghost all = old(self)@.carry + bytes@;
        assert(self.carry@ =~= all);
        let n: usize = longest_valid_utf8_prefix(self.carry.as_slice());
        let len: usize = self.carry.len();
        let prefix: Vec<u8> = slice_to_vec(slice_subrange(self.carry.as_slice(), 0, n));
        let rest: Vec<u8> = slice_to_vec(slice_subrange(self.carry.as_slice(), n, len));
        assert(prefix@ =~= ready(all));
        assert(rest@ =~= waiting(all));
        self.carry = rest;
        let text: String = match text_of(prefix.as_slice()) {
            Ok(s) => s.to_owned(),
            Err(_) => String::new(),
        };
        proof {
            decode_utf8_encode_utf8(prefix@);
            assert(ready(all) + waiting(all) =~= all);
        }
        text
    }
}

/// A turn that starts behind tokens.
pub open spec fn started(tokens: Seq<u32>, eos: u32) -> TurnView {
    TurnView { last_token: tokens.last(), step: 0, carry: Seq::empty(), eos }
}

/// What the user is told of an engine's error.
pub open spec fn engine_fault(x: EngineError) -> CliErrorView {
    CliErrorView::BadCommand("engine"@ + ": "@ + x.told())
}

/// The turn that starts behind tokens, once the engine has answered them.
pub fn after_prefill(answer: Result<Vec<u32>, EngineError>, tokens: &[u32], eos: u32) -> (r: Result<
    Turn,
    CliError,
>)
    requires
        tokens@.len() > 0,
    ensures
        match answer {
            Ok(_) => r is Ok && r->Ok_0@ == started(tokens@, eos),
            Err(x) => r is Err && r->Err_0@ == engine_fault(x),
        },
{
    match answer {
        Ok(_) => Ok(Turn::start(tokens, eos)),
        Err(x) => Err(failed("engine", x.message().as_str())),
    }
}

/// What a decode step came to.
pub fn after_decode(answer: Result<DecodeStep, EngineError>) -> (r: Result<DecodeStep, CliError>)
    ensures
        match answer {
            Ok(step) => r == Ok::<DecodeStep, CliError>(step),
            Err(x) => r is Err && r->Err_0@ == engine_fault(x),
        },
{
    match answer {
        Ok(step) => Ok(step),
        Err(x) => Err(failed("engine", x.message().as_str())),
    }
}

/// Whether a turn was started behind tokens that a session has taken in, or the
/// session's error is passed on. A session without room stays as it was.
pub open spec fn handed_over<S: Session>(
    before: &S,
    after: &S,
    tokens: Seq<u32>,
    eos: u32,
    r: Result<Turn, CliError>,
) -> bool {
    &&& before.history().len() + tokens.len() > before.room() ==> r is Err && after.history()
        == before.history()
    &&& match r {
        Ok(t) => t@ == started(tokens, eos) && after.history() == before.history() + tokens,
        Err(e) => exists|x: EngineError| e@ == #[trigger] engine_fault(x),
    }
}

/// Hands tokens over and starts a turn behind them.
fn hand_over<S: Session>(session: &mut S, tokens: &[u32], eos: u32) -> (r: Result<Turn, CliError>)
    requires
        tokens@.len() > 0,
    ensures
        final(session).room() == old(session).room(),
        final(session).vocabulary() == old(session).vocabulary(),
        handed_over(old(session), final(session), tokens@, eos, r),
{
    after_prefill(session.prefill(tokens), tokens, eos)
}

/// Starts a turn behind the prompt of a new session for `ctx_size` tokens.
/// A prompt at fault does not reach the session. Any other error is the
/// engine's own.
pub fn begin_prompt<S: Session>(
    session: &mut S,
    tokens: &[u32],
    ctx_size: usize,
    eos: u32,
) -> (r: Result<Turn, CliError>)
    ensures
        final(session).room() == old(session).room(),
        final(session).vocabulary() == old(session).vocabulary(),
        match prompt_fault(tokens@.len(), ctx_size as nat) {
            Some(fault) => *final(session) == *old(session) && r is Err && r->Err_0@
                == CliErrorView::BadCommand(fault),
            None => handed_over(old(session), final(session), tokens@, eos, r),
        },
{
    match check_prompt(tokens.len(), ctx_size) {
        Err(e) => Err(e),
        Ok(_) => hand_over(session, tokens, eos),
    }
}

/// Starts a turn behind a message. A message at fault does not reach the
/// session. Any other error is the engine's own.
pub fn begin_message<S: Session>(session: &mut S, tokens: &[u32], eos: u32) -> (r: Result<
    Turn,
    CliError,
>)
    ensures
        final(session).room() == old(session).room(),
        final(session).vocabulary() == old(session).vocabulary(),
        match message_fault(tokens@.len(), old(session).history().len(), old(session).room()) {
            Some(fault) => *final(session) == *old(session) && r is Err && r->Err_0@
                == CliErrorView::BadCommand(fault),
            None => handed_over(old(session), final(session), tokens@, eos, r),
        },
{
    match check_message(tokens.len(), session.position(), session.capacity()) {
        Err(e) => Err(e),
        Ok(_) => hand_over(session, tokens, eos),
    }
}

impl TurnView {
    /// The tokens that a session has taken in once the next token is drawn: the
    /// last token of the turn goes in first.
    pub open spec fn fed(self, history: Seq<u32>) -> Seq<u32> {
        history.push(self.last_token)
    }
}

impl Turn {
    /// Draws the next token: the session takes in the last one. Without room
    /// the session stays as it was. An error is the engine's own.
    pub fn draw<S: Session>(&self, session: &mut S) -> (r: Result<DecodeStep, CliError>)
        ensures
            final(session).room() == old(session).room(),
            final(session).vocabulary() == old(session).vocabulary(),
            old(session).history().len() >= old(session).room() ==> r is Err
                && final(session).history() == old(session).history(),
            match r {
                Ok(step) => final(session).history() == self@.fed(old(session).history())
                    && step.probs@.len() == old(session).vocabulary(),
                Err(e) => exists|x: EngineError| e@ == #[trigger] engine_fault(x),
            },
    {
        after_decode(session.decode_one(self.last_token))
    }
}

/// What a session has taken in, and how far the turn has come, after each of
/// these tokens, with its bytes, was drawn and taken.
pub open spec fn conversed(
    history: Seq<u32>,
    turn: TurnView,
    taken: Seq<(u32, Seq<u8>)>,
) -> (Seq<u32>, TurnView)
    decreases taken.len(),
{
    if taken.len() == 0 {
        (history, turn)
    } else {
        let (h, t) = conversed(history, turn, taken.drop_last());
        (t.fed(h), t.after(taken.last().0, taken.last().1))
    }
}

/// The ids of tokens.
pub open spec fn ids(taken: Seq<(u32, Seq<u8>)>) -> Seq<u32> {
    taken.map_values(|t: (u32, Seq<u8>)| t.0)
}

/// What a session takes in over a turn: behind what was there come the tokens
/// of the prompt, its last token once more, and the tokens that were taken.
/// The last of these goes in when the next is drawn.
pub proof fn law_tokens_are_fed_back(
    history: Seq<u32>,
    prompt: Seq<u32>,
    eos: u32,
    taken: Seq<(u32, Seq<u8>)>,
)
    requires
        prompt.len() > 0,
    ensures
        ({
            let (h, t) = conversed(history + prompt, started(prompt, eos), taken);
            let all = seq![prompt.last()] + ids(taken);
            &&& h == history + prompt + all.drop_last()
            &&& t.last_token == all.last()
            &&& t.step == taken.len()
            &&& t.fed(h) == history + prompt + all
        }),
    decreases taken.len(),
{
    let all = seq![prompt.last()] + ids(taken);
    let (h, t) = conversed(history + prompt, started(prompt, eos), taken);
    if taken.len() == 0 {
        assert(all.drop_last() =~= Seq::<u32>::empty());
        assert(h =~= history + prompt + all.drop_last());
    } else {
        let before = taken.drop_last();
        let shorter = seq![prompt.last()] + ids(before);
        law_tokens_are_fed_back(history, prompt, eos, before);
        assert(all.drop_last() =~= shorter);
        assert(all.last() == taken.last().0);
    }
    assert(t.fed(h) =~= history + prompt + all) by {
        assert(all =~= all.drop_last().push(all.last()));
    }
}

/// Bytes as they are shown where no more will come: what a turn leaves behind,
/// or a token by itself. Malformed bytes are replaced.
pub fn shown(bytes: &[u8]) -> (s: String)
    ensures
        s@ == text::lossy_text(bytes@),
        valid_utf8(bytes@) ==> s@ == decode_utf8(bytes@),
{
    lossy(bytes)
}

/// The bytes that are shown, and those that wait, after tokens with these bytes.
pub open spec fn streamed(chunks: Seq<Seq<u8>>) -> (Seq<u8>, Seq<u8>)
    decreases chunks.len(),
{
    if chunks.len() == 0 {
        (Seq::empty(), Seq::empty())
    } else {
        let (out, carry) = streamed(chunks.drop_last());
        let all = carry + chunks.last();
        (out + ready(all), waiting(all))
    }
}

/// Nothing is lost or shown twice: what was shown and what waits are all the
/// bytes, in their order, and what was shown is valid UTF-8.
pub proof fn law_nothing_is_lost(chunks: Seq<Seq<u8>>)
    ensures
        streamed(chunks).0 + streamed(chunks).1 == chunks.flatten(),
        valid_utf8(streamed(chunks).0),
    decreases chunks.len(),
{
    if chunks.len() == 0 {
        assert(chunks.flatten() =~= Seq::<u8>::empty());
        assert(streamed(chunks).0 + streamed(chunks).1 =~= Seq::<u8>::empty());
    } else {
        let start = chunks.drop_last();
        law_nothing_is_lost(start);
        let (out, carry) = streamed(start);
        let all = carry + chunks.last();
        lemma_valid_length_bounds(all, all.len());
        valid_utf8_concat(out, ready(all));
        start.lemma_flatten_push(chunks.last());
        assert(start.push(chunks.last()) =~= chunks);
        assert(ready(all) + waiting(all) =~= all);
        assert(streamed(chunks).0 + streamed(chunks).1 =~= start.flatten() + chunks.last());
    }
}

/// What follows a valid prefix of valid bytes is valid.
proof fn lemma_rest_is_valid(a: Seq<u8>, b: Seq<u8>)
    requires
        valid_utf8(a),
        valid_utf8(a + b),
    ensures
        valid_utf8(b),
    decreases a.len(),
{
    if a.len() == 0 {
        assert(a + b =~= b);
    } else {
        let rest = pop_first_scalar(a);
        assert(pop_first_scalar(a + b) =~= rest + b);
        lemma_rest_is_valid(rest, b);
    }
}

/// Wherever the bytes so far are valid UTF-8, all of them have been shown: a
/// character cut in two waits only until its other half comes.
pub proof fn law_whole_text_is_shown(chunks: Seq<Seq<u8>>)
    requires
        valid_utf8(chunks.flatten()),
    ensures
        streamed(chunks).0 == chunks.flatten(),
        streamed(chunks).1 == Seq::<u8>::empty(),
{
    law_nothing_is_lost(chunks);
    let (shown, rest) = streamed(chunks);
    if chunks.len() > 0 {
        let start = chunks.drop_last();
        law_nothing_is_lost(start);
        let (out, carry) = streamed(start);
        let all = carry + chunks.last();
        lemma_valid_length_bounds(all, all.len());
        assert(out + all =~= shown + rest) by {
            assert(ready(all) + waiting(all) =~= all);
        }
        lemma_rest_is_valid(out, all);
        assert(all.take(all.len() as int) =~= all);
        assert(valid_length(all) == all.len());
        assert(ready(all) =~= all);
        assert(waiting(all) =~= Seq::<u8>::empty());
        assert(shown + rest =~= shown);
    }
}

/// A turn takes 512 tokens and no more.
pub proof fn law_turn_ends(
    history: Seq<u32>,
    prompt: Seq<u32>,
    eos: u32,
    taken: Seq<(u32, Seq<u8>)>,
)
    requires
        prompt.len() > 0,
    ensures
        conversed(history + prompt, started(prompt, eos), taken).1.open() <==> taken.len() < 512,
{
    law_tokens_are_fed_back(history, prompt, eos, taken);
}

/// A message is taken exactly where a prompt would be in the room that is left.
/// A prompt is taken that fills its context, and none that is longer or empty.
pub proof fn law_what_fits(n: nat, position: nat, room: nat)
    ensures
        message_fault(n, position, position + room) is None <==> prompt_fault(n, room) is None,
        n > 0 ==> prompt_fault(n, n) is None,
        n > 0 ==> prompt_fault(n, n + room) is None,
        prompt_fault(n + room + 1, n) is Some,
        prompt_fault(0, room) is Some,
{
}

} // verus!
