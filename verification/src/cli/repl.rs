//! Commands that start with a slash, and what a session keeps between turns.

use crate::cli::args::ThinkMode;
use crate::cli::words;
use crate::cli::words::{halves, parse_number, strip, Fringe};
use crate::cli::CliError;
use crate::text;
use crate::text::{decimal_of, same, wrapped};
use vstd::prelude::*;

verus! {

/// A command.
#[derive(Debug, Clone, PartialEq, Eq)]
pub enum SlashCommand {
    /// `/help`: list the commands.
    Help,
    /// `/think`: think as usual.
    Think,
    /// `/think-max`: think as much as possible.
    ThinkMax,
    /// `/nothink`: do not think.
    NoThink,
    /// `/ctx N`: start over with a context of `N` tokens.
    SetCtx(usize),
    /// `/read FILE`: read a file into the next message.
    ReadFile(String),
    /// `/system "..."`: set the system prompt.
    SetSystem(String),
    /// `/clear`: start over.
    Clear,
    /// `/quit` or `/exit`: leave.
    Quit,
    /// Any other word with a slash before it.
    Unknown(String),
}

/// A command with its text.
#[verifier::ext_equal]
pub enum CommandView {
    Help,
    Think,
    ThinkMax,
    NoThink,
    SetCtx(nat),
    ReadFile(Seq<char>),
    SetSystem(Seq<char>),
    Clear,
    Quit,
    Unknown(Seq<char>),
}

impl View for SlashCommand {
    type V = CommandView;

    open spec fn view(&self) -> CommandView {
        match *self {
            SlashCommand::Help => CommandView::Help,
            SlashCommand::Think => CommandView::Think,
            SlashCommand::ThinkMax => CommandView::ThinkMax,
            SlashCommand::NoThink => CommandView::NoThink,
            SlashCommand::SetCtx(n) => CommandView::SetCtx(n as nat),
            SlashCommand::ReadFile(s) => CommandView::ReadFile(s@),
            SlashCommand::SetSystem(s) => CommandView::SetSystem(s@),
            SlashCommand::Clear => CommandView::Clear,
            SlashCommand::Quit => CommandView::Quit,
            SlashCommand::Unknown(s) => CommandView::Unknown(s@),
        }
    }
}

/// The command that a word and the text after it make, or what is wrong with it.
pub open spec fn command(head: Seq<char>, tail: Seq<char>) -> Result<CommandView, Seq<char>> {
    if head == "/help"@ {
        Ok(CommandView::Help)
    } else if head == "/think"@ {
        Ok(CommandView::Think)
    } else if head == "/think-max"@ {
        Ok(CommandView::ThinkMax)
    } else if head == "/nothink"@ {
        Ok(CommandView::NoThink)
    } else if head == "/clear"@ {
        Ok(CommandView::Clear)
    } else if head == "/quit"@ || head == "/exit"@ {
        Ok(CommandView::Quit)
    } else if head == "/ctx"@ {
        match words::number(tail) {
            None => Err("/ctx expects a positive integer, got `"@ + tail + "`"@),
            Some(n) => if n == 0 {
                Err("/ctx requires N > 0"@)
            } else {
                Ok(CommandView::SetCtx(n))
            },
        }
    } else if head == "/read"@ {
        if tail.len() == 0 {
            Err("/read expects a file path"@)
        } else {
            Ok(CommandView::ReadFile(tail))
        }
    } else if head == "/system"@ {
        Ok(CommandView::SetSystem(words::stripped(tail, Fringe::Quotes)))
    } else {
        Ok(CommandView::Unknown(head))
    }
}

/// The command on a line: none where the line does not start with a slash, or
/// what is wrong with it.
pub open spec fn parsed(line: Seq<char>) -> Result<Option<CommandView>, Seq<char>> {
    let t = words::stripped(line, Fringe::White);
    if t.len() == 0 || t[0] != '/' {
        Ok(None)
    } else {
        match command(words::head(t), words::tail(t)) {
            Ok(c) => Ok(Some(c)),
            Err(e) => Err(e),
        }
    }
}

/// The command that a word and the text after it make.
fn command_of(head: &str, tail: &str) -> (r: Result<SlashCommand, CliError>)
    ensures
        match r {
            Ok(c) => command(head@, tail@) == Ok::<CommandView, Seq<char>>(c@),
            Err(e) => e@ is BadCommand && command(head@, tail@) == Err::<CommandView, Seq<char>>(
                e@->BadCommand_0,
            ),
        },
{
    if same(head, "/help") {
        Ok(SlashCommand::Help)
    } else if same(head, "/think") {
        Ok(SlashCommand::Think)
    } else if same(head, "/think-max") {
        Ok(SlashCommand::ThinkMax)
    } else if same(head, "/nothink") {
        Ok(SlashCommand::NoThink)
    } else if same(head, "/clear") {
        Ok(SlashCommand::Clear)
    } else if same(head, "/quit") || same(head, "/exit") {
        Ok(SlashCommand::Quit)
    } else if same(head, "/ctx") {
        match parse_number(tail) {
            None => Err(
                CliError::BadCommand(wrapped("/ctx expects a positive integer, got `", tail, "`")),
            ),
            Some(n) => if n == 0 {
                Err(CliError::BadCommand("/ctx requires N > 0".to_owned()))
            } else {
                Ok(SlashCommand::SetCtx(n))
            },
        }
    } else if same(head, "/read") {
        if tail.unicode_len() == 0 {
            Err(CliError::BadCommand("/read expects a file path".to_owned()))
        } else {
            Ok(SlashCommand::ReadFile(tail.to_owned()))
        }
    } else if same(head, "/system") {
        Ok(SlashCommand::SetSystem(strip(tail, Fringe::Quotes).to_owned()))
    } else {
        Ok(SlashCommand::Unknown(head.to_owned()))
    }
}

/// The command on a line. `Ok(None)` is a message for the model; an error says
/// what is wrong with a command.
pub fn parse_command(line: &str) -> (r: Result<Option<SlashCommand>, CliError>)
    ensures
        match r {
            Ok(None) => parsed(line@) == Ok::<Option<CommandView>, Seq<char>>(None),
            Ok(Some(c)) => parsed(line@) == Ok::<Option<CommandView>, Seq<char>>(Some(c@)),
            Err(e) => e@ is BadCommand && parsed(line@) == Err::<Option<CommandView>, Seq<char>>(
                e@->BadCommand_0,
            ),
        },
{
    let trimmed: &str = strip(line, Fringe::White);
    if trimmed.unicode_len() == 0 || trimmed.get_char(0) != '/' {
        return Ok(None);
    }
    let (head, tail) = halves(trimmed);
    match command_of(head, tail) {
        Ok(c) => Ok(Some(c)),
        Err(e) => Err(e),
    }
}

/// What `/help` shows.
pub const HELP_TEXT: &'static str = "slash commands:
  /help                 show this help
  /think                switch to think mode
  /think-max            switch to think-max mode
  /nothink              switch to nothink mode
  /ctx N                rebuild session with new ctx size
  /read FILE            read file as next user message
  /system \"...\"        set system prompt (empty = clear)
  /clear                clear session
  /quit  /exit          quit (Ctrl-D equivalent)";

/// What a command leads to.
#[derive(Debug, Clone)]
pub struct CommandOutcome {
    /// What to show.
    pub message: String,
    /// Whether to leave.
    pub exit: bool,
}

/// What a session keeps between turns.
#[derive(Debug, Clone)]
pub struct ReplState {
    /// How much to think.
    pub think_mode: ThinkMode,
    /// Context size in tokens.
    pub ctx_size: usize,
    /// System prompt, if any.
    pub system_prompt: Option<String>,
    /// File to read into the next message, if any.
    pub queued_file: Option<String>,
}

/// A text that may be missing.
pub open spec fn text_in(s: Option<String>) -> Option<Seq<char>> {
    match s {
        Some(s) => Some(s@),
        None => None,
    }
}

/// What a session keeps between turns.
#[verifier::ext_equal]
pub struct ReplView {
    pub think_mode: ThinkMode,
    pub ctx_size: nat,
    pub system_prompt: Option<Seq<char>>,
    pub queued_file: Option<Seq<char>>,
}

impl View for ReplState {
    type V = ReplView;

    open spec fn view(&self) -> ReplView {
        ReplView {
            think_mode: self.think_mode,
            ctx_size: self.ctx_size as nat,
            system_prompt: text_in(self.system_prompt),
            queued_file: text_in(self.queued_file),
        }
    }
}

impl ReplView {
    /// The state after a command.
    pub open spec fn applied(self, c: CommandView) -> ReplView {
        match c {
            CommandView::Think => ReplView { think_mode: ThinkMode::Think, ..self },
            CommandView::ThinkMax => ReplView { think_mode: ThinkMode::ThinkMax, ..self },
            CommandView::NoThink => ReplView { think_mode: ThinkMode::NoThink, ..self },
            CommandView::SetCtx(n) => ReplView { ctx_size: n, ..self },
            CommandView::ReadFile(path) => ReplView { queued_file: Some(path), ..self },
            CommandView::SetSystem(s) => ReplView {
                system_prompt: if s.len() == 0 {
                    None
                } else {
                    Some(s)
                },
                ..self
            },
            _ => self,
        }
    }
}

/// What a command shows.
pub open spec fn shown(c: CommandView) -> Seq<char> {
    match c {
        CommandView::Help => HELP_TEXT@,
        CommandView::Think => "think mode: think"@,
        CommandView::ThinkMax => "think mode: think-max"@,
        CommandView::NoThink => "think mode: nothink"@,
        CommandView::SetCtx(n) => "ctx_size = "@ + text::decimal(n) + " (session will rebuild)"@,
        CommandView::ReadFile(path) => "/read queued: "@ + path + " (consumed on next message)"@,
        CommandView::SetSystem(s) => if s.len() == 0 {
            "system prompt cleared"@
        } else {
            "system prompt set ("@ + text::decimal(vstd::utf8::encode_utf8(s).len()) + " bytes)"@
        },
        CommandView::Clear => "session cleared"@,
        CommandView::Quit => "bye."@,
        CommandView::Unknown(name) => "unknown command `"@ + name + "`. Type /help for a list."@,
    }
}

/// Whether a command starts the session over.
pub open spec fn rebuilds(c: CommandView) -> bool {
    c is SetCtx || c is Clear
}

/// What to do about a line.
#[derive(Debug)]
pub enum LineAction {
    /// Nothing.
    Skip,
    /// Show a message; then leave, or start the session over, or go on.
    Status { message: String, exit: bool, rebuild: bool },
    /// Answer a message, with a file read into it if there is one.
    Turn { text: String, file: Option<String> },
}

/// What to do about a line.
#[verifier::ext_equal]
pub enum ActionView {
    Skip,
    Status { message: Seq<char>, exit: bool, rebuild: bool },
    Turn { text: Seq<char>, file: Option<Seq<char>> },
}

impl View for LineAction {
    type V = ActionView;

    open spec fn view(&self) -> ActionView {
        match *self {
            LineAction::Skip => ActionView::Skip,
            LineAction::Status { message, exit, rebuild } => ActionView::Status {
                message: message@,
                exit,
                rebuild,
            },
            LineAction::Turn { text, file } => ActionView::Turn { text: text@, file: text_in(file) },
        }
    }
}

impl ReplView {
    /// The state after a line.
    pub open spec fn after(self, line: Seq<char>) -> ReplView {
        if words::stripped(line, Fringe::White).len() == 0 {
            self
        } else {
            match parsed(line) {
                Ok(None) => ReplView { queued_file: None, ..self },
                Ok(Some(c)) => self.applied(c),
                Err(_) => self,
            }
        }
    }

    /// What to do about a line, or what is wrong with it.
    pub open spec fn action(self, line: Seq<char>) -> Result<ActionView, Seq<char>> {
        let t = words::stripped(line, Fringe::White);
        if t.len() == 0 {
            Ok(ActionView::Skip)
        } else {
            match parsed(line) {
                Ok(None) => Ok(ActionView::Turn { text: t, file: self.queued_file }),
                Ok(Some(c)) => Ok(
                    ActionView::Status { message: shown(c), exit: c is Quit, rebuild: rebuilds(c) },
                ),
                Err(e) => Err(e),
            }
        }
    }
}

/// A prompt set by `/system`, and what is shown about it.
fn system_set(s: String) -> (r: (Option<String>, String))
    ensures
        text_in(r.0) == (if s@.len() == 0 {
            None
        } else {
            Some(s@)
        }),
        r.1@ == shown(CommandView::SetSystem(s@)),
{
    if s.as_str().unicode_len() == 0 {
        (None, "system prompt cleared".to_owned())
    } else {
        let n: usize = s.as_str().as_bytes().len();
        let digits: String = decimal_of(n as u64);
        (Some(s), wrapped("system prompt set (", digits.as_str(), " bytes)"))
    }
}

impl ReplState {
    /// The state at the start.
    pub fn new(think_mode: ThinkMode, ctx_size: usize) -> (s: Self)
        ensures
            s@ == (ReplView {
                think_mode,
                ctx_size: ctx_size as nat,
                system_prompt: None,
                queued_file: None,
            }),
    {
        ReplState { think_mode, ctx_size, system_prompt: None, queued_file: None }
    }

    /// What to show before a line is read.
    pub fn prompt(&self) -> (s: String)
        ensures
            s@ == "["@ + self.think_mode.named()@ + "]> "@,
    {
        wrapped("[", self.think_mode.label(), "]> ")
    }

    /// Carries a command out.
    pub fn apply(&mut self, cmd: SlashCommand) -> (r: CommandOutcome)
        ensures
            final(self)@ == old(self)@.applied(cmd@),
            r.message@ == shown(cmd@),
            r.exit == (cmd@ is Quit),
    {
        match cmd {
            SlashCommand::Help => CommandOutcome { message: HELP_TEXT.to_owned(), exit: false },
            SlashCommand::Think => {
                self.think_mode = ThinkMode::Think;
                CommandOutcome { message: "think mode: think".to_owned(), exit: false }
            },
            SlashCommand::ThinkMax => {
                self.think_mode = ThinkMode::ThinkMax;
                CommandOutcome { message: "think mode: think-max".to_owned(), exit: false }
            },
            SlashCommand::NoThink => {
                self.think_mode = ThinkMode::NoThink;
                CommandOutcome { message: "think mode: nothink".to_owned(), exit: false }
            },
            SlashCommand::SetCtx(n) => {
                self.ctx_size = n;
                let digits: String = decimal_of(n as u64);
                CommandOutcome {
                    message: wrapped("ctx_size = ", digits.as_str(), " (session will rebuild)"),
                    exit: false,
                }
            },
            SlashCommand::ReadFile(path) => {
                let message: String = wrapped(
                    "/read queued: ",
                    path.as_str(),
                    " (consumed on next message)",
                );
                self.queued_file = Some(path);
                CommandOutcome { message, exit: false }
            },
            SlashCommand::SetSystem(prompt) => {
                let (kept, message) = system_set(prompt);
                self.system_prompt = kept;
                CommandOutcome { message, exit: false }
            },
            SlashCommand::Clear => CommandOutcome {
                message: "session cleared".to_owned(),
                exit: false,
            },
            SlashCommand::Quit => CommandOutcome { message: "bye.".to_owned(), exit: true },
            SlashCommand::Unknown(name) => CommandOutcome {
                message: wrapped("unknown command `", name.as_str(), "`. Type /help for a list."),
                exit: false,
            },
        }
    }

    /// Takes a line in and says what to do about it. A malformed command leaves
    /// the state as it was.
    pub fn take_line(&mut self, line: &str) -> (r: Result<LineAction, CliError>)
        ensures
            final(self)@ == old(self)@.after(line@),
            match r {
                Ok(a) => old(self)@.action(line@) == Ok::<ActionView, Seq<char>>(a@),
                Err(e) => e@ is BadCommand && old(self)@.action(line@) == Err::<
                    ActionView,
                    Seq<char>,
                >(e@->BadCommand_0),
            },
    {
        let trimmed: &str = strip(line, Fringe::White);
        if trimmed.unicode_len() == 0 {
            return Ok(LineAction::Skip);
        }
        match parse_command(line) {
            Err(e) => Err(e),
            Ok(None) => {
                let file: Option<String> = self.queued_file.take();
                Ok(LineAction::Turn { text: trimmed.to_owned(), file })
            },
            Ok(Some(cmd)) => {
                let rebuild: bool = match &cmd {
                    SlashCommand::SetCtx(_) => true,
                    SlashCommand::Clear => true,
                    _ => false,
                };
                let outcome: CommandOutcome = self.apply(cmd);
                Ok(
                    LineAction::Status {
                        message: outcome.message,
                        exit: outcome.exit,
                        rebuild,
                    },
                )
            },
        }
    }
}

/// A message with a file read into it: the file, then the message on a line of
/// its own.
pub fn message_with_file(contents: &str, message: &str) -> (s: String)
    ensures
        s@ == contents@ + "\n"@ + message@,
{
    wrapped(contents, "\n", message)
}

/// White space around a line changes nothing about its command.
pub proof fn law_white_space_around_a_line(line: Seq<char>)
    ensures
        parsed(words::stripped(line, Fringe::White)) == parsed(line),
{
    words::law_stripped_once(line, Fringe::White);
}

/// No line makes the context size zero.
pub proof fn law_context_stays_positive(state: ReplView, line: Seq<char>)
    requires
        state.ctx_size > 0,
    ensures
        state.after(line).ctx_size > 0,
{
}

/// A queued file goes into the very next message, and into no other.
pub proof fn law_file_goes_into_one_message(
    state: ReplView,
    path: Seq<char>,
    first: Seq<char>,
    second: Seq<char>,
)
    requires
        words::stripped(first, Fringe::White).len() > 0,
        words::stripped(second, Fringe::White).len() > 0,
        parsed(first) == Ok::<Option<CommandView>, Seq<char>>(None),
        parsed(second) == Ok::<Option<CommandView>, Seq<char>>(None),
    ensures
        state.applied(CommandView::ReadFile(path)).action(first) == Ok::<ActionView, Seq<char>>(
            ActionView::Turn {
                text: words::stripped(first, Fringe::White),
                file: Some(path),
            },
        ),
        state.applied(CommandView::ReadFile(path)).after(first).action(second) == Ok::<
            ActionView,
            Seq<char>,
        >(ActionView::Turn { text: words::stripped(second, Fringe::White), file: None }),
{
}

/// A command carried out twice leaves the state that it leaves once.
pub proof fn law_repeating_a_command(state: ReplView, c: CommandView)
    ensures
        state.applied(c).applied(c) == state.applied(c),
{
}

/// `/ctx` sets the very size that is written after it, in any number of digits.
pub proof fn law_ctx_reads_its_number(n: nat)
    requires
        0 < n <= usize::MAX,
    ensures
        command("/ctx"@, text::decimal(n)) == Ok::<CommandView, Seq<char>>(CommandView::SetCtx(n)),
{
    words::law_decimal_is_read_back(n);
    reveal_strlit("/ctx");
    reveal_strlit("/help");
    reveal_strlit("/think");
    reveal_strlit("/think-max");
    reveal_strlit("/nothink");
    reveal_strlit("/clear");
    reveal_strlit("/quit");
    reveal_strlit("/exit");
    assert("/ctx"@.len() == 4);
}

/// Each word makes its own command, whatever comes after it.
pub proof fn law_words(tail: Seq<char>)
    ensures
        command("/help"@, tail) == Ok::<CommandView, Seq<char>>(CommandView::Help),
        command("/think"@, tail) == Ok::<CommandView, Seq<char>>(CommandView::Think),
        command("/think-max"@, tail) == Ok::<CommandView, Seq<char>>(CommandView::ThinkMax),
        command("/nothink"@, tail) == Ok::<CommandView, Seq<char>>(CommandView::NoThink),
        command("/clear"@, tail) == Ok::<CommandView, Seq<char>>(CommandView::Clear),
        command("/quit"@, tail) == Ok::<CommandView, Seq<char>>(CommandView::Quit),
        command("/exit"@, tail) == Ok::<CommandView, Seq<char>>(CommandView::Quit),
        tail.len() > 0 ==> command("/read"@, tail) == Ok::<CommandView, Seq<char>>(
            CommandView::ReadFile(tail),
        ),
        tail.len() == 0 ==> command("/read"@, tail) is Err,
        command("/system"@, tail) == Ok::<CommandView, Seq<char>>(
            CommandView::SetSystem(words::stripped(tail, Fringe::Quotes)),
        ),
{
    reveal_strlit("/help");
    reveal_strlit("/think");
    reveal_strlit("/think-max");
    reveal_strlit("/nothink");
    reveal_strlit("/clear");
    reveal_strlit("/quit");
    reveal_strlit("/exit");
    reveal_strlit("/ctx");
    reveal_strlit("/read");
    reveal_strlit("/system");
    assert("/help"@.len() == 5 && "/help"@[1] == 'h');
    assert("/think"@.len() == 6 && "/think"@[1] == 't');
    assert("/think-max"@.len() == 10);
    assert("/nothink"@.len() == 8);
    assert("/clear"@.len() == 6 && "/clear"@[1] == 'c');
    assert("/quit"@.len() == 5 && "/quit"@[1] == 'q');
    assert("/exit"@.len() == 5 && "/exit"@[1] == 'e');
    assert("/ctx"@.len() == 4);
    assert("/read"@.len() == 5 && "/read"@[1] == 'r');
    assert("/system"@.len() == 7);
}

/// A command changes what it names and nothing else of a session; only leaving
/// ends the program, and only another context or a cleared one starts over.
pub proof fn law_one_thing_changes(state: ReplView, c: CommandView)
    ensures
        state.applied(c).think_mode != state.think_mode ==> c is Think || c is ThinkMax || c
            is NoThink,
        state.applied(c).ctx_size != state.ctx_size ==> c is SetCtx,
        state.applied(c).system_prompt != state.system_prompt ==> c is SetSystem,
        state.applied(c).queued_file != state.queued_file ==> c is ReadFile,
        c is Think ==> state.applied(c).think_mode == ThinkMode::Think,
        c is ThinkMax ==> state.applied(c).think_mode == ThinkMode::ThinkMax,
        c is NoThink ==> state.applied(c).think_mode == ThinkMode::NoThink,
        c is SetCtx ==> state.applied(c).ctx_size == c->SetCtx_0,
        c is ReadFile ==> state.applied(c).queued_file == Some(c->ReadFile_0),
        rebuilds(c) <==> c is SetCtx || c is Clear,
{
}

} // verus!
