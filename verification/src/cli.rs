//! What the command line asks for, and what the chat shows.
//!
//! Reading arguments and lines and printing is left to the program; here is what follows
//! from them.
use crate::text::{join, joined, parse_usize, parsed, trim, trimmed};
use vstd::prelude::*;
use vstd::string::{StrSliceExecFns, StringExecFns};

verus! {

/// What the arguments (the program's name first) ask for.
#[derive(Clone, Copy, Debug, PartialEq, Eq, Structural)]
pub enum Command {
    /// Complete a prompt: the second argument is the limit, the rest is the prompt.
    Complete,
    /// `complete` without a limit: show its usage.
    CompleteUsage,
    /// Chat: the second argument, if there is one, is the limit.
    Chat,
    /// Anything else: show the usage.
    Help,
}

/// What is wrong with the arguments of a command.
#[derive(Debug)]
pub enum ArgumentError {
    /// The limit of a completion is not a number.
    MaxNewTokens(String),
    /// The limit of a chat is not a number.
    MaxNew(String),
    /// There is no prompt.
    NoPrompt,
}

/// What `{:?}` makes of a text: the text in quotes, with what needs it escaped.
pub uninterp spec fn quoted_text(text: Seq<char>) -> Seq<char>;

/// A text in quotes, with what needs it escaped.
///
/// Wraps `format!` with `{:?}` on a `str`, that is `<str as Debug>::fmt`. What is claimed of
/// it: the result is a function of the text alone. What it is, is not said.
#[verifier::external_body]
fn quoted(text: &str) -> (r: String)
    ensures
        r@ == quoted_text(text@),
{
    format!("{text:?}")
}

impl ArgumentError {
    /// The argument that is wrong; nothing where one is missing.
    pub open spec fn argument(&self) -> Seq<char> {
        match self {
            ArgumentError::MaxNewTokens(arg) => arg@,
            ArgumentError::MaxNew(arg) => arg@,
            ArgumentError::NoPrompt => Seq::empty(),
        }
    }

    /// The error in words, the argument in quotes being `arg`.
    pub open spec fn text(&self, arg: Seq<char>) -> Seq<char> {
        match self {
            ArgumentError::MaxNewTokens(_) => "invalid max-new-tokens "@ + arg,
            ArgumentError::MaxNew(_) => "invalid max-new "@ + arg,
            ArgumentError::NoPrompt => "need a prompt"@,
        }
    }

    /// The error in words.
    pub fn message(&self) -> (r: String)
        ensures
            r@ == self.text(quoted_text(self.argument())),
    {
        match self {
            ArgumentError::MaxNewTokens(arg) => self.message_with(quoted(arg.as_str()).as_str()),
            ArgumentError::MaxNew(arg) => self.message_with(quoted(arg.as_str()).as_str()),
            ArgumentError::NoPrompt => self.message_with(""),
        }
    }

    /// The error in words, the argument in quotes being `arg`.
    pub fn message_with(&self, arg: &str) -> (r: String)
        ensures
            r@ == self.text(arg@),
    {
        let mut s: String = String::new();
        match self {
            ArgumentError::MaxNewTokens(_) => {
                s.append("invalid max-new-tokens ");
                s.append(arg);
            },
            ArgumentError::MaxNew(_) => {
                s.append("invalid max-new ");
                s.append(arg);
            },
            ArgumentError::NoPrompt => {
                s.append("need a prompt");
            },
        }
        assert(s@ =~= self.text(arg@));
        s
    }
}

/// A prompt to complete.
pub struct Completion {
    /// How many tokens to generate at most.
    pub max_gen: usize,
    /// The prompt.
    pub text: String,
}

/// What a line read by the chat asks for.
pub enum ChatInput {
    /// The end of the chat, as there is no more input.
    End,
    /// Nothing.
    Nothing,
    /// The end of the chat.
    Quit,
    /// A reply to a message.
    Message(String),
}

/// Colours of the chat, as terminal escape sequences: the reasoning of a reply is shown in
/// another colour than its answer.
pub struct Palette {
    /// The user's prompt.
    pub user: &'static str,
    /// The reasoning.
    pub think: &'static str,
    /// The answer.
    pub answer: &'static str,
    /// Statistics.
    pub dim: &'static str,
    /// Back to normal.
    pub reset: &'static str,
}

/// The command that the arguments name.
pub open spec fn command_spec(args: Seq<String>) -> Command {
    if args.len() > 1 && args[1]@ == "complete"@ {
        if args.len() > 2 {
            Command::Complete
        } else {
            Command::CompleteUsage
        }
    } else if args.len() > 1 && args[1]@ == "chat"@ {
        Command::Chat
    } else {
        Command::Help
    }
}

/// Whether two texts are the same.
fn same(a: &str, b: &str) -> (r: bool)
    ensures
        r == (a@ == b@),
{
    a.to_owned() == b.to_owned()
}

/// The command that the arguments name.
pub fn command(args: &[String]) -> (r: Command)
    ensures
        r == command_spec(args@),
{
    if args.len() > 1 && same(args[1].as_str(), "complete") {
        if args.len() > 2 {
            Command::Complete
        } else {
            Command::CompleteUsage
        }
    } else if args.len() > 1 && same(args[1].as_str(), "chat") {
        Command::Chat
    } else {
        Command::Help
    }
}

/// The weights file: the one that the environment names, else the one in the current
/// directory.
pub fn weights_path(from_env: Option<String>) -> (r: String)
    ensures
        r@ == (match from_env {
            Some(path) => path@,
            None => "./LFM2.5-8B-A1B-Q4_K_M.gguf"@,
        }),
{
    match from_env {
        Some(path) => path,
        None => "./LFM2.5-8B-A1B-Q4_K_M.gguf".to_owned(),
    }
}

/// The completion that a limit and the words of a prompt ask for. A bad limit is reported
/// before a missing prompt.
pub fn completion(max: &str, words: &[String]) -> (r: Result<Completion, ArgumentError>)
    ensures
        r is Ok <==> parsed(max@) is Some && joined(words@).len() > 0,
        r matches Ok(c) ==> Some(c.max_gen) == parsed(max@) && c.text@ == joined(words@),
        r matches Err(e) ==> if parsed(max@) is None {
            e matches ArgumentError::MaxNewTokens(arg) && arg@ == max@
        } else {
            e is NoPrompt
        },
{
    match parse_usize(max) {
        None => Err(ArgumentError::MaxNewTokens(max.to_owned())),
        Some(max_gen) => {
            let text: String = join(words);
            if same(text.as_str(), "") {
                proof {
                    reveal_strlit("");
                }
                Err(ArgumentError::NoPrompt)
            } else {
                proof {
                    reveal_strlit("");
                    if text@.len() == 0 {
                        assert(text@ =~= ""@);
                    }
                }
                Ok(Completion { max_gen, text })
            }
        },
    }
}

/// The limit that the arguments of `chat` set, if they do.
pub fn chat_limit(args: &[String]) -> (r: Result<Option<usize>, ArgumentError>)
    ensures
        r is Ok <==> args@.len() == 0 || parsed(args@[0]@) is Some,
        r matches Ok(limit) ==> limit == if args@.len() == 0 {
            None
        } else {
            parsed(args@[0]@)
        },
        r matches Err(e) ==> e matches ArgumentError::MaxNew(arg) && arg@ == args@[0]@,
{
    if args.len() == 0 {
        Ok(None)
    } else {
        match parse_usize(args[0].as_str()) {
            Some(n) => Ok(Some(n)),
            None => Err(ArgumentError::MaxNew(args[0].clone())),
        }
    }
}

/// What a line read by the chat asks for. A line without any character, not even the one
/// that ends it, is the end of input; in others, white space around the text does not count.
pub fn chat_input(line: &str) -> (r: ChatInput)
    ensures
        r is End <==> line@.len() == 0,
        r is Nothing <==> line@.len() > 0 && trimmed(line@).len() == 0,
        r is Quit <==> trimmed(line@) == "/exit"@ || trimmed(line@) == "/quit"@,
        r matches ChatInput::Message(m) ==> m@ == trimmed(line@),
{
    if line.unicode_len() == 0 {
        proof {
            reveal_strlit("/exit");
            reveal_strlit("/quit");
            assert(trimmed(line@) =~= line@);
        }
        return ChatInput::End;
    }
    let msg: &str = trim(line);
    proof {
        reveal_strlit("");
        reveal_strlit("/exit");
        reveal_strlit("/quit");
        if msg@.len() == 0 {
            assert(msg@ =~= ""@);
        }
    }
    if same(msg, "") {
        ChatInput::Nothing
    } else if same(msg, "/exit") || same(msg, "/quit") {
        ChatInput::Quit
    } else {
        ChatInput::Message(msg.to_owned())
    }
}

impl Palette {
    /// The colours for a terminal; none where the output is not one.
    pub fn detect(terminal: bool) -> (r: Self)
        ensures
            terminal ==> r.user@ == "\x1b[1;32m"@ && r.think@ == "\x1b[36m"@ && r.answer@
                == "\x1b[31m"@ && r.dim@ == "\x1b[2m"@ && r.reset@ == "\x1b[0m"@,
            !terminal ==> r.user@ == ""@ && r.think@ == ""@ && r.answer@ == ""@ && r.dim@ == ""@
                && r.reset@ == ""@,
    {
        if terminal {
            Palette {
                user: "\x1b[1;32m",
                think: "\x1b[36m",
                answer: "\x1b[31m",
                dim: "\x1b[2m",
                reset: "\x1b[0m",
            }
        } else {
            Palette { user: "", think: "", answer: "", dim: "", reset: "" }
        }
    }

    /// What is shown before the user types.
    pub fn user_prompt(&self) -> (r: String)
        ensures
            r@ == self.user@ + "User>"@ + self.reset@ + " "@,
    {
        let mut s: String = self.user.to_owned();
        s.append("User>");
        s.append(self.reset);
        s.append(" ");
        s
    }

    /// What is shown for one token of a reply.
    pub open spec fn piece(
        &self,
        id: u32,
        text: Seq<char>,
        think: u32,
        think_end: u32,
        end: u32,
    ) -> Seq<char> {
        if id == end {
            Seq::empty()
        } else {
            (if id == think {
                self.think@
            } else {
                Seq::empty()
            }) + text + (if id == think_end {
                seq!['\n'] + self.answer@
            } else {
                Seq::empty()
            })
        }
    }

    /// What is shown for one token of a reply: its text; the token that opens the reasoning
    /// switches to its colour first, the one that closes it ends the line and switches to the
    /// colour of the answer. The token that ends the reply is not shown.
    pub fn reply_piece(&self, id: u32, text: &str, think: u32, think_end: u32, end: u32) -> (r:
        String)
        ensures
            r@ == self.piece(id, text@, think, think_end, end),
    {
        let mut s: String = String::new();
        if id == end {
            return s;
        }
        if id == think {
            s.append(self.think);
        }
        s.append(text);
        if id == think_end {
            proof {
                reveal_strlit("\n");
            }
            s.append("\n");
            s.append(self.answer);
        }
        assert(s@ =~= self.piece(id, text@, think, think_end, end));
        s
    }
}

} // verus!
