//! The decisions of the prompt window's conversation: what a tool call's
//! arguments look like on screen, what one streamed turn leaves in the
//! history, what Escape does, and how the request opens.

use vstd::prelude::*;

use crate::text::{owned, push_str, trim, trim_chars, chars_of, string_of};

verus! {

// ---------------------------------------------------------------------------
// Tool call arguments
// ---------------------------------------------------------------------------

/// The pretty-printed form of JSON text: `None` when the text is not JSON.
pub uninterp spec fn pretty_json(raw: Seq<char>) -> Option<Seq<char>>;

/// `serde_json::from_str::<serde_json::Value>` on `raw`, then
/// `serde_json::to_string_pretty` on the value it gives. Claimed: the result
/// depends on `raw` alone (`pretty_json`), and is `None` when either step
/// fails.
#[verifier::external_body]
fn json_pretty(raw: &str) -> (r: Option<String>)
    ensures
        match r {
            Some(p) => pretty_json(raw@) == Some(p@),
            None => pretty_json(raw@) is None,
        },
{
    serde_json::from_str::<serde_json::Value>(raw).ok().and_then(|value| serde_json::to_string_pretty(&value).ok())
}

/// The display text of a tool call's arguments: the pretty form when there
/// is one, the raw text otherwise.
pub open spec fn args_display(raw: Seq<char>, pretty: Option<Seq<char>>) -> Seq<char> {
    match pretty {
        Some(p) => p,
        None => raw,
    }
}

/// Choose between the pretty form (if any) and the raw arguments.
pub fn pretty_or_raw(raw: &str, pretty: Option<String>) -> (r: String)
    ensures
        r@ == args_display(raw@, match pretty {
            Some(p) => Some(p@),
            None => None,
        }),
{
    match pretty {
        Some(p) => p,
        None => owned(raw),
    }
}

/// A tool call's arguments (JSON text) pretty-printed for display, falling
/// back to the raw text if it isn't valid JSON.
pub fn pretty_args(raw: &str) -> (r: String)
    ensures
        r@ == args_display(raw@, pretty_json(raw@)),
{
    let pretty = json_pretty(raw);
    pretty_or_raw(raw, pretty)
}

// ---------------------------------------------------------------------------
// One streamed turn
// ---------------------------------------------------------------------------

/// What arrives while a reply streams in.
pub enum ChatEvent {
    Reasoning(String),
    Delta(String),
    ToolCall,
    ToolResult,
    Done,
    Error(String),
}

/// The answer text gathered during one turn, and whether it failed.
pub struct TurnLog {
    pub answer: String,
    pub errored: bool,
}

impl TurnLog {
    pub fn new() -> (r: Self)
        ensures
            r.answer@.len() == 0,
            !r.errored,
    {
        TurnLog { answer: String::new(), errored: false }
    }

    /// Record an event; the result says whether the stream goes on.
    pub fn record(&mut self, event: &ChatEvent) -> (more: bool)
        ensures
            more == !(event is Done || event is Error),
            final(self).answer@ == match event {
                ChatEvent::Delta(d) => old(self).answer@ + d@,
                _ => old(self).answer@,
            },
            final(self).errored == (old(self).errored || event is Error),
    {
        match event {
            ChatEvent::Delta(d) => {
                push_str(&mut self.answer, d.as_str());
                true
            },
            ChatEvent::Done => false,
            ChatEvent::Error(_) => {
                self.errored = true;
                false
            },
            _ => true,
        }
    }

    /// The assistant message the turn adds to the history: its answer, when
    /// the turn did not fail and produced any.
    pub fn reply(&self) -> (r: Option<String>)
        ensures
            match r {
                Some(a) => !self.errored && self.answer@.len() > 0 && a@ == self.answer@,
                None => self.errored || self.answer@.len() == 0,
            },
    {
        if !self.errored && !self.answer.as_str().is_empty() {
            Some(owned(self.answer.as_str()))
        } else {
            None
        }
    }
}

// ---------------------------------------------------------------------------
// The window around the turn
// ---------------------------------------------------------------------------

/// What Escape does: close an idle prompt, or clear a conversation.
#[derive(Clone, Copy, Debug, PartialEq, Eq, Structural)]
pub enum EscapeAction {
    Close,
    Clear,
}

/// Escape closes the window when no chat is showing and nothing was said;
/// otherwise it clears the conversation.
pub fn escape_action(chat_shown: bool, history_len: usize) -> (r: EscapeAction)
    ensures
        r == (if chat_shown || history_len > 0 { EscapeAction::Clear } else { EscapeAction::Close }),
{
    if chat_shown || history_len > 0 {
        EscapeAction::Clear
    } else {
        EscapeAction::Close
    }
}

/// The system message a request opens with: the configured prompt, trimmed,
/// when anything is left of it.
pub fn system_message(prompt: &str) -> (r: Option<String>)
    ensures
        match r {
            Some(m) => m@ == trim(prompt@) && m@.len() > 0,
            None => trim(prompt@).len() == 0,
        },
{
    let v = chars_of(prompt);
    let t = trim_chars(v.as_slice());
    if t.len() == 0 {
        None
    } else {
        Some(string_of(t.as_slice()))
    }
}

/// Whether a message is sent: it must be non-empty, and no reply may be
/// streaming.
pub fn accepts_message(message: &str, streaming: bool) -> (r: bool)
    ensures
        r == (message@.len() > 0 && !streaming),
{
    !message.is_empty() && !streaming
}

} // verus!
