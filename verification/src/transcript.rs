//! The routing rules of a streaming assistant turn: a block is opened the
//! moment a new kind of event arrives and extended while events of the same
//! kind keep coming; the block it supersedes is settled first (a reasoning
//! trace collapses, a streaming answer snaps to its final render). The
//! widgets themselves live outside this library; each step here says what
//! to do to them.

use vstd::prelude::*;

use crate::text::{
    chars_of, concat, decimal, owned, push_decimal, push_str, string_of, trim, trim_chars,
};

verus! {

/// The kind of block currently trailing.
#[derive(Clone, Copy, Debug, PartialEq, Eq, Structural)]
pub enum Trailing {
    NoBlock,
    Reasoning,
    Answer,
    Tool,
}

/// What to do to the trailing block before another kind starts.
#[derive(Clone, Copy, Debug, PartialEq, Eq, Structural)]
pub enum Settle {
    Nothing,
    /// Collapse the open reasoning trace, titled with how long it ran.
    CollapseReasoning,
    /// Snap the streaming answer to its final render.
    SnapAnswer,
}

/// One step's instructions: settle the trailing block as said, open a new
/// block if asked, and show or hide the activity spinner.
#[derive(Clone, Copy, Debug, PartialEq, Eq, Structural)]
pub struct Step {
    pub settle: Settle,
    pub open_block: bool,
    pub busy: bool,
}

/// What is known of the turn's blocks.
#[derive(Clone, Copy, Debug, PartialEq, Eq, Structural)]
pub struct Transcript {
    pub trailing: Trailing,
    /// Whether a reasoning trace exists, and whether it is collapsed.
    pub reasoning: Option<bool>,
    /// Whether an answer block exists, and whether it has received text.
    pub answer: Option<bool>,
    /// Whether a tool call is waiting for its result.
    pub tool_pending: bool,
}

/// How the trailing block is settled.
pub open spec fn settle_of(s: Transcript) -> Settle {
    match s.trailing {
        Trailing::Reasoning => if s.reasoning == Some(false) { Settle::CollapseReasoning } else { Settle::Nothing },
        Trailing::Answer => if s.answer == Some(true) { Settle::SnapAnswer } else { Settle::Nothing },
        _ => Settle::Nothing,
    }
}

/// The state after settling.
pub open spec fn settled(s: Transcript) -> Transcript {
    if settle_of(s) == Settle::CollapseReasoning {
        Transcript { reasoning: Some(true), ..s }
    } else {
        s
    }
}

fn settle(s: Transcript) -> (r: (Settle, Transcript))
    ensures
        r.0 == settle_of(s),
        r.1 == settled(s),
{
    match s.trailing {
        Trailing::Reasoning => {
            if s.reasoning == Some(false) {
                (Settle::CollapseReasoning, Transcript { reasoning: Some(true), ..s })
            } else {
                (Settle::Nothing, s)
            }
        },
        Trailing::Answer => {
            if s.answer == Some(true) {
                (Settle::SnapAnswer, s)
            } else {
                (Settle::Nothing, s)
            }
        },
        _ => (Settle::Nothing, s),
    }
}

impl Transcript {
    /// A turn with no blocks yet.
    pub fn new() -> (r: Self)
        ensures
            r == (Transcript { trailing: Trailing::NoBlock, reasoning: None, answer: None, tool_pending: false }),
    {
        Transcript { trailing: Trailing::NoBlock, reasoning: None, answer: None, tool_pending: false }
    }

    /// Reasoning text arrives: it extends a trailing trace, or opens a new one.
    pub fn push_reasoning(&mut self) -> (step: Step)
        ensures
            old(self).trailing == Trailing::Reasoning ==> step == (Step {
                settle: Settle::Nothing,
                open_block: false,
                busy: false,
            }) && *final(self) == *old(self),
            old(self).trailing != Trailing::Reasoning ==> step == (Step {
                settle: settle_of(*old(self)),
                open_block: true,
                busy: false,
            }) && *final(self) == (Transcript {
                trailing: Trailing::Reasoning,
                reasoning: Some(false),
                ..settled(*old(self))
            }),
    {
        if self.trailing == Trailing::Reasoning {
            return Step { settle: Settle::Nothing, open_block: false, busy: false };
        }
        let (how, s) = settle(*self);
        *self = Transcript { trailing: Trailing::Reasoning, reasoning: Some(false), ..s };
        Step { settle: how, open_block: true, busy: false }
    }

    /// Answer text arrives: it extends a trailing answer, or opens a new one.
    pub fn push_answer(&mut self) -> (step: Step)
        ensures
            old(self).trailing == Trailing::Answer ==> step == (Step {
                settle: Settle::Nothing,
                open_block: false,
                busy: false,
            }) && *final(self) == (Transcript { answer: Some(true), ..*old(self) }),
            old(self).trailing != Trailing::Answer ==> step == (Step {
                settle: settle_of(*old(self)),
                open_block: true,
                busy: false,
            }) && *final(self) == (Transcript {
                trailing: Trailing::Answer,
                answer: Some(true),
                ..settled(*old(self))
            }),
    {
        if self.trailing == Trailing::Answer {
            *self = Transcript { answer: Some(true), ..*self };
            return Step { settle: Settle::Nothing, open_block: false, busy: false };
        }
        let (how, s) = settle(*self);
        *self = Transcript { trailing: Trailing::Answer, answer: Some(true), ..s };
        Step { settle: how, open_block: true, busy: false }
    }

    /// A tool call starts: it always opens a block of its own.
    pub fn push_tool_call(&mut self) -> (step: Step)
        ensures
            step == (Step { settle: settle_of(*old(self)), open_block: true, busy: false }),
            *final(self) == (Transcript { trailing: Trailing::Tool, tool_pending: true, ..settled(*old(self)) }),
    {
        let (how, s) = settle(*self);
        *self = Transcript { trailing: Trailing::Tool, tool_pending: true, ..s };
        Step { settle: how, open_block: true, busy: false }
    }

    /// A tool result arrives: it completes the pending call (if any), and the
    /// turn waits for the model's next block.
    pub fn push_tool_result(&mut self) -> (completes: bool)
        ensures
            completes == old(self).tool_pending,
            *final(self) == (Transcript { trailing: Trailing::Tool, tool_pending: false, ..*old(self) }),
    {
        let completes = self.tool_pending;
        *self = Transcript { trailing: Trailing::Tool, tool_pending: false, ..*self };
        completes
    }

    /// An error ends the turn: it trails a partial answer (the result is
    /// true) when the answer is trailing and has text, else it gets a block
    /// of its own.
    pub fn show_error(&self) -> (r: bool)
        ensures
            r == (self.trailing == Trailing::Answer && self.answer == Some(true)),
    {
        self.trailing == Trailing::Answer && self.answer == Some(true)
    }

    /// Tear the turn down: no blocks are left.
    pub fn clear(&mut self)
        ensures
            *final(self) == (Transcript { trailing: Trailing::NoBlock, reasoning: None, answer: None, tool_pending: false }),
    {
        *self = Transcript::new();
    }

    /// At the end of the turn: whether to snap the answer, and whether to
    /// retitle a reasoning trace the model left open.
    pub fn finish(&self) -> (r: (bool, bool))
        ensures
            r.0 == (self.answer == Some(true)),
            r.1 == (self.reasoning == Some(false)),
    {
        (self.answer == Some(true), self.reasoning == Some(false))
    }
}

// ---------------------------------------------------------------------------
// Titles and bodies
// ---------------------------------------------------------------------------

/// The title of a collapsed reasoning trace that ran `secs` seconds.
pub open spec fn thought_title_text(secs: nat) -> Seq<char> {
    if secs == 0 {
        "Thought for a moment"@
    } else {
        "Thought for "@ + decimal(secs) + "s"@
    }
}

pub fn thought_title(secs: u64) -> (r: String)
    ensures
        r@ == thought_title_text(secs as nat),
{
    if secs == 0 {
        owned("Thought for a moment")
    } else {
        let mut t = owned("Thought for ");
        push_decimal(&mut t, secs);
        push_str(&mut t, "s");
        t
    }
}

/// `Running {name}…`, the title of a tool call in flight.
pub fn running_title(name: &str) -> (r: String)
    ensures
        r@ == "Running "@ + name@ + "…"@,
{
    let mut t = owned("Running ");
    push_str(&mut t, name);
    push_str(&mut t, "…");
    t
}

/// `Ran {name}`, the title of a finished tool call.
pub fn ran_title(name: &str) -> (r: String)
    ensures
        r@ == "Ran "@ + name@,
{
    let mut t = owned("Ran ");
    push_str(&mut t, name);
    t
}

/// The parts of a finished tool call's body: its arguments, trimmed, unless
/// empty or `{}`; and its output, trimmed, unless empty.
pub open spec fn tool_body_of(args: Seq<char>, output: Seq<char>) -> (Option<Seq<char>>, Option<Seq<char>>) {
    let a = trim(args);
    let o = trim(output);
    (if a.len() == 0 || a == "{}"@ { None } else { Some(a) }, if o.len() == 0 { None } else { Some(o) })
}

pub open spec fn opt_pair_view(r: (Option<String>, Option<String>)) -> (Option<Seq<char>>, Option<Seq<char>>) {
    (match r.0 {
        Some(s) => Some(s@),
        None => None,
    }, match r.1 {
        Some(s) => Some(s@),
        None => None,
    })
}

pub fn tool_body(args: &str, output: &str) -> (r: (Option<String>, Option<String>))
    ensures
        opt_pair_view(r) == tool_body_of(args@, output@),
{
    let av = chars_of(args);
    let a = trim_chars(av.as_slice());
    let ov = chars_of(output);
    let o = trim_chars(ov.as_slice());
    proof {
        reveal_strlit("{}");
    }
    let braces = a.len() == 2 && a[0] == '{' && a[1] == '}';
    assert(braces == (a@ == "{}"@)) by {
        if a@ == "{}"@ {
            assert(a@[0] == '{' && a@[1] == '}');
        }
        if braces {
            assert(a@ =~= "{}"@);
        }
    }
    let shown_args = if a.len() == 0 || braces {
        None
    } else {
        Some(string_of(a.as_slice()))
    };
    let shown_output = if o.len() == 0 {
        None
    } else {
        Some(string_of(o.as_slice()))
    };
    (shown_args, shown_output)
}

// ---------------------------------------------------------------------------
// Fading in streamed answer text
// ---------------------------------------------------------------------------

/// How long, in milliseconds, a freshly arrived chunk takes to fade in.
pub const FADE_MS: u64 = 250;

/// The text of a streaming answer: the part whose fade has finished, and the
/// chunks still fading in, each with its arrival time (milliseconds on a
/// monotonic clock).
pub struct FadeQueue {
    pub settled: String,
    pub pending: Vec<(String, u64)>,
}

pub open spec fn chunk_texts(pending: Seq<(String, u64)>) -> Seq<Seq<char>> {
    pending.map_values(|p: (String, u64)| p.0@)
}

/// Whether a chunk that arrived at `arrival` has finished fading at `now`.
pub open spec fn faded(arrival: u64, now: u64) -> bool {
    now >= arrival && now - arrival >= FADE_MS
}

/// How many leading chunks have finished fading.
pub open spec fn faded_count(pending: Seq<(String, u64)>, now: u64) -> nat
    decreases pending.len(),
{
    if pending.len() > 0 && faded(pending[0].1, now) {
        1 + faded_count(pending.drop_first(), now)
    } else {
        0
    }
}

impl FadeQueue {
    /// Everything received so far, settled plus still fading, in order.
    pub open spec fn text(&self) -> Seq<char> {
        self.settled@ + concat(chunk_texts(self.pending@))
    }

    pub fn new() -> (r: Self)
        ensures
            r.settled@.len() == 0,
            r.pending@.len() == 0,
    {
        FadeQueue { settled: String::new(), pending: Vec::new() }
    }

    /// A chunk arrives at `now`.
    pub fn push(&mut self, chunk: String, now: u64)
        ensures
            final(self).settled@ == old(self).settled@,
            final(self).pending@ == old(self).pending@.push((chunk, now)),
    {
        self.pending.push((chunk, now));
    }

    /// Move the chunks whose fade has finished (always the leading ones,
    /// since arrivals come in order) into the settled text; the result says
    /// whether any moved.
    pub fn settle(&mut self, now: u64) -> (grew: bool)
        ensures
            ({
                let k = faded_count(old(self).pending@, now) as int;
                &&& grew == (k > 0)
                &&& final(self).pending@ == old(self).pending@.skip(k)
                &&& final(self).settled@ == old(self).settled@ + concat(chunk_texts(old(self).pending@.take(k)))
            }),
    {
        let ghost orig = self.pending@;
        let total = self.pending.len();
        let mut moved: usize = 0;
        proof {
            lemma_faded_count_bound(orig, now);
            assert(orig.skip(0) =~= orig);
            assert(orig.take(0) =~= Seq::<(String, u64)>::empty());
            assert(chunk_texts(orig.take(0)) =~= Seq::<Seq<char>>::empty());
            assert(self.settled@ =~= old(self).settled@ + concat(chunk_texts(orig.take(0))));
        }
        while self.pending.len() > 0 && now >= self.pending[0].1 && now - self.pending[0].1 >= FADE_MS
            invariant
                moved <= orig.len(),
                orig.len() == total,
                self.pending@ == orig.skip(moved as int),
                self.settled@ == old(self).settled@ + concat(chunk_texts(orig.take(moved as int))),
                faded_count(orig, now) == moved + faded_count(orig.skip(moved as int), now),
            decreases self.pending.len(),
        {
            let ghost before = self.pending@;
            let (text, _) = self.pending.remove(0);
            proof {
                assert(before[0] == orig[moved as int]);
                assert(self.pending@ =~= orig.skip(moved + 1));
                assert(orig.skip(moved as int).drop_first() =~= orig.skip(moved + 1));
                assert(chunk_texts(orig.take(moved + 1)) =~= chunk_texts(orig.take(moved as int)).push(text@));
                assert(chunk_texts(orig.take(moved + 1)).drop_last() =~= chunk_texts(orig.take(moved as int)));
            }
            push_str(&mut self.settled, text.as_str());
            moved = moved + 1;
        }
        moved > 0
    }

    /// Everything received so far, settled plus still fading, in order.
    pub fn full_text(&self) -> (r: String)
        ensures
            r@ == self.text(),
    {
        let mut out = owned(self.settled.as_str());
        let mut i: usize = 0;
        while i < self.pending.len()
            invariant
                i <= self.pending.len(),
                out@ == self.settled@ + concat(chunk_texts(self.pending@.take(i as int))),
            decreases self.pending.len() - i,
        {
            proof {
                assert(chunk_texts(self.pending@.take(i + 1)).drop_last() =~= chunk_texts(self.pending@.take(i as int)));
                assert(chunk_texts(self.pending@.take(i + 1)).last() == self.pending@[i as int].0@);
            }
            push_str(&mut out, self.pending[i].0.as_str());
            i = i + 1;
        }
        assert(self.pending@.take(self.pending.len() as int) =~= self.pending@);
        out
    }

    /// Whether nothing has arrived.
    pub fn is_empty(&self) -> (r: bool)
        ensures
            r == (self.settled@.len() == 0 && self.pending@.len() == 0),
    {
        self.settled.as_str().is_empty() && self.pending.len() == 0
    }
}

proof fn lemma_faded_count_bound(pending: Seq<(String, u64)>, now: u64)
    ensures
        faded_count(pending, now) <= pending.len(),
    decreases pending.len(),
{
    if pending.len() > 0 {
        lemma_faded_count_bound(pending.drop_first(), now);
    }
}

proof fn lemma_concat_append(a: Seq<Seq<char>>, b: Seq<Seq<char>>)
    ensures
        concat(a + b) == concat(a) + concat(b),
    decreases b.len(),
{
    if b.len() == 0 {
        assert(a + b =~= a);
        assert(concat(a) + concat(b) =~= concat(a));
    } else {
        lemma_concat_append(a, b.drop_last());
        assert((a + b).drop_last() =~= a + b.drop_last());
        assert((a + b).last() == b.last());
        assert(concat(a) + (concat(b.drop_last()) + b.last()) =~= (concat(a) + concat(b.drop_last())) + b.last());
    }
}

/// Settling only moves text from the fading chunks into the settled part:
/// the full text received so far stays exactly the same.
pub proof fn law_settle_keeps_text(settled: Seq<char>, pending: Seq<(String, u64)>, k: int)
    requires
        0 <= k <= pending.len(),
    ensures
        (settled + concat(chunk_texts(pending.take(k)))) + concat(chunk_texts(pending.skip(k))) == settled + concat(
            chunk_texts(pending),
        ),
{
    assert(chunk_texts(pending) =~= chunk_texts(pending.take(k)) + chunk_texts(pending.skip(k)));
    lemma_concat_append(chunk_texts(pending.take(k)), chunk_texts(pending.skip(k)));
    assert((settled + concat(chunk_texts(pending.take(k)))) + concat(chunk_texts(pending.skip(k))) =~= settled + (concat(
        chunk_texts(pending.take(k)),
    ) + concat(chunk_texts(pending.skip(k)))));
}

} // verus!
