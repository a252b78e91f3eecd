//! Conversation assembler: the sole mutator of one in-progress assistant
//! message per generation turn. It appends incoming fragments, recomputes an
//! approximate token count after each append, derives a tokens-per-second
//! rate from elapsed time and token delta, and finalizes or aborts the
//! message on terminal events. Cancellation keeps the partial content and
//! appends a fixed marker; a finished turn silently drops every later event.

use vstd::prelude::*;
use vstd::string::StringExecFns;

use crate::classify::SpecEvent;
use crate::classify::StreamEvent;
use crate::tokens::spec_message_tokens;

verus! {

/// Marker opening a reasoning span in the assembled content.
pub open spec fn reasoning_open_marker() -> Seq<char> {
    "<thinking>\n"@
}

/// Marker closing a reasoning span in the assembled content.
pub open spec fn reasoning_close_marker() -> Seq<char> {
    "\n</thinking>\n"@
}

/// The fixed marker appended when the user cancels mid-stream.
pub open spec fn cancel_marker() -> Seq<char> {
    "\n\n[Response stream aborted by user]"@
}

/// Prefix of the notice produced for a failed stream.
pub open spec fn error_prefix() -> Seq<char> {
    "Error: "@
}

/// `n` clamped into `usize`.
pub open spec fn clamped_usize(n: int) -> usize {
    if n > usize::MAX as int {
        usize::MAX
    } else if n < 0 {
        0
    } else {
        n as usize
    }
}

/// `n` clamped into `u64`.
pub open spec fn clamped_u64(n: int) -> u64 {
    if n > u64::MAX as int {
        u64::MAX
    } else if n < 0 {
        0
    } else {
        n as u64
    }
}

/// Mathematical model of one assistant turn. `content` is what is shown and
/// stored; `accounted` is the full transcript including reasoning text and
/// its markers whether or not they are shown, and is what the token count is
/// computed over (reasoning tokens were generated and consumed context
/// regardless of the visibility preference).
pub struct TurnModel {
    pub content: Seq<char>,
    pub accounted: Seq<char>,
    pub token_count: usize,
    pub started_at_ms: Option<u64>,
    pub generated_tokens: usize,
    pub tokens_per_second_milli: u64,
    pub in_reasoning_span: bool,
    pub finished: bool,
    pub show_reasoning: bool,
    pub failure_notice: Option<Seq<char>>,
}

/// A fresh turn: an empty placeholder message, counters at zero, timer not
/// started.
pub open spec fn initial_turn(show_reasoning: bool) -> TurnModel {
    TurnModel {
        content: Seq::<char>::empty(),
        accounted: Seq::<char>::empty(),
        token_count: 0,
        started_at_ms: None,
        generated_tokens: 0,
        tokens_per_second_milli: 0,
        in_reasoning_span: false,
        finished: false,
        show_reasoning: show_reasoning,
        failure_notice: None,
    }
}

/// One appending step: `text` joins the accounted transcript always and the
/// visible content when `visible`; the token count is recomputed over the
/// transcript; the delta (clamped at zero) joins the generated-token
/// counter; the timer starts on the first append; the rate is recomputed
/// whenever elapsed time is positive, in thousandths of a token per second.
pub open spec fn spec_append(t: TurnModel, text: Seq<char>, visible: bool, now_ms: u64) -> TurnModel {
    let content2 = if visible {
        t.content + text
    } else {
        t.content
    };
    let accounted2 = t.accounted + text;
    let new_count = clamped_usize(spec_message_tokens(accounted2) as int);
    let delta: int = if new_count > t.token_count {
        new_count - t.token_count
    } else {
        0
    };
    let started = if t.started_at_ms is None {
        Some(now_ms)
    } else {
        t.started_at_ms
    };
    let gen = clamped_usize(t.generated_tokens + delta);
    let elapsed: int = if now_ms >= started.unwrap() {
        now_ms - started.unwrap()
    } else {
        0
    };
    let tps = if elapsed > 0 {
        clamped_u64(gen * 1000000 / elapsed)
    } else {
        t.tokens_per_second_milli
    };
    TurnModel {
        content: content2,
        accounted: accounted2,
        token_count: new_count,
        started_at_ms: started,
        generated_tokens: gen,
        tokens_per_second_milli: tps,
        ..t
    }
}

/// The turn after one stream event. A finished turn absorbs every event
/// unchanged. Reasoning markers and text join the visible content only when
/// the turn shows reasoning; the span flag tracks open and close either way.
/// Completion stops the timer and finishes the turn; failure in addition
/// records an error notice, destined for a separate message.
pub open spec fn spec_apply(t: TurnModel, ev: SpecEvent, now_ms: u64) -> TurnModel {
    if t.finished {
        t
    } else {
        match ev {
            SpecEvent::ReasoningOpen => spec_append(
                TurnModel { in_reasoning_span: true, ..t },
                reasoning_open_marker(),
                t.show_reasoning,
                now_ms,
            ),
            SpecEvent::ReasoningChunk(x) => spec_append(t, x, t.show_reasoning, now_ms),
            SpecEvent::ReasoningClose => spec_append(
                TurnModel { in_reasoning_span: false, ..t },
                reasoning_close_marker(),
                t.show_reasoning,
                now_ms,
            ),
            SpecEvent::AnswerChunk(x) => spec_append(t, x, true, now_ms),
            SpecEvent::StreamComplete => TurnModel { finished: true, started_at_ms: None, ..t },
            SpecEvent::StreamFailed(r) => TurnModel {
                finished: true,
                started_at_ms: None,
                failure_notice: Some(error_prefix() + r),
                ..t
            },
        }
    }
}

/// The turn after an explicit user cancellation: the partial content stays,
/// the fixed marker is appended, the span flag clears, the timer stops, the
/// turn finishes. Cancelling a finished turn changes nothing.
pub open spec fn spec_cancel(t: TurnModel) -> TurnModel {
    if t.finished {
        t
    } else {
        TurnModel {
            content: t.content + cancel_marker(),
            in_reasoning_span: false,
            started_at_ms: None,
            finished: true,
            ..t
        }
    }
}

/// The assembler owning one turn's state.
#[derive(Debug)]
pub struct TurnAssembler {
    pub content: String,
    accounted: String,
    pub token_count: usize,
    pub started_at_ms: Option<u64>,
    pub generated_tokens: usize,
    pub tokens_per_second_milli: u64,
    pub in_reasoning_span: bool,
    pub finished: bool,
    pub show_reasoning: bool,
    pub failure_notice: Option<String>,
}

impl View for TurnAssembler {
    type V = TurnModel;

    closed spec fn view(&self) -> TurnModel {
        TurnModel {
            content: self.content@,
            accounted: self.accounted@,
            token_count: self.token_count,
            started_at_ms: self.started_at_ms,
            generated_tokens: self.generated_tokens,
            tokens_per_second_milli: self.tokens_per_second_milli,
            in_reasoning_span: self.in_reasoning_span,
            finished: self.finished,
            show_reasoning: self.show_reasoning,
            failure_notice: match self.failure_notice {
                Some(ref s) => Some(s@),
                None => None,
            },
        }
    }
}

impl TurnAssembler {
    /// A fresh turn, created the instant a prompt is submitted.
    pub fn new(show_reasoning: bool) -> (t: TurnAssembler)
        ensures
            t@ == initial_turn(show_reasoning),
    {
        TurnAssembler {
            content: String::new(),
            accounted: String::new(),
            token_count: 0,
            started_at_ms: None,
            generated_tokens: 0,
            tokens_per_second_milli: 0,
            in_reasoning_span: false,
            finished: false,
            show_reasoning,
            failure_notice: None,
        }
    }

    /// One appending event: text, token accounting, timer and rate.
    fn append_text(&mut self, text: &str, visible: bool, now_ms: u64)
        requires
            !old(self).finished,
        ensures
            final(self)@ == spec_append(old(self)@, text@, visible, now_ms),
    {
        if visible {
            self.content.append(text);
        }
        self.accounted.append(text);
        let new_count = crate::tokens::count_message_tokens("assistant", self.accounted.as_str());
        let delta: usize = if new_count > self.token_count {
            new_count - self.token_count
        } else {
            0
        };
        self.token_count = new_count;
        let started: u64 = match self.started_at_ms {
            Some(s) => s,
            None => {
                self.started_at_ms = Some(now_ms);
                now_ms
            },
        };
        if self.generated_tokens <= usize::MAX - delta {
            self.generated_tokens = self.generated_tokens + delta;
        } else {
            self.generated_tokens = usize::MAX;
        }
        let elapsed: u64 = if now_ms >= started {
            now_ms - started
        } else {
            0
        };
        if elapsed > 0 {
            let wide: u128 = (self.generated_tokens as u128) * 1000000u128 / (elapsed as u128);
            if wide <= u64::MAX as u128 {
                self.tokens_per_second_milli = wide as u64;
            } else {
                self.tokens_per_second_milli = u64::MAX;
            }
        }
    }

    /// Folds one stream event into the turn. A finished turn (completed,
    /// failed or cancelled) is left exactly as it is, so late events for the
    /// turn mutate nothing and terminal events are never applied twice.
    pub fn apply_event(&mut self, ev: &StreamEvent, now_ms: u64)
        ensures
            final(self)@ == spec_apply(old(self)@, ev@, now_ms),
    {
        if self.finished {
            return ;
        }
        let show = self.show_reasoning;
        match ev {
            StreamEvent::ReasoningOpen => {
                self.in_reasoning_span = true;
                self.append_text("<thinking>\n", show, now_ms);
            },
            StreamEvent::ReasoningChunk(x) => {
                self.append_text(x.as_str(), show, now_ms);
            },
            StreamEvent::ReasoningClose => {
                self.in_reasoning_span = false;
                self.append_text("\n</thinking>\n", show, now_ms);
            },
            StreamEvent::AnswerChunk(x) => {
                self.append_text(x.as_str(), true, now_ms);
            },
            StreamEvent::StreamComplete => {
                self.finished = true;
                self.started_at_ms = None;
            },
            StreamEvent::StreamFailed(r) => {
                let mut notice = String::from_str("Error: ");
                notice.append(r.as_str());
                proof {
                    assert(notice@ == error_prefix() + r@);
                }
                self.failure_notice = Some(notice);
                self.finished = true;
                self.started_at_ms = None;
            },
        }
    }

    /// Explicit user cancellation: keeps the partial content, appends the
    /// fixed marker, clears the span flag, stops the timer, finishes the
    /// turn. Cancelling an already-finished turn is a no-op.
    pub fn cancel(&mut self)
        ensures
            final(self)@ == spec_cancel(old(self)@),
    {
        if self.finished {
            return ;
        }
        self.content.append("\n\n[Response stream aborted by user]");
        self.in_reasoning_span = false;
        self.started_at_ms = None;
        self.finished = true;
    }
}

/// Law: once a turn is finished, every further event leaves it unchanged;
/// in particular a late event after cancellation mutates nothing, and a
/// duplicate terminal event neither duplicates the error notice nor touches
/// the content.
pub proof fn lemma_finished_turn_absorbs_events(t: TurnModel, ev: SpecEvent, now_ms: u64)
    requires
        t.finished,
    ensures
        spec_apply(t, ev, now_ms) == t,
{
}

/// Law: cancelling mid-stream leaves the content with the fixed marker at
/// its end, stops the timer, finishes the turn, and freezes the token rate;
/// any event arriving afterwards for this turn changes nothing.
pub proof fn lemma_cancel_effect(t: TurnModel, ev: SpecEvent, now_ms: u64)
    requires
        !t.finished,
    ensures
        spec_cancel(t).content == t.content + cancel_marker(),
        spec_cancel(t).finished,
        spec_cancel(t).tokens_per_second_milli == t.tokens_per_second_milli,
        spec_cancel(t).token_count == t.token_count,
        spec_apply(spec_cancel(t), ev, now_ms) == spec_cancel(t),
{
}

/// Law: finalizing is idempotent. A second terminal event after the first
/// is absorbed, and cancelling twice equals cancelling once, so neither the
/// error notice nor the cancellation marker can appear twice.
pub proof fn lemma_finalize_idempotent(
    t: TurnModel,
    e1: SpecEvent,
    e2: SpecEvent,
    n1: u64,
    n2: u64,
)
    requires
        e1 is StreamComplete || e1 is StreamFailed,
        e2 is StreamComplete || e2 is StreamFailed,
    ensures
        spec_apply(spec_apply(t, e1, n1), e2, n2) == spec_apply(t, e1, n1),
        spec_cancel(spec_cancel(t)) == spec_cancel(t),
{
}

} // verus!
