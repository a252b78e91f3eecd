//! Segment classifier: consumes decoded response records in order and emits
//! stream events, wrapping reasoning fragments in explicit open and close
//! markers so a consumer can tell reasoning spans from answer spans.

use vstd::prelude::*;

use crate::api::GenerateResponse;

verus! {

/// One event of the classified stream. A reasoning span is always bracketed:
/// ReasoningOpen precedes its chunks, ReasoningClose follows them and
/// precedes any later answer chunk, and exactly one of StreamComplete or
/// StreamFailed ends the sequence.
#[derive(Debug, Clone, PartialEq, Eq)]
pub enum StreamEvent {
    ReasoningOpen,
    ReasoningChunk(String),
    ReasoningClose,
    AnswerChunk(String),
    StreamComplete,
    StreamFailed(String),
}

/// Mathematical model of one stream event.
pub enum SpecEvent {
    ReasoningOpen,
    ReasoningChunk(Seq<char>),
    ReasoningClose,
    AnswerChunk(Seq<char>),
    StreamComplete,
    StreamFailed(Seq<char>),
}

impl View for StreamEvent {
    type V = SpecEvent;

    open spec fn view(&self) -> SpecEvent {
        match self {
            StreamEvent::ReasoningOpen => SpecEvent::ReasoningOpen,
            StreamEvent::ReasoningChunk(s) => SpecEvent::ReasoningChunk(s@),
            StreamEvent::ReasoningClose => SpecEvent::ReasoningClose,
            StreamEvent::AnswerChunk(s) => SpecEvent::AnswerChunk(s@),
            StreamEvent::StreamComplete => SpecEvent::StreamComplete,
            StreamEvent::StreamFailed(s) => SpecEvent::StreamFailed(s@),
        }
    }
}

/// Events emitted for one record, given whether a reasoning span is open.
/// A record may carry reasoning text, visible text, both, or neither, and
/// may in addition signal completion.
pub open spec fn unit_events(
    flag: bool,
    response: Seq<char>,
    thinking: Seq<char>,
    done: bool,
) -> Seq<SpecEvent> {
    let opens = if thinking.len() > 0 && !flag {
        seq![SpecEvent::ReasoningOpen]
    } else {
        Seq::<SpecEvent>::empty()
    };
    let rchunk = if thinking.len() > 0 {
        seq![SpecEvent::ReasoningChunk(thinking)]
    } else {
        Seq::<SpecEvent>::empty()
    };
    let flag1 = flag || thinking.len() > 0;
    let closes = if response.len() > 0 && flag1 {
        seq![SpecEvent::ReasoningClose]
    } else {
        Seq::<SpecEvent>::empty()
    };
    let achunk = if response.len() > 0 {
        seq![SpecEvent::AnswerChunk(response)]
    } else {
        Seq::<SpecEvent>::empty()
    };
    let flag2 = if response.len() > 0 {
        false
    } else {
        flag1
    };
    let fin = if done {
        (if flag2 {
            seq![SpecEvent::ReasoningClose]
        } else {
            Seq::<SpecEvent>::empty()
        }) + seq![SpecEvent::StreamComplete]
    } else {
        Seq::<SpecEvent>::empty()
    };
    opens + rchunk + closes + achunk + fin
}

/// The reasoning-span flag after one record.
pub open spec fn unit_flag_after(
    flag: bool,
    response: Seq<char>,
    thinking: Seq<char>,
    done: bool,
) -> bool {
    if done {
        false
    } else if response.len() > 0 {
        false
    } else {
        flag || thinking.len() > 0
    }
}

/// Events emitted for an upstream decode or transport error: the open
/// reasoning span is closed first, then the stream fails.
pub open spec fn error_events(flag: bool, reason: Seq<char>) -> Seq<SpecEvent> {
    (if flag {
        seq![SpecEvent::ReasoningClose]
    } else {
        Seq::<SpecEvent>::empty()
    }) + seq![SpecEvent::StreamFailed(reason)]
}

/// Events emitted when the upstream ends without a final record: the open
/// reasoning span is closed first, then the stream completes, so a consumer
/// is never left waiting.
pub open spec fn end_events(flag: bool) -> Seq<SpecEvent> {
    (if flag {
        seq![SpecEvent::ReasoningClose]
    } else {
        Seq::<SpecEvent>::empty()
    }) + seq![SpecEvent::StreamComplete]
}

/// No event of `evs` completes or fails the stream.
pub open spec fn terminal_free(evs: Seq<SpecEvent>) -> bool {
    forall|i: int|
        0 <= i < evs.len() ==> !((#[trigger] evs[i]) is StreamComplete || evs[i] is StreamFailed)
}

/// The reasoning-span state after a run of events, starting from `flag`.
pub open spec fn flag_after_events(evs: Seq<SpecEvent>, flag: bool) -> bool
    decreases evs.len(),
{
    if evs.len() == 0 {
        flag
    } else {
        let f2 = match evs[0] {
            SpecEvent::ReasoningOpen => true,
            SpecEvent::ReasoningClose => false,
            _ => flag,
        };
        flag_after_events(evs.drop_first(), f2)
    }
}

/// The ordering invariant of the event stream, from span state `flag`: a
/// span opens only when none is open, reasoning chunks appear only inside an
/// open span, a close only ends an open span, answer chunks appear only
/// outside a span, and a terminal event stands last, with no span left open.
pub open spec fn events_wf_from(evs: Seq<SpecEvent>, flag: bool) -> bool
    decreases evs.len(),
{
    if evs.len() == 0 {
        true
    } else {
        match evs[0] {
            SpecEvent::ReasoningOpen => !flag && events_wf_from(evs.drop_first(), true),
            SpecEvent::ReasoningChunk(_) => flag && events_wf_from(evs.drop_first(), true),
            SpecEvent::ReasoningClose => flag && events_wf_from(evs.drop_first(), false),
            SpecEvent::AnswerChunk(_) => !flag && events_wf_from(evs.drop_first(), false),
            SpecEvent::StreamComplete => !flag && evs.len() == 1,
            SpecEvent::StreamFailed(_) => !flag && evs.len() == 1,
        }
    }
}

proof fn lemma_terminal_free_drop_first(a: Seq<SpecEvent>)
    requires
        terminal_free(a),
        a.len() > 0,
    ensures
        terminal_free(a.drop_first()),
{
    assert forall|i: int|
        0 <= i < a.drop_first().len() implies !((#[trigger] a.drop_first()[i]) is StreamComplete
        || a.drop_first()[i] is StreamFailed) by {
        assert(a.drop_first()[i] == a[i + 1]);
    }
}

proof fn lemma_events_wf_concat(a: Seq<SpecEvent>, b: Seq<SpecEvent>, flag: bool)
    requires
        events_wf_from(a, flag),
        terminal_free(a),
        events_wf_from(b, flag_after_events(a, flag)),
    ensures
        events_wf_from(a + b, flag),
    decreases a.len(),
{
    if a.len() == 0 {
        assert(a + b =~= b);
    } else {
        let f2 = match a[0] {
            SpecEvent::ReasoningOpen => true,
            SpecEvent::ReasoningClose => false,
            _ => flag,
        };
        assert((a + b)[0] == a[0]);
        assert((a + b).drop_first() =~= a.drop_first() + b);
        lemma_terminal_free_drop_first(a);
        match a[0] {
            SpecEvent::ReasoningChunk(_) => {
                assert(events_wf_from(a.drop_first(), true));
            },
            SpecEvent::AnswerChunk(_) => {
                assert(events_wf_from(a.drop_first(), false));
            },
            _ => {},
        }
        lemma_events_wf_concat(a.drop_first(), b, f2);
    }
}

proof fn lemma_terminal_free_concat(a: Seq<SpecEvent>, b: Seq<SpecEvent>)
    requires
        terminal_free(a),
        terminal_free(b),
    ensures
        terminal_free(a + b),
{
    assert forall|i: int|
        0 <= i < (a + b).len() implies !((#[trigger] (a + b)[i]) is StreamComplete || (a
        + b)[i] is StreamFailed) by {
        if i < a.len() {
            assert((a + b)[i] == a[i]);
        } else {
            assert((a + b)[i] == b[i - a.len()]);
        }
    }
}

proof fn lemma_flag_after_concat(a: Seq<SpecEvent>, b: Seq<SpecEvent>, flag: bool)
    ensures
        flag_after_events(a + b, flag) == flag_after_events(b, flag_after_events(a, flag)),
    decreases a.len(),
{
    if a.len() == 0 {
        assert(a + b =~= b);
    } else {
        let f2 = match a[0] {
            SpecEvent::ReasoningOpen => true,
            SpecEvent::ReasoningClose => false,
            _ => flag,
        };
        assert((a + b)[0] == a[0]);
        assert((a + b).drop_first() =~= a.drop_first() + b);
        lemma_flag_after_concat(a.drop_first(), b, f2);
    }
}

proof fn lemma_wf_singleton(e: SpecEvent, flag: bool)
    requires
        !(e is StreamComplete || e is StreamFailed),
        e is ReasoningOpen ==> !flag,
        e is ReasoningChunk ==> flag,
        e is ReasoningClose ==> flag,
        e is AnswerChunk ==> !flag,
    ensures
        events_wf_from(seq![e], flag),
        terminal_free(seq![e]),
        flag_after_events(seq![e], flag) == (match e {
            SpecEvent::ReasoningOpen => true,
            SpecEvent::ReasoningClose => false,
            _ => flag,
        }),
{
    assert(seq![e].len() == 1);
    assert(seq![e][0] == e);
    assert(seq![e].drop_first() =~= Seq::<SpecEvent>::empty());
    assert(events_wf_from(Seq::<SpecEvent>::empty(), true));
    assert(events_wf_from(Seq::<SpecEvent>::empty(), false));
    assert(flag_after_events(Seq::<SpecEvent>::empty(), true));
    assert(!flag_after_events(Seq::<SpecEvent>::empty(), false));
}

/// Law (event ordering, one record): the events emitted for one record obey
/// the ordering invariant from the current span state; when the record does
/// not complete the stream, they are terminal-free and leave the span state
/// the classifier tracks, and when it does, they end with StreamComplete.
pub proof fn lemma_unit_events_ordering(
    flag: bool,
    response: Seq<char>,
    thinking: Seq<char>,
    done: bool,
)
    ensures
        events_wf_from(unit_events(flag, response, thinking, done), flag),
        !done ==> terminal_free(unit_events(flag, response, thinking, done)),
        !done ==> flag_after_events(unit_events(flag, response, thinking, done), flag)
            == unit_flag_after(flag, response, thinking, done),
        done ==> unit_events(flag, response, thinking, done).len() > 0 && unit_events(
            flag,
            response,
            thinking,
            done,
        ).last() is StreamComplete,
{
    let empty = Seq::<SpecEvent>::empty();
    let opens = if thinking.len() > 0 && !flag {
        seq![SpecEvent::ReasoningOpen]
    } else {
        empty
    };
    let rchunk = if thinking.len() > 0 {
        seq![SpecEvent::ReasoningChunk(thinking)]
    } else {
        empty
    };
    let flag1 = flag || thinking.len() > 0;
    let closes = if response.len() > 0 && flag1 {
        seq![SpecEvent::ReasoningClose]
    } else {
        empty
    };
    let achunk = if response.len() > 0 {
        seq![SpecEvent::AnswerChunk(response)]
    } else {
        empty
    };
    let flag2 = if response.len() > 0 {
        false
    } else {
        flag1
    };
    let fin = if done {
        (if flag2 {
            seq![SpecEvent::ReasoningClose]
        } else {
            empty
        }) + seq![SpecEvent::StreamComplete]
    } else {
        empty
    };
    // facts about the empty piece, used whenever a piece is absent
    assert(events_wf_from(empty, true));
    assert(events_wf_from(empty, false));
    assert(flag_after_events(empty, true));
    assert(!flag_after_events(empty, false));
    assert(terminal_free(empty));
    // the head pieces: well formed, terminal-free, tracking the span state
    if thinking.len() > 0 && !flag {
        lemma_wf_singleton(SpecEvent::ReasoningOpen, flag);
    }
    if thinking.len() > 0 {
        lemma_wf_singleton(SpecEvent::ReasoningChunk(thinking), true);
    }
    lemma_events_wf_concat(opens, rchunk, flag);
    lemma_terminal_free_concat(opens, rchunk);
    lemma_flag_after_concat(opens, rchunk, flag);
    let e1 = opens + rchunk;
    assert(events_wf_from(e1, flag));
    assert(flag_after_events(e1, flag) == flag1);
    if response.len() > 0 && flag1 {
        lemma_wf_singleton(SpecEvent::ReasoningClose, flag1);
    }
    lemma_events_wf_concat(e1, closes, flag);
    lemma_terminal_free_concat(e1, closes);
    lemma_flag_after_concat(e1, closes, flag);
    let e2 = e1 + closes;
    let flag_c = if response.len() > 0 && flag1 {
        false
    } else {
        flag1
    };
    assert(flag_after_events(e2, flag) == flag_c);
    if response.len() > 0 {
        lemma_wf_singleton(SpecEvent::AnswerChunk(response), false);
    }
    lemma_events_wf_concat(e2, achunk, flag);
    lemma_terminal_free_concat(e2, achunk);
    lemma_flag_after_concat(e2, achunk, flag);
    let e3 = e2 + achunk;
    assert(flag_after_events(e3, flag) == flag2);
    // the terminal piece
    if done {
        assert(seq![SpecEvent::StreamComplete].drop_first() =~= empty);
        assert(events_wf_from(seq![SpecEvent::StreamComplete], false));
        if flag2 {
            assert((seq![SpecEvent::ReasoningClose] + seq![SpecEvent::StreamComplete]).drop_first()
                =~= seq![SpecEvent::StreamComplete]);
            assert(events_wf_from(fin, flag2));
        } else {
            assert(empty + seq![SpecEvent::StreamComplete] =~= seq![SpecEvent::StreamComplete]);
            assert(events_wf_from(fin, flag2));
        }
        assert(fin.last() is StreamComplete);
    } else {
        assert(events_wf_from(fin, flag2));
    }
    lemma_events_wf_concat(e3, fin, flag);
    assert(unit_events(flag, response, thinking, done) == e3 + fin);
    if !done {
        assert(fin =~= empty);
        assert(e3 + fin =~= e3);
        lemma_terminal_free_concat(e3, fin);
        assert(flag_after_events(e3, flag) == unit_flag_after(flag, response, thinking, done));
    } else {
        assert((e3 + fin).last() == fin.last());
        assert((e3 + fin).len() > 0);
    }
}

/// The events of a whole classified run: each record's events in order up
/// to and including the first final record, completed explicitly when the
/// source ends without one. Records are given as (visible text, reasoning
/// text, completion flag) triples.
pub open spec fn classify_run(units: Seq<(Seq<char>, Seq<char>, bool)>, flag: bool) -> Seq<
    SpecEvent,
>
    decreases units.len(),
{
    if units.len() == 0 {
        end_events(flag)
    } else {
        let u = units[0];
        let evs = unit_events(flag, u.0, u.1, u.2);
        if u.2 {
            evs
        } else {
            evs + classify_run(units.drop_first(), unit_flag_after(flag, u.0, u.1, u.2))
        }
    }
}

/// Law (the ordering invariant of the event stream): whatever records a run
/// delivers, the classified event sequence is well bracketed -- every
/// reasoning span opens before its chunks and closes before any later
/// answer chunk -- and exactly one terminal event ends it.
pub proof fn lemma_classify_run_well_bracketed(units: Seq<(Seq<char>, Seq<char>, bool)>, flag: bool)
    ensures
        events_wf_from(classify_run(units, flag), flag),
        classify_run(units, flag).len() > 0,
        classify_run(units, flag).last() is StreamComplete,
    decreases units.len(),
{
    if units.len() == 0 {
        assert(seq![SpecEvent::StreamComplete].len() == 1);
        assert(seq![SpecEvent::StreamComplete][0] == SpecEvent::StreamComplete);
        assert(seq![SpecEvent::StreamComplete].drop_first() =~= Seq::<SpecEvent>::empty());
        assert(events_wf_from(seq![SpecEvent::StreamComplete], false));
        if flag {
            let pair = seq![SpecEvent::ReasoningClose] + seq![SpecEvent::StreamComplete];
            assert(pair[0] == SpecEvent::ReasoningClose);
            assert(pair.drop_first() =~= seq![SpecEvent::StreamComplete]);
            assert(events_wf_from(pair, flag));
            assert(end_events(flag).last() is StreamComplete);
        } else {
            assert(Seq::<SpecEvent>::empty() + seq![SpecEvent::StreamComplete] =~= seq![
                SpecEvent::StreamComplete,
            ]);
        }
    } else {
        let u = units[0];
        lemma_unit_events_ordering(flag, u.0, u.1, u.2);
        if !u.2 {
            let f2 = unit_flag_after(flag, u.0, u.1, u.2);
            lemma_classify_run_well_bracketed(units.drop_first(), f2);
            lemma_events_wf_concat(
                unit_events(flag, u.0, u.1, u.2),
                classify_run(units.drop_first(), f2),
                flag,
            );
            assert((unit_events(flag, u.0, u.1, u.2) + classify_run(units.drop_first(), f2)).last()
                == classify_run(units.drop_first(), f2).last());
        }
    }
}

/// Law (ordering under failure): an upstream error also yields a well
/// bracketed event sequence, ending in exactly one StreamFailed.
pub proof fn lemma_error_events_well_bracketed(flag: bool, reason: Seq<char>)
    ensures
        events_wf_from(error_events(flag, reason), flag),
        error_events(flag, reason).len() > 0,
        error_events(flag, reason).last() is StreamFailed,
{
    assert(seq![SpecEvent::StreamFailed(reason)].len() == 1);
    assert(seq![SpecEvent::StreamFailed(reason)][0] == SpecEvent::StreamFailed(reason));
    assert(seq![SpecEvent::StreamFailed(reason)].drop_first() =~= Seq::<SpecEvent>::empty());
    assert(events_wf_from(seq![SpecEvent::StreamFailed(reason)], false));
    if flag {
        let pair = seq![SpecEvent::ReasoningClose] + seq![SpecEvent::StreamFailed(reason)];
        assert(pair[0] == SpecEvent::ReasoningClose);
        assert(pair.drop_first() =~= seq![SpecEvent::StreamFailed(reason)]);
        assert(events_wf_from(pair, flag));
        assert(error_events(flag, reason).last() is StreamFailed);
    } else {
        assert(Seq::<SpecEvent>::empty() + seq![SpecEvent::StreamFailed(reason)] =~= seq![
            SpecEvent::StreamFailed(reason),
        ]);
    }
}

/// The classifier: a single reasoning-span flag, and a terminated flag that
/// guarantees nothing follows the terminal event.
#[derive(Debug, Clone)]
pub struct SegmentClassifier {
    pub in_reasoning: bool,
    pub terminated: bool,
}

impl SegmentClassifier {
    /// A fresh classifier: no reasoning span open, not terminated.
    pub fn new() -> (c: SegmentClassifier)
        ensures
            !c.in_reasoning,
            !c.terminated,
    {
        SegmentClassifier { in_reasoning: false, terminated: false }
    }

    /// Classifies one record. After a terminal event has been emitted, no
    /// further record produces anything.
    pub fn on_unit(&mut self, unit: &GenerateResponse) -> (events: Vec<StreamEvent>)
        ensures
            old(self).terminated ==> *final(self) == *old(self) && events@ == Seq::<
                StreamEvent,
            >::empty(),
            !old(self).terminated ==> {
                &&& events@.map_values(|e: StreamEvent| e@) == unit_events(
                    old(self).in_reasoning,
                    unit.response@,
                    unit.thinking@,
                    unit.done,
                )
                &&& final(self).in_reasoning == unit_flag_after(
                    old(self).in_reasoning,
                    unit.response@,
                    unit.thinking@,
                    unit.done,
                )
                &&& final(self).terminated == unit.done
            },
    {
        let mut events: Vec<StreamEvent> = Vec::new();
        if self.terminated {
            proof {
                assert(events@ =~= Seq::<StreamEvent>::empty());
            }
            return events;
        }
        if !unit.thinking.as_str().is_empty() {
            if !self.in_reasoning {
                events.push(StreamEvent::ReasoningOpen);
                self.in_reasoning = true;
            }
            events.push(StreamEvent::ReasoningChunk(unit.thinking.clone()));
        }
        if !unit.response.as_str().is_empty() {
            if self.in_reasoning {
                events.push(StreamEvent::ReasoningClose);
            }
            self.in_reasoning = false;
            events.push(StreamEvent::AnswerChunk(unit.response.clone()));
        }
        if unit.done {
            if self.in_reasoning {
                events.push(StreamEvent::ReasoningClose);
            }
            self.in_reasoning = false;
            events.push(StreamEvent::StreamComplete);
            self.terminated = true;
        }
        proof {
            assert(events@.map_values(|e: StreamEvent| e@) =~= unit_events(
                old(self).in_reasoning,
                unit.response@,
                unit.thinking@,
                unit.done,
            ));
        }
        events
    }

    /// Classifies an upstream decode or transport error: closes the open
    /// reasoning span and fails the stream, unless already terminated.
    pub fn on_error(&mut self, reason: String) -> (events: Vec<StreamEvent>)
        ensures
            old(self).terminated ==> *final(self) == *old(self) && events@ == Seq::<
                StreamEvent,
            >::empty(),
            !old(self).terminated ==> {
                &&& events@.map_values(|e: StreamEvent| e@) == error_events(
                    old(self).in_reasoning,
                    reason@,
                )
                &&& !final(self).in_reasoning
                &&& final(self).terminated
            },
    {
        let mut events: Vec<StreamEvent> = Vec::new();
        if self.terminated {
            proof {
                assert(events@ =~= Seq::<StreamEvent>::empty());
            }
            return events;
        }
        let ghost reason_view = reason@;
        if self.in_reasoning {
            events.push(StreamEvent::ReasoningClose);
        }
        self.in_reasoning = false;
        events.push(StreamEvent::StreamFailed(reason));
        self.terminated = true;
        proof {
            assert(events@.map_values(|e: StreamEvent| e@) =~= error_events(
                old(self).in_reasoning,
                reason_view,
            ));
        }
        events
    }

    /// Classifies the end of the upstream without a final record: closes the
    /// open reasoning span and completes the stream, unless already
    /// terminated. A stream therefore never leaves its consumer waiting.
    pub fn on_end(&mut self) -> (events: Vec<StreamEvent>)
        ensures
            old(self).terminated ==> *final(self) == *old(self) && events@ == Seq::<
                StreamEvent,
            >::empty(),
            !old(self).terminated ==> {
                &&& events@.map_values(|e: StreamEvent| e@) == end_events(old(self).in_reasoning)
                &&& !final(self).in_reasoning
                &&& final(self).terminated
            },
    {
        let mut events: Vec<StreamEvent> = Vec::new();
        if self.terminated {
            proof {
                assert(events@ =~= Seq::<StreamEvent>::empty());
            }
            return events;
        }
        if self.in_reasoning {
            events.push(StreamEvent::ReasoningClose);
        }
        self.in_reasoning = false;
        events.push(StreamEvent::StreamComplete);
        self.terminated = true;
        proof {
            assert(events@.map_values(|e: StreamEvent| e@) =~= end_events(
                old(self).in_reasoning,
            ));
        }
        events
    }
}

} // verus!
