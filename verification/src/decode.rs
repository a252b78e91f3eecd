//! Chunk decoder: turns an unbounded sequence of raw byte chunks, delivered
//! with arbitrary and non-semantic boundaries, into complete newline-
//! terminated records, buffering incomplete trailing data between calls.
//! Each complete record is parsed into a response unit or surfaced as a
//! malformed-record error; blank records are skipped; a record that signals
//! completion terminates the stream.

use vstd::prelude::*;

use crate::api::GenerateResponse;

verus! {

/// The record terminator: a line feed.
pub const NL: u8 = 10;

/// ASCII whitespace, as used for trimming candidate records.
pub open spec fn is_ws(b: u8) -> bool {
    b == 32 || b == 9 || b == 10 || b == 13 || b == 11 || b == 12
}

/// `s` without its leading whitespace.
pub open spec fn trim_leading(s: Seq<u8>) -> Seq<u8>
    decreases s.len(),
{
    if s.len() > 0 && is_ws(s[0]) {
        trim_leading(s.drop_first())
    } else {
        s
    }
}

/// `s` without its trailing whitespace.
pub open spec fn trim_trailing(s: Seq<u8>) -> Seq<u8>
    decreases s.len(),
{
    if s.len() > 0 && is_ws(s.last()) {
        trim_trailing(s.drop_last())
    } else {
        s
    }
}

/// `s` without leading and trailing whitespace.
pub open spec fn trim_bytes(s: Seq<u8>) -> Seq<u8> {
    trim_trailing(trim_leading(s))
}

/// Index of the first record terminator in `s`, or `s.len()` when none.
pub open spec fn find_nl(s: Seq<u8>) -> int
    decreases s.len(),
{
    if s.len() == 0 {
        0
    } else if s[0] == NL {
        0
    } else {
        1 + find_nl(s.drop_first())
    }
}

pub proof fn lemma_find_nl(s: Seq<u8>)
    ensures
        0 <= find_nl(s) <= s.len(),
        find_nl(s) < s.len() ==> s[find_nl(s)] == NL,
        forall|j: int| 0 <= j < find_nl(s) ==> s[j] != NL,
    decreases s.len(),
{
    if s.len() > 0 && s[0] != NL {
        lemma_find_nl(s.drop_first());
        assert forall|j: int| 0 <= j < find_nl(s) implies s[j] != NL by {
            if j > 0 {
                assert(s.drop_first()[j - 1] == s[j]);
            }
        }
    }
}

/// Whether `b` is ASCII whitespace.
pub fn is_ws_exec(b: u8) -> (r: bool)
    ensures
        r == is_ws(b),
{
    b == 32 || b == 9 || b == 10 || b == 13 || b == 11 || b == 12
}

/// A copy of `s` without leading and trailing ASCII whitespace.
pub fn trim_vec(s: &Vec<u8>) -> (r: Vec<u8>)
    ensures
        r@ == trim_bytes(s@),
{
    let n = s.len();
    let mut lo: usize = 0;
    proof {
        assert(s@.skip(0) =~= s@);
    }
    while lo < n && is_ws_exec(s[lo])
        invariant
            n == s@.len(),
            0 <= lo <= n,
            trim_leading(s@) == trim_leading(s@.skip(lo as int)),
        decreases n - lo,
    {
        proof {
            assert(s@.skip(lo as int)[0] == s@[lo as int]);
            assert(s@.skip(lo as int).drop_first() =~= s@.skip(lo + 1));
        }
        lo = lo + 1;
    }
    proof {
        if lo < n {
            assert(s@.skip(lo as int)[0] == s@[lo as int]);
        }
        assert(trim_leading(s@) =~= s@.skip(lo as int));
    }
    let ghost u = s@.skip(lo as int);
    proof {
        assert(u.take(n - lo) =~= u);
    }
    let mut hi: usize = n;
    while hi > lo && is_ws_exec(s[hi - 1])
        invariant
            n == s@.len(),
            0 <= lo <= hi <= n,
            u == s@.skip(lo as int),
            trim_trailing(u) == trim_trailing(u.take(hi - lo)),
        decreases hi,
    {
        proof {
            let t = u.take(hi - lo);
            assert(t.last() == s@[hi - 1]);
            assert(t.drop_last() =~= u.take(hi - 1 - lo));
        }
        hi = hi - 1;
    }
    proof {
        let t = u.take(hi - lo);
        if hi > lo {
            assert(t.last() == s@[hi - 1]);
        }
        assert(trim_trailing(t) =~= t);
        assert(trim_bytes(s@) =~= u.take(hi - lo));
    }
    let mut out: Vec<u8> = Vec::new();
    let mut i: usize = lo;
    while i < hi
        invariant
            lo <= i <= hi <= n,
            n == s@.len(),
            out@ =~= s@.subrange(lo as int, i as int),
        decreases hi - i,
    {
        proof {
            assert(s@.subrange(lo as int, i + 1) =~= s@.subrange(lo as int, i as int).push(
                s@[i as int],
            ));
        }
        out.push(s[i]);
        i = i + 1;
    }
    proof {
        assert(s@.subrange(lo as int, hi as int) =~= u.take(hi - lo));
    }
    out
}

/// What one candidate record's bytes parse to: `None` when the bytes are not
/// one well-formed record; otherwise the visible text, the reasoning text,
/// and the completion flag. This names the result of the JSON parser: it is
/// a function of the bytes alone.
pub uninterp spec fn parse_record(s: Seq<u8>) -> Option<(Seq<char>, Seq<char>, bool)>;

/// Relies on serde_json::from_str and serde_json::Value: whether the bytes
/// form one JSON object whose `done` field is a boolean and whose optional
/// `response` and `thinking` fields are strings, and what those fields hold,
/// depends on the bytes alone; the result is named `parse_record`.
#[verifier::external_body]
fn parse_record_bytes(bytes: &Vec<u8>) -> (r: Option<GenerateResponse>)
    ensures
        r is Some <==> parse_record(bytes@) is Some,
        r matches Some(u) ==> parse_record(bytes@) == Some((u.response@, u.thinking@, u.done)),
{
    let text = String::from_utf8_lossy(bytes.as_slice());
    let v: serde_json::Value = match serde_json::from_str(text.trim()) {
        Ok(v) => v,
        Err(_) => return None,
    };
    let done = match v.get("done") { Some(serde_json::Value::Bool(b)) => *b, _ => return None };
    let response = match v.get("response") {
        Some(serde_json::Value::String(s)) => s.clone(), None => String::new(), Some(_) => return None,
    };
    let thinking = match v.get("thinking") {
        Some(serde_json::Value::String(s)) => s.clone(), None => String::new(), Some(_) => return None,
    };
    Some(GenerateResponse { response, thinking, done })
}

/// Outcome of decoding one candidate record: a response unit, or a
/// malformed-record error carrying the offending bytes.
#[derive(Debug, Clone, PartialEq, Eq)]
pub enum DecodeOutcome {
    Record(GenerateResponse),
    Malformed(Vec<u8>),
}

/// Mathematical model of one decode outcome.
pub enum SpecOutcome {
    Unit { response: Seq<char>, thinking: Seq<char>, done: bool },
    Bad { text: Seq<u8> },
}

impl View for DecodeOutcome {
    type V = SpecOutcome;

    open spec fn view(&self) -> SpecOutcome {
        match self {
            DecodeOutcome::Record(u) => SpecOutcome::Unit {
                response: u.response@,
                thinking: u.thinking@,
                done: u.done,
            },
            DecodeOutcome::Malformed(v) => SpecOutcome::Bad { text: v@ },
        }
    }
}

/// The outcome of parsing the trimmed candidate `t`.
pub open spec fn outcome_of_parse(t: Seq<u8>) -> SpecOutcome {
    match parse_record(t) {
        Some(u) => SpecOutcome::Unit { response: u.0, thinking: u.1, done: u.2 },
        None => SpecOutcome::Bad { text: t },
    }
}

/// Whether the trimmed candidate `t` parses to a record that signals
/// completion.
pub open spec fn parse_terminal(t: Seq<u8>) -> bool {
    match parse_record(t) {
        Some(u) => u.2,
        None => false,
    }
}

/// One extraction attempt on a buffer: either a record (or error) comes out
/// and `rest` stays buffered, or more input is needed and the buffer keeps
/// only `rest` (blank records before it are dropped either way).
pub enum SpecStep {
    Out { outcome: SpecOutcome, rest: Seq<u8>, terminal: bool },
    Need { rest: Seq<u8> },
}

/// One extraction attempt on buffer `buf`, following the decoding algorithm:
/// take the bytes up to and including the first terminator as the candidate;
/// skip it when blank; otherwise parse it. Without a terminator, consume the
/// whole buffer early only when it already parses as a complete record on
/// its own; otherwise wait for more input.
pub open spec fn spec_poll(buf: Seq<u8>) -> SpecStep
    decreases buf.len(),
    via spec_poll_decreases
{
    let i = find_nl(buf);
    if i < buf.len() {
        let t = trim_bytes(buf.take(i + 1));
        let rest = buf.skip(i + 1);
        if t.len() == 0 {
            spec_poll(rest)
        } else {
            SpecStep::Out { outcome: outcome_of_parse(t), rest, terminal: parse_terminal(t) }
        }
    } else {
        let t = trim_bytes(buf);
        if t.len() > 0 && parse_record(t) is Some {
            SpecStep::Out {
                outcome: outcome_of_parse(t),
                rest: Seq::empty(),
                terminal: parse_terminal(t),
            }
        } else {
            SpecStep::Need { rest: buf }
        }
    }
}

#[via_fn]
proof fn spec_poll_decreases(buf: Seq<u8>) {
    lemma_find_nl(buf);
}

/// What one call of `poll` hands back.
#[derive(Debug, Clone, PartialEq, Eq)]
pub enum DecodeStep {
    /// A record or a malformed-record error.
    Out(DecodeOutcome),
    /// No complete record is buffered: feed more input, or finish.
    NeedInput,
    /// A final record was already produced: the stream is over.
    Finished,
}

/// Decoding the buffered bytes once the source is exhausted: the leftover is
/// parsed as a last record unless it is blank.
pub open spec fn spec_finish(buf: Seq<u8>) -> Option<SpecOutcome> {
    let t = trim_bytes(buf);
    if t.len() == 0 {
        None
    } else {
        Some(outcome_of_parse(t))
    }
}

/// Mathematical model of the decoder: the buffered bytes and whether a final
/// record has been produced.
pub struct DecoderModel {
    pub buffer: Seq<u8>,
    pub terminated: bool,
}

/// The chunk decoder. It exclusively owns a pending buffer of bytes not yet
/// resolved into a complete record; the buffer is never observed by any
/// other component.
#[derive(Debug)]
pub struct ChunkDecoder {
    buffer: Vec<u8>,
    terminated: bool,
}

impl View for ChunkDecoder {
    type V = DecoderModel;

    closed spec fn view(&self) -> DecoderModel {
        DecoderModel { buffer: self.buffer@, terminated: self.terminated }
    }
}

impl ChunkDecoder {
    /// A fresh decoder: empty buffer, stream not terminated.
    pub fn new() -> (d: ChunkDecoder)
        ensures
            d@.buffer == Seq::<u8>::empty(),
            !d@.terminated,
    {
        ChunkDecoder { buffer: Vec::new(), terminated: false }
    }

    /// Appends one raw transport chunk to the pending buffer. Chunk
    /// boundaries carry no meaning; a chunk may be empty, may end inside a
    /// record, or may hold several records.
    pub fn feed(&mut self, chunk: &Vec<u8>)
        ensures
            final(self)@.buffer == old(self)@.buffer + chunk@,
            final(self)@.terminated == old(self)@.terminated,
    {
        self.buffer.extend_from_slice(chunk.as_slice());
    }

    /// Attempts to extract the next record from the pending buffer. Blank
    /// candidates are skipped; a record that signals completion terminates
    /// the stream, and every later call returns `Finished`.
    pub fn poll(&mut self) -> (r: DecodeStep)
        ensures
            old(self)@.terminated ==> r is Finished && *final(self) == *old(self),
            !old(self)@.terminated ==> match spec_poll(old(self)@.buffer) {
                SpecStep::Out { outcome, rest, terminal } => {
                    &&& r matches DecodeStep::Out(d) && d@ == outcome
                    &&& final(self)@.buffer == rest
                    &&& final(self)@.terminated == terminal
                },
                SpecStep::Need { rest } => {
                    &&& r is NeedInput
                    &&& final(self)@.buffer == rest
                    &&& !final(self)@.terminated
                },
            },
    {
        if self.terminated {
            return DecodeStep::Finished;
        }
        loop
            invariant
                !old(self)@.terminated,
                !self.terminated,
                spec_poll(old(self)@.buffer) == spec_poll(self@.buffer),
            decreases self@.buffer.len(),
        {
            let n = self.buffer.len();
            let mut j: usize = 0;
            while j < n && self.buffer[j] != NL
                invariant
                    n == self@.buffer.len(),
                    0 <= j <= n,
                    forall|k: int| 0 <= k < j ==> self@.buffer[k] != NL,
                decreases n - j,
            {
                j = j + 1;
            }
            proof {
                lemma_find_nl(self@.buffer);
                if j < n {
                    assert(find_nl(self@.buffer) == j) by {
                        if find_nl(self@.buffer) < j {
                            assert(self@.buffer[find_nl(self@.buffer)] == NL);
                        }
                    }
                } else {
                    assert(find_nl(self@.buffer) == n) by {
                        if find_nl(self@.buffer) < n {
                            assert(self@.buffer[find_nl(self@.buffer)] == NL);
                        }
                    }
                }
            }
            if j < n {
                let ghost buf0 = self@.buffer;
                let mut tail = self.buffer.split_off(j + 1);
                core::mem::swap(&mut self.buffer, &mut tail);
                let candidate = tail;
                proof {
                    assert(candidate@ =~= buf0.take(j + 1));
                    assert(self@.buffer =~= buf0.skip(j + 1));
                }
                let t = trim_vec(&candidate);
                if t.len() == 0 {
                    continue ;
                }
                match parse_record_bytes(&t) {
                    Some(u) => {
                        if u.done {
                            self.terminated = true;
                        }
                        return DecodeStep::Out(DecodeOutcome::Record(u));
                    },
                    None => {
                        return DecodeStep::Out(DecodeOutcome::Malformed(t));
                    },
                }
            } else {
                let t = trim_vec(&self.buffer);
                if t.len() > 0 {
                    match parse_record_bytes(&t) {
                        Some(u) => {
                            self.buffer.clear();
                            if u.done {
                                self.terminated = true;
                            }
                            return DecodeStep::Out(DecodeOutcome::Record(u));
                        },
                        None => {
                            return DecodeStep::NeedInput;
                        },
                    }
                }
                return DecodeStep::NeedInput;
            }
        }
    }

    /// Ends the stream: the source is exhausted, so the leftover buffered
    /// bytes are decoded as one last record unless they are blank. After
    /// this the decoder is terminated.
    pub fn finish(&mut self) -> (r: Option<DecodeOutcome>)
        ensures
            old(self)@.terminated ==> r is None && *final(self) == *old(self),
            !old(self)@.terminated ==> {
                &&& final(self)@.terminated
                &&& final(self)@.buffer == Seq::<u8>::empty()
                &&& match spec_finish(old(self)@.buffer) {
                    Option::None => r is None,
                    Option::Some(o) => r matches Some(d) && d@ == o,
                }
            },
    {
        if self.terminated {
            return None;
        }
        let t = trim_vec(&self.buffer);
        self.buffer.clear();
        self.terminated = true;
        proof {
            assert(self@.buffer =~= Seq::<u8>::empty());
        }
        if t.len() == 0 {
            return None;
        }
        match parse_record_bytes(&t) {
            Some(u) => Some(DecodeOutcome::Record(u)),
            None => Some(DecodeOutcome::Malformed(t)),
        }
    }

    /// Whether a final record has already been produced.
    pub fn is_terminated(&self) -> (r: bool)
        ensures
            r == self@.terminated,
    {
        self.terminated
    }
}

pub proof fn lemma_spec_poll_rest(buf: Seq<u8>)
    ensures
        spec_poll(buf) matches SpecStep::Out { rest, .. } ==> rest.len() < buf.len(),
        spec_poll(buf) matches SpecStep::Need { rest } ==> rest.len() <= buf.len(),
    decreases buf.len(),
{
    lemma_find_nl(buf);
    let i = find_nl(buf);
    if i < buf.len() && trim_bytes(buf.take(i + 1)).len() == 0 {
        lemma_spec_poll_rest(buf.skip(i + 1));
    }
}

/// Repeated extraction from buffer `buf` until more input is needed or a
/// final record comes out: the outcomes in order, the bytes left buffered,
/// and whether the stream terminated.
pub open spec fn spec_drain(buf: Seq<u8>) -> (Seq<SpecOutcome>, Seq<u8>, bool)
    decreases buf.len(),
    via spec_drain_decreases
{
    match spec_poll(buf) {
        SpecStep::Out { outcome, rest, terminal } => {
            if terminal {
                (seq![outcome], rest, true)
            } else {
                let r = spec_drain(rest);
                (seq![outcome] + r.0, r.1, r.2)
            }
        },
        SpecStep::Need { rest } => (Seq::<SpecOutcome>::empty(), rest, false),
    }
}

#[via_fn]
proof fn spec_drain_decreases(buf: Seq<u8>) {
    lemma_spec_poll_rest(buf);
}

/// Decoding a whole recorded stream delivered as a sequence of chunks:
/// feed one chunk, extract every available record, and repeat; when the
/// source is exhausted, decode the leftover as one last record. A final
/// record stops everything after it.
pub open spec fn spec_run(chunks: Seq<Seq<u8>>, buf: Seq<u8>) -> Seq<SpecOutcome>
    decreases chunks.len(),
{
    if chunks.len() == 0 {
        match spec_finish(buf) {
            Some(o) => seq![o],
            None => Seq::<SpecOutcome>::empty(),
        }
    } else {
        let r = spec_drain(buf + chunks[0]);
        if r.2 {
            r.0
        } else {
            r.0 + spec_run(chunks.drop_first(), r.1)
        }
    }
}

/// Decodes a complete recorded byte stream delivered as arbitrary chunks:
/// every chunk is fed in order, records are extracted as soon as they are
/// complete, and the leftover is decoded once the source is exhausted. The
/// outcome sequence is exactly the one `spec_run` gives for these chunks.
pub fn decode_chunks(chunks: &Vec<Vec<u8>>) -> (out: Vec<DecodeOutcome>)
    ensures
        out@.map_values(|d: DecodeOutcome| d@) == spec_run(
            chunks@.map_values(|c: Vec<u8>| c@),
            Seq::<u8>::empty(),
        ),
{
    let ghost cmap = chunks@.map_values(|c: Vec<u8>| c@);
    let mut dec = ChunkDecoder::new();
    let mut out: Vec<DecodeOutcome> = Vec::new();
    let n = chunks.len();
    let mut i: usize = 0;
    proof {
        assert(cmap.skip(0) =~= cmap);
        assert(out@.map_values(|d: DecodeOutcome| d@) =~= Seq::<SpecOutcome>::empty());
        assert(Seq::<SpecOutcome>::empty() + spec_run(cmap, Seq::<u8>::empty()) =~= spec_run(
            cmap,
            Seq::<u8>::empty(),
        ));
    }
    while i < n
        invariant_except_break
            0 <= i <= n,
            n == chunks@.len(),
            cmap == chunks@.map_values(|c: Vec<u8>| c@),
            !dec@.terminated,
            spec_run(cmap, Seq::<u8>::empty()) == out@.map_values(|d: DecodeOutcome| d@)
                + spec_run(cmap.skip(i as int), dec@.buffer),
        ensures
            dec@.terminated ==> spec_run(cmap, Seq::<u8>::empty()) == out@.map_values(
                |d: DecodeOutcome| d@,
            ),
            !dec@.terminated ==> i == n && spec_run(cmap, Seq::<u8>::empty()) == out@.map_values(
                |d: DecodeOutcome| d@,
            ) + spec_run(cmap.skip(i as int), dec@.buffer),
        decreases n - i,
    {
        let ghost rest_chunks = cmap.skip(i as int);
        let ghost buf_before = dec@.buffer;
        let ghost outs_entry = out@.map_values(|d: DecodeOutcome| d@);
        dec.feed(&chunks[i]);
        let ghost b0 = dec@.buffer;
        proof {
            assert(cmap[i as int] == chunks@[i as int]@);
            assert(rest_chunks[0] == cmap[i as int]);
            assert(rest_chunks.drop_first() =~= cmap.skip(i + 1));
            assert(b0 == buf_before + rest_chunks[0]);
        }
        let ghost m0 = out@.len();
        proof {
            assert(out@.map_values(|d: DecodeOutcome| d@).skip(m0 as int) =~= Seq::<
                SpecOutcome,
            >::empty());
            assert(out@.map_values(|d: DecodeOutcome| d@).take(m0 as int) =~= outs_entry);
            assert(Seq::<SpecOutcome>::empty() + spec_drain(b0).0 =~= spec_drain(b0).0);
        }
        loop
            invariant_except_break
                !dec@.terminated,
                m0 <= out@.len(),
                out@.map_values(|d: DecodeOutcome| d@).take(m0 as int) == outs_entry,
                spec_drain(b0).0 == out@.map_values(|d: DecodeOutcome| d@).skip(m0 as int)
                    + spec_drain(dec@.buffer).0,
                spec_drain(b0).1 == spec_drain(dec@.buffer).1,
                spec_drain(b0).2 == spec_drain(dec@.buffer).2,
            ensures
                m0 <= out@.len(),
                out@.map_values(|d: DecodeOutcome| d@).take(m0 as int) == outs_entry,
                spec_drain(b0).0 == out@.map_values(|d: DecodeOutcome| d@).skip(m0 as int),
                spec_drain(b0).1 == dec@.buffer,
                spec_drain(b0).2 == dec@.terminated,
            decreases dec@.buffer.len(),
        {
            proof {
                lemma_spec_poll_rest(dec@.buffer);
            }
            let ghost outs_before = out@.map_values(|dd: DecodeOutcome| dd@);
            let ghost cur = dec@.buffer;
            let step = dec.poll();
            match step {
                DecodeStep::Out(d) => {
                    out.push(d);
                    proof {
                        assert(out@.map_values(|dd: DecodeOutcome| dd@) =~= outs_before.push(
                            d@,
                        ));
                        assert(out@.map_values(|dd: DecodeOutcome| dd@).take(m0 as int)
                            =~= outs_before.take(m0 as int));
                        assert(out@.map_values(|dd: DecodeOutcome| dd@).skip(m0 as int)
                            =~= outs_before.skip(m0 as int).push(d@));
                        if dec@.terminated {
                            // the record was terminal: draining `cur` yields
                            // exactly this one outcome
                            assert(outs_before.skip(m0 as int).push(d@) =~= outs_before.skip(
                                m0 as int,
                            ) + seq![d@]);
                        } else {
                            assert(outs_before.skip(m0 as int).push(d@) + spec_drain(
                                dec@.buffer,
                            ).0 =~= outs_before.skip(m0 as int) + (seq![d@] + spec_drain(
                                dec@.buffer,
                            ).0));
                        }
                    }
                    if dec.is_terminated() {
                        break ;
                    }
                },
                DecodeStep::NeedInput => {
                    proof {
                        assert(outs_before.skip(m0 as int) + spec_drain(cur).0 =~= outs_before.skip(
                            m0 as int,
                        ));
                    }
                    break ;
                },
                DecodeStep::Finished => {
                    break ;
                },
            }
        }
        // carry the run equation one chunk forward
        proof {
            let outs_now = out@.map_values(|d: DecodeOutcome| d@);
            assert(outs_now =~= outs_now.take(m0 as int) + outs_now.skip(m0 as int));
            assert(spec_run(rest_chunks, buf_before) == (if spec_drain(b0).2 {
                spec_drain(b0).0
            } else {
                spec_drain(b0).0 + spec_run(rest_chunks.drop_first(), spec_drain(b0).1)
            }));
        }
        if dec.is_terminated() {
            proof {
                let outs_now = out@.map_values(|d: DecodeOutcome| d@);
                assert(spec_run(cmap, Seq::<u8>::empty()) =~= outs_now);
            }
            break ;
        }
        proof {
            let outs_now = out@.map_values(|d: DecodeOutcome| d@);
            assert(outs_entry + (outs_now.skip(m0 as int) + spec_run(
                cmap.skip(i + 1),
                dec@.buffer,
            )) =~= outs_now + spec_run(cmap.skip(i + 1), dec@.buffer));
        }
        i = i + 1;
    }
    proof {
        if !dec@.terminated {
            assert(cmap.skip(cmap.len() as int) =~= Seq::<Seq<u8>>::empty());
        }
    }
    let ghost outs_pre = out@.map_values(|d: DecodeOutcome| d@);
    let last = dec.finish();
    match last {
        Some(d) => {
            out.push(d);
            proof {
                assert(out@.map_values(|dd: DecodeOutcome| dd@) =~= outs_pre.push(d@));
                assert(outs_pre + seq![d@] =~= outs_pre.push(d@));
            }
        },
        None => {},
    }
    proof {
        assert(out@.map_values(|d: DecodeOutcome| d@) =~= spec_run(cmap, Seq::<u8>::empty()));
    }
    out
}

// ------------------------------------------------------------------------
// Chunking invariance: decoding a well-formed record stream gives the same
// outcome sequence under every split of the bytes into chunks.
// ------------------------------------------------------------------------

proof fn lemma_trim_leading_len(s: Seq<u8>)
    ensures
        trim_leading(s).len() <= s.len(),
    decreases s.len(),
{
    if s.len() > 0 && is_ws(s[0]) {
        lemma_trim_leading_len(s.drop_first());
    }
}

proof fn lemma_trim_trailing_len(s: Seq<u8>)
    ensures
        trim_trailing(s).len() <= s.len(),
    decreases s.len(),
{
    if s.len() > 0 && is_ws(s.last()) {
        lemma_trim_trailing_len(s.drop_last());
    }
}

/// A non-empty sequence equal to its own trim neither starts nor ends with
/// whitespace, and is fixed by both one-sided trims.
proof fn lemma_trimmed_fixed(r: Seq<u8>)
    requires
        trim_bytes(r) == r,
        r.len() > 0,
    ensures
        trim_leading(r) == r,
        trim_trailing(r) == r,
        !is_ws(r[0]),
        !is_ws(r.last()),
{
    lemma_trim_leading_len(r);
    lemma_trim_trailing_len(trim_leading(r));
    if is_ws(r[0]) {
        lemma_trim_leading_len(r.drop_first());
        lemma_trim_trailing_len(trim_leading(r.drop_first()));
        assert(false);
    }
    if is_ws(r.last()) {
        lemma_trim_trailing_len(r.drop_last());
        assert(false);
    }
}

/// Appending the terminator to a trimmed non-empty record and trimming the
/// line gives the record back.
proof fn lemma_trim_line(r: Seq<u8>)
    requires
        trim_bytes(r) == r,
        r.len() > 0,
    ensures
        trim_bytes(r + seq![NL]) == r,
{
    lemma_trimmed_fixed(r);
    let line = r + seq![NL];
    assert(line[0] == r[0]);
    assert(line.last() == NL);
    assert(line.drop_last() =~= r);
}

proof fn lemma_concat_cancel(a: Seq<u8>, b: Seq<u8>, c: Seq<u8>)
    requires
        a + b == a + c,
    ensures
        b == c,
{
    assert(b =~= (a + b).skip(a.len() as int));
    assert(c =~= (a + c).skip(a.len() as int));
}

/// A well-formed record: a non-empty line without a terminator, already
/// trimmed, that parses as a record, and none of whose proper prefixes
/// parses after trimming. Records on the wire are self-delimiting (a JSON
/// document allows no trailing text), so no strict prefix of one is itself
/// a record.
pub open spec fn wf_record(r: Seq<u8>) -> bool {
    &&& r.len() > 0
    &&& !r.contains(NL)
    &&& trim_bytes(r) == r
    &&& parse_record(r) is Some
    &&& forall|k: int|
        0 <= k < r.len() ==> parse_record(trim_bytes(#[trigger] r.take(k))) is None
}

/// A well-formed record stream: every record is well-formed and only the
/// last one may signal completion.
pub open spec fn wf_stream(rs: Seq<Seq<u8>>) -> bool {
    &&& forall|i: int| 0 <= i < rs.len() ==> wf_record(#[trigger] rs[i])
    &&& forall|i: int| 0 <= i < rs.len() - 1 ==> !parse_terminal(#[trigger] rs[i])
}

/// The records joined into one byte stream, each terminated by a newline.
pub open spec fn join_records(rs: Seq<Seq<u8>>) -> Seq<u8>
    decreases rs.len(),
{
    if rs.len() == 0 {
        Seq::<u8>::empty()
    } else {
        rs[0] + seq![NL] + join_records(rs.drop_first())
    }
}

/// The expected decode of a well-formed stream: one unit per record.
pub open spec fn units_of(rs: Seq<Seq<u8>>) -> Seq<SpecOutcome> {
    rs.map_values(|r: Seq<u8>| outcome_of_parse(r))
}

/// The bytes still to come when `k` records are consumed: the pending
/// terminator of an early-consumed record, if any, then the remaining
/// records.
pub open spec fn remaining(rs: Seq<Seq<u8>>, k: int, pending_nl: bool) -> Seq<u8> {
    (if pending_nl {
        seq![NL]
    } else {
        Seq::<u8>::empty()
    }) + join_records(rs.skip(k))
}

proof fn lemma_join_unfold(rs: Seq<Seq<u8>>, k: int)
    requires
        0 <= k < rs.len(),
    ensures
        join_records(rs.skip(k)) == rs[k] + seq![NL] + join_records(rs.skip(k + 1)),
{
    assert(rs.skip(k)[0] == rs[k]);
    assert(rs.skip(k).drop_first() =~= rs.skip(k + 1));
}

/// Draining a buffer that holds a prefix of a well-formed stream consumes
/// exactly the complete records in it, in order. Returns how many records
/// are consumed in total and whether the terminator of the last one is
/// still owed.
proof fn lemma_drain_wf(
    rs: Seq<Seq<u8>>,
    k: int,
    pending_nl: bool,
    data: Seq<u8>,
    t: Seq<u8>,
) -> (res: (int, bool))
    requires
        wf_stream(rs),
        0 <= k <= rs.len(),
        data + t == remaining(rs, k, pending_nl),
    ensures
        k <= res.0 <= rs.len(),
        spec_drain(data).0 == units_of(rs.subrange(k, res.0)),
        spec_drain(data).2 ==> res.0 == rs.len(),
        !spec_drain(data).2 ==> {
            &&& spec_drain(data).1 + t == remaining(rs, res.0, res.1)
            &&& (res.1 ==> spec_drain(data).1 == Seq::<u8>::empty())
            &&& (!res.1 && res.0 < rs.len() ==> spec_drain(data).1.len() < rs[res.0].len()
                && spec_drain(data).1 == rs[res.0].take(spec_drain(data).1.len() as int))
            &&& (!res.1 && res.0 == rs.len() ==> spec_drain(data).1 == Seq::<u8>::empty())
            &&& forall|i: int| k <= i < res.0 ==> !parse_terminal(#[trigger] rs[i])
        },
    decreases data.len(),
{
    lemma_find_nl(data);
    if data.len() == 0 {
        assert(spec_poll(data) == SpecStep::Need { rest: data });
        assert(units_of(rs.subrange(k, k)) =~= Seq::<SpecOutcome>::empty());
        if !pending_nl && k < rs.len() {
            assert(rs[k].len() > 0);
            assert(data =~= rs[k].take(0));
        }
        if !pending_nl && k == rs.len() {
            assert(data =~= Seq::<u8>::empty());
        }
        (k, pending_nl)
    } else if pending_nl {
        // the owed terminator is the first byte: a blank candidate, skipped
        assert(data[0] == (data + t)[0]);
        assert(data[0] == NL);
        assert(find_nl(data) == 0) by {
            if find_nl(data) > 0 {
                assert(data[0] != NL);
            }
        }
        assert(data.take(1) =~= seq![NL]);
        assert(seq![NL][0] == NL);
        assert(seq![NL].drop_first() =~= Seq::<u8>::empty());
        assert(trim_leading(Seq::<u8>::empty()) =~= Seq::<u8>::empty());
        assert(trim_leading(seq![NL]) =~= Seq::<u8>::empty());
        assert(trim_trailing(Seq::<u8>::empty()) =~= Seq::<u8>::empty());
        assert(trim_bytes(data.take(1)).len() == 0);
        assert(spec_poll(data) == spec_poll(data.skip(1)));
        assert(spec_drain(data) == spec_drain(data.skip(1)));
        assert(data =~= seq![NL] + data.skip(1));
        assert((seq![NL] + data.skip(1)) + t =~= seq![NL] + (data.skip(1) + t));
        lemma_concat_cancel(seq![NL], data.skip(1) + t, join_records(rs.skip(k)));
        assert(data.skip(1) + t == remaining(rs, k, false)) by {
            assert(Seq::<u8>::empty() + join_records(rs.skip(k)) =~= join_records(rs.skip(k)));
        }
        lemma_drain_wf(rs, k, false, data.skip(1), t)
    } else {
        // data is a non-empty prefix of the remaining records
        if k == rs.len() {
            assert(rs.skip(k) =~= Seq::<Seq<u8>>::empty());
            assert(remaining(rs, k, false).len() == 0) by {
                assert(Seq::<u8>::empty() + join_records(rs.skip(k)) =~= join_records(
                    rs.skip(k),
                ));
            }
            assert(false);
        }
        lemma_join_unfold(rs, k);
        let r = rs[k];
        let l = r.len() as int;
        assert(wf_record(r));
        assert(remaining(rs, k, false) =~= r + seq![NL] + join_records(rs.skip(k + 1)));
        if data.len() <= l {
            // a (possibly full) prefix of the record, no terminator yet
            assert forall|j: int| 0 <= j < data.len() implies data[j] == r[j] by {
                assert(data[j] == (data + t)[j]);
                assert((r + seq![NL] + join_records(rs.skip(k + 1)))[j] == r[j]);
            }
            assert(data =~= r.take(data.len() as int));
            assert forall|j: int| 0 <= j < data.len() implies data[j] != NL by {
                if r[j] == NL {
                    assert(r.contains(NL));
                }
            }
            assert(find_nl(data) == data.len()) by {
                if find_nl(data) < data.len() {
                    assert(data[find_nl(data)] == NL);
                }
            }
            if data.len() == l {
                // the whole record is buffered: consumed early
                assert(data =~= r);
                assert(trim_bytes(data) == data);
                assert(spec_poll(data) == SpecStep::Out {
                    outcome: outcome_of_parse(data),
                    rest: Seq::<u8>::empty(),
                    terminal: parse_terminal(data),
                });
                assert(units_of(rs.subrange(k, k + 1)) =~= seq![outcome_of_parse(r)]);
                if parse_terminal(r) {
                    assert(k == rs.len() - 1) by {
                        if k < rs.len() - 1 {
                            assert(!parse_terminal(rs[k]));
                        }
                    }
                    (k + 1, false)
                } else {
                    assert(spec_poll(Seq::<u8>::empty()) == SpecStep::Need {
                        rest: Seq::<u8>::empty(),
                    });
                    assert(spec_drain(Seq::<u8>::empty()).0 =~= Seq::<SpecOutcome>::empty());
                    assert(spec_drain(data).0 =~= seq![outcome_of_parse(r)]);
                    assert((r + seq![NL] + join_records(rs.skip(k + 1))) =~= r + (seq![NL]
                        + join_records(rs.skip(k + 1))));
                    lemma_concat_cancel(r, t, seq![NL] + join_records(rs.skip(k + 1)));
                    assert(Seq::<u8>::empty() + t =~= t);
                    (k + 1, true)
                }
            } else {
                // a proper prefix: by prefix-freeness it does not parse yet
                assert(parse_record(trim_bytes(r.take(data.len() as int))) is None);
                assert(spec_poll(data) == SpecStep::Need { rest: data });
                assert(units_of(rs.subrange(k, k)) =~= Seq::<SpecOutcome>::empty());
                (k, false)
            }
        } else {
            // the buffered bytes span the record's full line
            assert forall|j: int| 0 <= j < l implies data[j] == r[j] by {
                assert(data[j] == (data + t)[j]);
                assert((r + seq![NL] + join_records(rs.skip(k + 1)))[j] == r[j]);
            }
            assert forall|j: int| 0 <= j < l implies data[j] != NL by {
                if r[j] == NL {
                    assert(r.contains(NL));
                }
            }
            assert(data[l] == (data + t)[l]);
            assert((r + seq![NL] + join_records(rs.skip(k + 1)))[l] == NL);
            assert(find_nl(data) == l) by {
                if find_nl(data) < l {
                    assert(data[find_nl(data)] == NL);
                }
                if find_nl(data) > l {
                    assert(data[l] != NL);
                }
            }
            assert(data.take(l + 1) =~= r + seq![NL]);
            lemma_trim_line(r);
            assert(trim_bytes(data.take(l + 1)) == r);
            assert(spec_poll(data) == SpecStep::Out {
                outcome: outcome_of_parse(r),
                rest: data.skip(l + 1),
                terminal: parse_terminal(r),
            });
            if parse_terminal(r) {
                assert(k == rs.len() - 1) by {
                    if k < rs.len() - 1 {
                        assert(!parse_terminal(rs[k]));
                    }
                }
                assert(units_of(rs.subrange(k, k + 1)) =~= seq![outcome_of_parse(r)]);
                (k + 1, false)
            } else {
                assert(data =~= (r + seq![NL]) + data.skip(l + 1));
                assert(((r + seq![NL]) + data.skip(l + 1)) + t =~= (r + seq![NL]) + (data.skip(
                    l + 1,
                ) + t));
                assert(remaining(rs, k, false) =~= (r + seq![NL]) + join_records(rs.skip(k + 1)));
                lemma_concat_cancel(
                    r + seq![NL],
                    data.skip(l + 1) + t,
                    join_records(rs.skip(k + 1)),
                );
                assert(data.skip(l + 1) + t == remaining(rs, k + 1, false)) by {
                    assert(Seq::<u8>::empty() + join_records(rs.skip(k + 1)) =~= join_records(
                        rs.skip(k + 1),
                    ));
                }
                let res2 = lemma_drain_wf(rs, k + 1, false, data.skip(l + 1), t);
                assert(spec_drain(data).0 =~= seq![outcome_of_parse(r)] + spec_drain(
                    data.skip(l + 1),
                ).0);
                assert(units_of(rs.subrange(k, res2.0)) =~= seq![outcome_of_parse(r)] + units_of(
                    rs.subrange(k + 1, res2.0),
                ));
                res2
            }
        }
    }
}

/// Feeding any chunk sequence whose concatenation is the tail of a
/// well-formed stream decodes exactly the remaining records.
proof fn lemma_run_wf(
    rs: Seq<Seq<u8>>,
    chunks: Seq<Seq<u8>>,
    k: int,
    buf: Seq<u8>,
    pending_nl: bool,
)
    requires
        wf_stream(rs),
        0 <= k <= rs.len(),
        buf + chunks.flatten() == remaining(rs, k, pending_nl),
        pending_nl ==> buf == Seq::<u8>::empty(),
        !pending_nl && k < rs.len() ==> buf.len() < rs[k].len() && buf == rs[k].take(
            buf.len() as int,
        ),
        !pending_nl && k == rs.len() ==> buf == Seq::<u8>::empty(),
    ensures
        spec_run(chunks, buf) == units_of(rs.skip(k)),
    decreases chunks.len(),
{
    if chunks.len() == 0 {
        assert(chunks.flatten() =~= Seq::<u8>::empty());
        assert(buf + chunks.flatten() =~= buf);
        if pending_nl {
            assert(remaining(rs, k, true).len() >= 1);
            assert(false);
        } else if k < rs.len() {
            lemma_join_unfold(rs, k);
            assert(remaining(rs, k, false).len() > rs[k].len()) by {
                assert(Seq::<u8>::empty() + join_records(rs.skip(k)) =~= join_records(
                    rs.skip(k),
                ));
            }
            assert(false);
        } else {
            assert(trim_bytes(Seq::<u8>::empty()) == Seq::<u8>::empty());
            assert(spec_finish(buf) is None);
            assert(rs.skip(k) =~= Seq::<Seq<u8>>::empty());
            assert(units_of(rs.skip(k)) =~= Seq::<SpecOutcome>::empty());
        }
    } else {
        assert(chunks.flatten() =~= chunks[0] + chunks.drop_first().flatten()) by {
            assert(chunks.first() == chunks[0]);
        }
        let data = buf + chunks[0];
        let t2 = chunks.drop_first().flatten();
        assert(data + t2 =~= buf + chunks.flatten());
        let res = lemma_drain_wf(rs, k, pending_nl, data, t2);
        if spec_drain(data).2 {
            assert(res.0 == rs.len());
            assert(rs.subrange(k, rs.len() as int) =~= rs.skip(k));
            assert(spec_run(chunks, buf) == spec_drain(data).0);
        } else {
            lemma_run_wf(rs, chunks.drop_first(), res.0, spec_drain(data).1, res.1);
            assert(spec_run(chunks, buf) == spec_drain(data).0 + spec_run(
                chunks.drop_first(),
                spec_drain(data).1,
            ));
            assert(units_of(rs.subrange(k, res.0)) + units_of(rs.skip(res.0)) =~= units_of(
                rs.skip(k),
            ));
        }
    }
}

/// Chunking invariance: however a well-formed newline-delimited record
/// stream is split into chunks, decoding yields exactly one unit per
/// record, identical to decoding the unsplit input.
pub proof fn lemma_chunking_invariance(rs: Seq<Seq<u8>>, chunks: Seq<Seq<u8>>)
    requires
        wf_stream(rs),
        chunks.flatten() == join_records(rs),
    ensures
        spec_run(chunks, Seq::<u8>::empty()) == units_of(rs),
{
    assert(rs.skip(0) =~= rs);
    assert(Seq::<u8>::empty() + chunks.flatten() =~= chunks.flatten());
    if rs.len() > 0 {
        assert(wf_record(rs[0]));
        assert(Seq::<u8>::empty() =~= rs[0].take(0));
    }
    lemma_run_wf(rs, chunks, 0, Seq::<u8>::empty(), false);
}

/// The two-chunking corollary: any two splits of the same well-formed
/// stream decode identically.
pub proof fn lemma_chunkings_agree(rs: Seq<Seq<u8>>, c1: Seq<Seq<u8>>, c2: Seq<Seq<u8>>)
    requires
        wf_stream(rs),
        c1.flatten() == join_records(rs),
        c2.flatten() == join_records(rs),
    ensures
        spec_run(c1, Seq::<u8>::empty()) == spec_run(c2, Seq::<u8>::empty()),
{
    lemma_chunking_invariance(rs, c1);
    lemma_chunking_invariance(rs, c2);
}

} // verus!
