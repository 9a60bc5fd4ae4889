//! Reliable datagram transport: a payload is cut into 2044-byte chunks,
//! each prefixed with a 4-byte big-endian sequence number, and closed by a
//! frame whose body is the literal `END`. The receiver accepts chunks only
//! in order, answers `ACK <n>` every tenth chunk, `NACK <n>` on a gap, and
//! the bare `END` once as the terminator acknowledgment. The sender blocks
//! for feedback every tenth chunk and retransmits the trailing batch of up
//! to ten chunks, at most five times per batch.

use vstd::prelude::*;

use crate::bytes::u32_be;
use crate::bytes::u32_from_be;
use crate::bytes::push_u32_be;
use crate::bytes::read_u32_be;
use crate::bytes::dec_repr;
use crate::bytes::dec_value;
use crate::bytes::all_digits;
use crate::bytes::u32_dec;
use crate::bytes::parse_u32_dec;
use crate::bytes::starts_with;
use crate::bytes::bytes_eq;
use crate::bytes::tail_from;
use crate::bytes::lemma_dec_repr_value;

verus! {

/// Payload bytes carried by one data chunk.
pub const CHUNK_SIZE: usize = 2044;

/// ACK cadence and retransmission batch size; both sides must agree on it.
pub const BATCH_SIZE: usize = 10;

/// Retransmissions allowed per batch before the transfer fails.
pub const MAX_RETRIES: u32 = 5;

/// Number of data chunks needed for a payload of `len` bytes.
pub open spec fn num_chunks(len: nat) -> nat {
    (len + 2043) / 2044
}

/// The bytes of chunk `i` of `payload`.
pub open spec fn chunk_data(payload: Seq<u8>, i: int) -> Seq<u8> {
    payload.subrange(
        2044 * i,
        if 2044 * (i + 1) <= payload.len() {
            2044 * (i + 1)
        } else {
            payload.len() as int
        },
    )
}

/// The payload bytes covered by chunks `0 .. n`.
pub open spec fn prefix_data(payload: Seq<u8>, n: int) -> Seq<u8> {
    payload.take(
        if 2044 * n <= payload.len() {
            2044 * n
        } else {
            payload.len() as int
        },
    )
}

/// The three-byte terminator body `END`.
pub open spec fn end_marker() -> Seq<u8> {
    seq![69u8, 78u8, 68u8]
}

/// Sequence number of a frame: its first four bytes, big-endian.
pub open spec fn frame_seq(f: Seq<u8>) -> u32 {
    u32_from_be(f[0], f[1], f[2], f[3])
}

/// Body of a frame: everything after the sequence number.
pub open spec fn frame_body(f: Seq<u8>) -> Seq<u8> {
    f.skip(4)
}

/// The data frame carrying chunk `i` of `payload`.
pub open spec fn data_frame(payload: Seq<u8>, i: int) -> Seq<u8> {
    u32_be(i as u32) + chunk_data(payload, i)
}

/// The closing frame of `payload`: one past the last data chunk, body `END`.
pub open spec fn end_frame(payload: Seq<u8>) -> Seq<u8> {
    u32_be(num_chunks(payload.len()) as u32) + end_marker()
}

/// Everything the sender of `payload` ever puts on the wire.
pub open spec fn sender_frames(payload: Seq<u8>) -> Set<Seq<u8>> {
    Set::new(
        |f: Seq<u8>|
            f == end_frame(payload) || exists|i: int|
                0 <= i < num_chunks(payload.len()) && f == data_frame(payload, i),
    )
}

/// `2044 * num_chunks(len)` covers `len`, and tightly so.
pub proof fn lemma_num_chunks_bounds(len: nat)
    ensures
        len <= 2044 * num_chunks(len),
        len == 0 ==> num_chunks(len) == 0,
        len >= 1 ==> 2044 * (num_chunks(len) - 1) < len,
        len >= 1 ==> num_chunks(len) >= 1,
{
    vstd::arithmetic::div_mod::lemma_fundamental_div_mod((len + 2043) as int, 2044);
}

/// The ACK feedback frame for sequence number `n`.
pub open spec fn ack_frame(n: u32) -> Seq<u8> {
    seq![65u8, 67u8, 75u8, 32u8] + dec_repr(n as int)
}

/// The NACK feedback frame for sequence number `n`.
pub open spec fn nack_frame(n: u32) -> Seq<u8> {
    seq![78u8, 65u8, 67u8, 75u8, 32u8] + dec_repr(n as int)
}

/// Build the ACK feedback frame for `n`.
pub fn ack_bytes(n: u32) -> (r: Vec<u8>)
    ensures
        r@ == ack_frame(n),
{
    let mut r: Vec<u8> = Vec::new();
    r.push(65);
    r.push(67);
    r.push(75);
    r.push(32);
    let mut digits = u32_dec(n);
    r.append(&mut digits);
    assert(r@ =~= ack_frame(n));
    r
}

/// Build the NACK feedback frame for `n`.
pub fn nack_bytes(n: u32) -> (r: Vec<u8>)
    ensures
        r@ == nack_frame(n),
{
    let mut r: Vec<u8> = Vec::new();
    r.push(78);
    r.push(65);
    r.push(67);
    r.push(75);
    r.push(32);
    let mut digits = u32_dec(n);
    r.append(&mut digits);
    assert(r@ =~= nack_frame(n));
    r
}

/// Build the terminator acknowledgment, the bare bytes `END`.
pub fn end_bytes() -> (r: Vec<u8>)
    ensures
        r@ == end_marker(),
{
    let mut r: Vec<u8> = Vec::new();
    r.push(69);
    r.push(78);
    r.push(68);
    assert(r@ =~= end_marker());
    r
}

/// Receiver state: the next expected sequence number and the bytes
/// accepted so far.
pub struct Receiver {
    pub expected: u32,
    pub buf: Vec<u8>,
}

/// Mathematical model of a [`Receiver`].
pub ghost struct RxModel {
    pub expected: u32,
    pub buf: Seq<u8>,
}

impl View for Receiver {
    type V = RxModel;

    open spec fn view(&self) -> RxModel {
        RxModel { expected: self.expected, buf: self.buf@ }
    }
}

/// The receiver state after one incoming frame.
pub open spec fn rx_next(s: RxModel, f: Seq<u8>) -> RxModel {
    if f.len() < 4 {
        s
    } else if frame_body(f) == end_marker() {
        if frame_seq(f) == s.expected {
            RxModel { expected: 0, buf: Seq::empty() }
        } else {
            s
        }
    } else if frame_seq(f) == s.expected && s.expected < u32::MAX {
        RxModel { expected: (s.expected + 1) as u32, buf: s.buf + frame_body(f) }
    } else {
        s
    }
}

/// A frame that completes the transfer in state `s`: an in-sequence `END`.
pub open spec fn rx_completes(s: RxModel, f: Seq<u8>) -> bool {
    f.len() >= 4 && frame_body(f) == end_marker() && frame_seq(f) == s.expected
}

/// What the receiver answers and hands up for one frame.
#[allow(inconsistent_fields)]
pub enum RxStep {
    /// The frame was shorter than a sequence number; nothing happens.
    Ignored,
    /// An in-sequence data chunk was appended; every tenth chunk carries a
    /// cumulative ACK back.
    Accepted { feedback: Option<Vec<u8>> },
    /// An out-of-sequence frame was dropped and the gap NACKed.
    Rejected { feedback: Vec<u8> },
    /// An in-sequence `END` arrived: the reassembled payload is delivered,
    /// the terminator acknowledgment goes back, and the state resets.
    Completed { payload: Vec<u8>, feedback: Vec<u8> },
}

impl Receiver {
    /// A fresh receiver expecting sequence number 0.
    pub fn new() -> (r: Receiver)
        ensures
            r@.expected == 0,
            r@.buf == Seq::<u8>::empty(),
    {
        Receiver { expected: 0, buf: Vec::new() }
    }

    /// Feed one incoming frame to the receiver.
    pub fn on_frame(&mut self, frame: &[u8]) -> (out: RxStep)
        ensures
            final(self)@ == rx_next(old(self)@, frame@),
            match out {
                RxStep::Ignored => frame@.len() < 4,
                RxStep::Accepted { feedback } => {
                    &&& frame@.len() >= 4
                    &&& frame_body(frame@) != end_marker()
                    &&& frame_seq(frame@) == old(self)@.expected
                    &&& old(self)@.expected < u32::MAX
                    &&& match feedback {
                        Some(v) => final(self)@.expected % 10 == 0 && v@ == ack_frame(
                            (final(self)@.expected - 1) as u32,
                        ),
                        None => final(self)@.expected % 10 != 0,
                    }
                },
                RxStep::Rejected { feedback } => {
                    &&& frame@.len() >= 4
                    &&& !rx_completes(old(self)@, frame@)
                    &&& (frame_body(frame@) == end_marker() || frame_seq(frame@) != old(
                        self,
                    )@.expected || old(self)@.expected == u32::MAX)
                    &&& feedback@ == nack_frame(old(self)@.expected)
                },
                RxStep::Completed { payload, feedback } => {
                    &&& rx_completes(old(self)@, frame@)
                    &&& payload@ == old(self)@.buf
                    &&& feedback@ == end_marker()
                },
            },
            out is Completed <==> rx_completes(old(self)@, frame@),
    {
        if frame.len() < 4 {
            return RxStep::Ignored;
        }
        let seqn = read_u32_be(frame);
        let body = tail_from(frame, 4);
        let endm = end_bytes();
        if bytes_eq(body.as_slice(), endm.as_slice()) {
            if seqn == self.expected {
                let payload = self.buf.clone();
                self.buf = Vec::new();
                self.expected = 0;
                return RxStep::Completed { payload, feedback: end_bytes() };
            } else {
                return RxStep::Rejected { feedback: nack_bytes(self.expected) };
            }
        }
        if seqn == self.expected && self.expected < u32::MAX {
            let mut body = body;
            self.buf.append(&mut body);
            self.expected = self.expected + 1;
            if self.expected % 10 == 0 {
                let ack = ack_bytes(self.expected - 1);
                return RxStep::Accepted { feedback: Some(ack) };
            }
            return RxStep::Accepted { feedback: None };
        }
        RxStep::Rejected { feedback: nack_bytes(self.expected) }
    }
}

/// Cut `payload` into its wire frames: one data frame per chunk, in order,
/// then the closing `END` frame.
pub fn build_frames(payload: &Vec<u8>) -> (frames: Vec<Vec<u8>>)
    requires
        payload@.len() + 2043 <= usize::MAX,
        num_chunks(payload@.len()) <= u32::MAX,
    ensures
        frames@.len() == num_chunks(payload@.len()) + 1,
        forall|i: int|
            0 <= i < num_chunks(payload@.len()) ==> #[trigger] frames@[i]@ == data_frame(
                payload@,
                i,
            ),
        frames@[frames@.len() - 1]@ == end_frame(payload@),
{
    let len = payload.len();
    let n: usize = (len + 2043) / 2044;
    proof {
        lemma_num_chunks_bounds(payload@.len());
    }
    let mut frames: Vec<Vec<u8>> = Vec::new();
    let mut i: usize = 0;
    while i < n
        invariant
            n == num_chunks(payload@.len()),
            n <= u32::MAX,
            len == payload@.len(),
            len + 2043 <= usize::MAX,
            i <= n,
            frames@.len() == i,
            forall|k: int|
                0 <= k < i ==> #[trigger] frames@[k]@ == data_frame(payload@, k),
        decreases n - i,
    {
        proof {
            lemma_num_chunks_bounds(payload@.len());
            assert(2044 * (i as int) <= 2044 * (n - 1) < len) by (nonlinear_arith)
                requires
                    0 <= i as int <= n - 1,
                    2044 * (n - 1) < len,
            ;
        }
        let start: usize = 2044 * i;
        let end: usize = if len - start >= 2044 {
            start + 2044
        } else {
            len
        };
        let mut frame: Vec<u8> = Vec::new();
        push_u32_be(&mut frame, i as u32);
        let mut j: usize = start;
        while j < end
            invariant
                start <= j <= end <= payload@.len(),
                frame@ == u32_be(i as u32) + payload@.subrange(start as int, j as int),
            decreases end - j,
        {
            frame.push(payload[j]);
            assert(frame@ =~= u32_be(i as u32) + payload@.subrange(start as int, j as int + 1));
            j = j + 1;
        }
        assert(frame@ == data_frame(payload@, i as int)) by {
            assert(payload@.subrange(start as int, end as int) =~= chunk_data(payload@, i as int));
        }
        frames.push(frame);
        i = i + 1;
    }
    let mut endf: Vec<u8> = Vec::new();
    push_u32_be(&mut endf, n as u32);
    endf.push(69);
    endf.push(78);
    endf.push(68);
    assert(endf@ =~= end_frame(payload@));
    frames.push(endf);
    frames
}

/// First chunk of the trailing batch that ends at chunk `current`: up to
/// ten chunks are retransmitted.
pub fn batch_start(current: usize) -> (s: usize)
    ensures
        s == if current + 1 >= 10 { current + 1 - 10 } else { 0 },
        s <= current,
{
    if current >= 9 {
        current - 9
    } else {
        0
    }
}

/// A feedback frame as the sender reads it.
pub enum Feedback {
    /// `ACK <n>`: everything up to and including `n` has been accepted.
    Ack(u32),
    /// `NACK <n>`: the receiver expected sequence number `n`.
    Nack(u32),
    /// The bare `END`: the terminator acknowledgment.
    TermAck,
    /// Anything else, or a number too large for a sequence number.
    Other,
}

/// `f` is an ACK feedback frame denoting `n` (leading zeros allowed).
pub open spec fn is_ack_frame(f: Seq<u8>, n: u32) -> bool {
    &&& f.len() > 4
    &&& f.take(4) == seq![65u8, 67u8, 75u8, 32u8]
    &&& all_digits(f.skip(4))
    &&& dec_value(f.skip(4)) == n
}

/// `f` is a NACK feedback frame denoting `n` (leading zeros allowed).
pub open spec fn is_nack_frame(f: Seq<u8>, n: u32) -> bool {
    &&& f.len() > 5
    &&& f.take(5) == seq![78u8, 65u8, 67u8, 75u8, 32u8]
    &&& all_digits(f.skip(5))
    &&& dec_value(f.skip(5)) == n
}

/// Read a feedback frame.
pub fn parse_feedback(f: &[u8]) -> (r: Feedback)
    ensures
        r matches Feedback::Ack(n) ==> is_ack_frame(f@, n),
        r matches Feedback::Nack(n) ==> is_nack_frame(f@, n),
        r is TermAck <==> f@ == end_marker(),
        forall|n: u32| is_ack_frame(f@, n) ==> r == Feedback::Ack(n),
        forall|n: u32| is_nack_frame(f@, n) ==> r == Feedback::Nack(n),
{
    let endm = end_bytes();
    if bytes_eq(f, endm.as_slice()) {
        return Feedback::TermAck;
    }
    let ack_prefix = ack_prefix_bytes();
    let nack_prefix = nack_prefix_bytes();
    proof {
        if f@ == end_marker() {
            assert(!(f@.len() > 4 && f@.take(4) =~= seq![65u8, 67u8, 75u8, 32u8]));
        }
    }
    if starts_with(f, ack_prefix.as_slice()) && f.len() > 4 {
        let digits = tail_from(f, 4);
        match parse_u32_dec(digits.as_slice()) {
            Some(n) => {
                return Feedback::Ack(n);
            },
            None => {
                return Feedback::Other;
            },
        }
    }
    if starts_with(f, nack_prefix.as_slice()) && f.len() > 5 {
        let digits = tail_from(f, 5);
        match parse_u32_dec(digits.as_slice()) {
            Some(n) => {
                return Feedback::Nack(n);
            },
            None => {
                return Feedback::Other;
            },
        }
    }
    Feedback::Other
}

fn ack_prefix_bytes() -> (r: Vec<u8>)
    ensures
        r@ == seq![65u8, 67u8, 75u8, 32u8],
{
    let mut r: Vec<u8> = Vec::new();
    r.push(65);
    r.push(67);
    r.push(75);
    r.push(32);
    assert(r@ =~= seq![65u8, 67u8, 75u8, 32u8]);
    r
}

fn nack_prefix_bytes() -> (r: Vec<u8>)
    ensures
        r@ == seq![78u8, 65u8, 67u8, 75u8, 32u8],
{
    let mut r: Vec<u8> = Vec::new();
    r.push(78);
    r.push(65);
    r.push(67);
    r.push(75);
    r.push(32);
    assert(r@ =~= seq![78u8, 65u8, 67u8, 75u8, 32u8]);
    r
}

/// Sender progress while waiting for feedback on the batch that ends at
/// chunk `current`.
pub struct BatchWait {
    pub current: usize,
    pub retries: u32,
}

/// What the sender does next after reading one feedback frame.
pub enum SendDecision {
    /// The batch is acknowledged: go on with the next chunk.
    Proceed,
    /// Retransmit chunks `from ..= to`, pacing them 5 ms apart.
    Resend { from: usize, to: usize },
    /// Keep waiting for a relevant feedback frame.
    KeepWaiting,
    /// Five retransmissions were spent: the transfer failed.
    Abort,
}

impl BatchWait {
    /// Start waiting for feedback on the batch ending at chunk `current`.
    pub fn new(current: usize) -> (r: BatchWait)
        ensures
            r.current == current,
            r.retries == 0,
    {
        BatchWait { current, retries: 0 }
    }

    /// Decide on one feedback frame (or its absence) while waiting.
    ///
    /// A cumulative ACK for the batch's last chunk lets the sender proceed;
    /// a NACK or a timeout costs one retry and retransmits the trailing
    /// batch; the fifth retry aborts the transfer.
    pub fn on_feedback(&mut self, fb: &Feedback, timed_out: bool) -> (d: SendDecision)
        requires
            old(self).retries < MAX_RETRIES,
        ensures
            match d {
                SendDecision::Proceed => {
                    &&& !timed_out
                    &&& (fb matches Feedback::Ack(n) && n == old(self).current)
                    &&& *final(self) == *old(self)
                },
                SendDecision::KeepWaiting => {
                    &&& !timed_out
                    &&& !(fb matches Feedback::Ack(n) && n == old(self).current)
                    &&& !(fb is Nack)
                    &&& *final(self) == *old(self)
                },
                SendDecision::Resend { from, to } => {
                    &&& (timed_out || fb is Nack)
                    &&& old(self).retries + 1 < MAX_RETRIES
                    &&& final(self).retries == old(self).retries + 1
                    &&& final(self).current == old(self).current
                    &&& to == old(self).current
                    &&& from == if to + 1 >= 10 { to + 1 - 10 } else { 0 }
                },
                SendDecision::Abort => {
                    &&& (timed_out || fb is Nack)
                    &&& old(self).retries + 1 >= MAX_RETRIES
                    &&& final(self).retries == old(self).retries + 1
                    &&& final(self).current == old(self).current
                },
            },
    {
        if timed_out {
            self.retries = self.retries + 1;
            if self.retries >= MAX_RETRIES {
                return SendDecision::Abort;
            }
            let from = batch_start(self.current);
            return SendDecision::Resend { from, to: self.current };
        }
        match fb {
            Feedback::Ack(n) => {
                if (*n as usize) == self.current {
                    return SendDecision::Proceed;
                }
                SendDecision::KeepWaiting
            },
            Feedback::Nack(_) => {
                self.retries = self.retries + 1;
                if self.retries >= MAX_RETRIES {
                    return SendDecision::Abort;
                }
                let from = batch_start(self.current);
                SendDecision::Resend { from, to: self.current }
            },
            _ => SendDecision::KeepWaiting,
        }
    }
}

/// The state of a receiver that has not started (or has just finished) a
/// transfer.
pub open spec fn rx_init() -> RxModel {
    RxModel { expected: 0, buf: Seq::empty() }
}

/// The receiver state after a whole sequence of incoming frames.
pub open spec fn rx_run(s: RxModel, frames: Seq<Seq<u8>>) -> RxModel
    decreases frames.len(),
{
    if frames.len() == 0 {
        s
    } else {
        rx_run(rx_next(s, frames[0]), frames.skip(1))
    }
}

/// No data chunk of `payload` reads as the terminator body. Only a final
/// chunk of exactly three bytes could; such a payload cannot be framed
/// unambiguously by this protocol.
pub open spec fn unambiguous(payload: Seq<u8>) -> bool {
    forall|i: int|
        0 <= i < num_chunks(payload.len()) ==> #[trigger] chunk_data(payload, i) != end_marker()
}

/// The receiver holds exactly the payload prefix covered by the chunks it
/// has accepted.
pub open spec fn rx_synced(payload: Seq<u8>, s: RxModel) -> bool {
    &&& s.expected <= num_chunks(payload.len())
    &&& s.buf == prefix_data(payload, s.expected as int)
}

/// A frame `u32_be(seqno) + body` parses back into its two parts.
pub proof fn lemma_frame_shape(seqno: u32, body: Seq<u8>)
    ensures
        (u32_be(seqno) + body).len() == 4 + body.len(),
        frame_body(u32_be(seqno) + body) == body,
        frame_seq(u32_be(seqno) + body) == seqno,
{
    let f = u32_be(seqno) + body;
    assert(frame_body(f) =~= body);
    crate::bytes::lemma_u32_be_roundtrip(seqno);
}

proof fn lemma_chunk_in_range(payload: Seq<u8>, i: int)
    requires
        0 <= i < num_chunks(payload.len()),
    ensures
        2044 * i < payload.len(),
        2044 * i + chunk_data(payload, i).len() <= payload.len(),
        chunk_data(payload, i).len() >= 1,
{
    lemma_num_chunks_bounds(payload.len());
    let n = num_chunks(payload.len()) as int;
    assert(2044 * i <= 2044 * (n - 1)) by (nonlinear_arith)
        requires
            i <= n - 1,
    ;
}

proof fn lemma_prefix_glue(payload: Seq<u8>, i: int)
    requires
        0 <= i < num_chunks(payload.len()),
    ensures
        prefix_data(payload, i) + chunk_data(payload, i) == prefix_data(payload, i + 1),
{
    lemma_chunk_in_range(payload, i);
    assert(prefix_data(payload, i) + chunk_data(payload, i) =~= prefix_data(payload, i + 1));
}

/// After all chunks, the receiver holds the whole payload.
pub proof fn lemma_prefix_complete(payload: Seq<u8>)
    ensures
        prefix_data(payload, num_chunks(payload.len()) as int) == payload,
{
    lemma_num_chunks_bounds(payload.len());
    assert(prefix_data(payload, num_chunks(payload.len()) as int) =~= payload);
}

/// One step of the receiver against any frame the sender of `payload` may
/// emit: the receiver stays on a payload prefix, and a completing `END`
/// can only arrive once the buffer holds exactly `payload`.
pub proof fn lemma_rx_step(payload: Seq<u8>, s: RxModel, f: Seq<u8>)
    requires
        num_chunks(payload.len()) <= u32::MAX,
        unambiguous(payload),
        rx_synced(payload, s),
        sender_frames(payload).contains(f),
    ensures
        rx_synced(payload, rx_next(s, f)),
        rx_completes(s, f) ==> s.buf == payload,
{
    let n = num_chunks(payload.len()) as int;
    if f == end_frame(payload) {
        lemma_frame_shape(n as u32, end_marker());
        if frame_seq(f) == s.expected {
            assert(s.expected == n);
            lemma_prefix_complete(payload);
            assert(prefix_data(payload, 0) =~= Seq::<u8>::empty());
        }
    } else {
        let i = choose|i: int| 0 <= i < n && f == data_frame(payload, i);
        lemma_frame_shape(i as u32, chunk_data(payload, i));
        assert(frame_body(f) != end_marker());
        if frame_seq(f) == s.expected && s.expected < u32::MAX {
            assert(i == s.expected);
            lemma_prefix_glue(payload, i);
        }
    }
}

proof fn lemma_rx_run_synced(payload: Seq<u8>, s: RxModel, frames: Seq<Seq<u8>>)
    requires
        num_chunks(payload.len()) <= u32::MAX,
        unambiguous(payload),
        rx_synced(payload, s),
        forall|k: int|
            0 <= k < frames.len() ==> sender_frames(payload).contains(#[trigger] frames[k]),
    ensures
        rx_synced(payload, rx_run(s, frames)),
    decreases frames.len(),
{
    if frames.len() > 0 {
        lemma_rx_step(payload, s, frames[0]);
        lemma_rx_run_synced(payload, rx_next(s, frames[0]), frames.skip(1));
    }
}

/// However the sender's frames for `payload` are delivered — dropped,
/// duplicated or reordered — a fresh receiver only ever holds a prefix of
/// `payload`, and at any point where it accepts the in-sequence `END`, the
/// blob it delivers is exactly `payload`.
pub proof fn transport_delivers_exactly(payload: Seq<u8>, frames: Seq<Seq<u8>>)
    requires
        num_chunks(payload.len()) <= u32::MAX,
        unambiguous(payload),
        forall|k: int|
            0 <= k < frames.len() ==> sender_frames(payload).contains(#[trigger] frames[k]),
    ensures
        rx_synced(payload, rx_run(rx_init(), frames)),
        forall|k: int|
            0 <= k < frames.len() && rx_completes(rx_run(rx_init(), frames.take(k)), frames[k])
                ==> rx_run(rx_init(), frames.take(k)).buf == payload,
{
    assert(rx_synced(payload, rx_init())) by {
        assert(prefix_data(payload, 0) =~= Seq::<u8>::empty());
    }
    lemma_rx_run_synced(payload, rx_init(), frames);
    assert forall|k: int|
        0 <= k < frames.len() && rx_completes(
            rx_run(rx_init(), frames.take(k)),
            frames[k],
        ) implies rx_run(rx_init(), frames.take(k)).buf == payload by {
        assert(forall|j: int|
            0 <= j < frames.take(k).len() ==> sender_frames(payload).contains(
                #[trigger] frames.take(k)[j],
            ));
        lemma_rx_run_synced(payload, rx_init(), frames.take(k));
        lemma_rx_step(payload, rx_run(rx_init(), frames.take(k)), frames[k]);
    }
}

/// A zero-length payload has no data chunks: the transfer is the single
/// `END` frame with sequence number 0, which a fresh receiver completes at
/// once, delivering the empty blob with the one terminator acknowledgment.
pub proof fn empty_payload_single_end(payload: Seq<u8>)
    requires
        payload.len() == 0,
    ensures
        num_chunks(payload.len()) == 0,
        end_frame(payload) == u32_be(0) + end_marker(),
        rx_completes(rx_init(), end_frame(payload)),
        rx_next(rx_init(), end_frame(payload)) == rx_init(),
        rx_init().buf == payload,
{
    lemma_num_chunks_bounds(payload.len());
    lemma_frame_shape(0, end_marker());
    assert(rx_init().buf =~= payload);
    assert(rx_next(rx_init(), end_frame(payload)).buf =~= rx_init().buf);
}

/// A payload of exactly `k` full chunks sends `k` full-sized data frames
/// and still exactly one `END` frame: no data chunk reads as a terminator,
/// and the `END` frame carries sequence number `k`.
pub proof fn exact_multiple_single_end(payload: Seq<u8>)
    requires
        payload.len() % 2044 == 0,
        payload.len() > 0,
        num_chunks(payload.len()) <= u32::MAX,
    ensures
        num_chunks(payload.len()) == payload.len() / 2044,
        forall|i: int|
            0 <= i < num_chunks(payload.len()) ==> #[trigger] chunk_data(payload, i).len() == 2044,
        unambiguous(payload),
        frame_body(end_frame(payload)) == end_marker(),
        forall|i: int|
            0 <= i < num_chunks(payload.len()) ==> frame_body(
                #[trigger] data_frame(payload, i),
            ) != end_marker(),
        frame_seq(end_frame(payload)) == payload.len() / 2044,
{
    let len = payload.len() as int;
    let k = len / 2044;
    vstd::arithmetic::div_mod::lemma_fundamental_div_mod(len, 2044);
    assert(len == 2044 * k);
    vstd::arithmetic::div_mod::lemma_fundamental_div_mod_converse(len + 2043, 2044, k, 2043);
    assert(num_chunks(payload.len()) == k);
    assert forall|i: int| 0 <= i < k implies #[trigger] chunk_data(payload, i).len() == 2044 by {
        assert(2044 * (i + 1) <= 2044 * k) by (nonlinear_arith)
            requires
                i + 1 <= k,
        ;
        assert(2044 * i >= 0) by (nonlinear_arith)
            requires
                i >= 0,
        ;
    }
    assert forall|i: int| 0 <= i < k implies frame_body(#[trigger] data_frame(payload, i))
        != end_marker() by {
        lemma_frame_shape(i as u32, chunk_data(payload, i));
    }
    lemma_frame_shape(k as u32, end_marker());
}

} // verus!
