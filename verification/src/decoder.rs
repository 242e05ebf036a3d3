//! The streaming telemetry decoder: reassembles newline-delimited records
//! across arbitrary read-chunk boundaries, assigns gapless increasing
//! sequence numbers to the records that parse, silently drops lines that do
//! not, and bounds its accumulator against an unterminated or garbled link.

use vstd::prelude::*;

use crate::record::{
    convert_to_packet, line_accepted, parse_telemetry, parsed_record, TelemetryPacket,
    TelemetryPacketView,
};
use crate::text::{
    count_byte, lemma_count_byte_concat, lemma_count_byte_le_len, lemma_count_byte_zero,
    lemma_split_on_concat, lemma_split_on_first, lemma_split_on_len, lemma_split_on_no_sep,
    split_on,
};

verus! {

/// Ceiling on accumulated bytes with no line terminator in sight; beyond it
/// the whole accumulator is discarded (lossy, by design).
pub const MAX_UNTERMINATED: usize = 4096;

/// A candidate line with a single trailing carriage return removed.
pub open spec fn strip_cr(l: Seq<u8>) -> Seq<u8> {
    if l.len() > 0 && l.last() == 13 {
        l.drop_last()
    } else {
        l
    }
}

/// The complete (newline-terminated) lines of a buffer, in order.
pub open spec fn complete_lines(s: Seq<u8>) -> Seq<Seq<u8>> {
    split_on(s, 10).drop_last()
}

/// What follows the last newline of a buffer: the partial line kept for the
/// next read.
pub open spec fn tail_after_lines(s: Seq<u8>) -> Seq<u8> {
    split_on(s, 10).last()
}

/// The overflow safety valve: an unterminated tail beyond the ceiling is
/// discarded whole.
pub open spec fn clamp_tail(t: Seq<u8>) -> Seq<u8> {
    if t.len() > MAX_UNTERMINATED {
        Seq::empty()
    } else {
        t
    }
}

/// Whether a candidate line produces a packet: non-empty after stripping the
/// carriage return, and accepted by the record parser.
pub open spec fn line_emits(l: Seq<u8>) -> bool {
    strip_cr(l).len() > 0 && line_accepted(strip_cr(l))
}

/// The packets a sequence of candidate lines produces, when the last emitted
/// sequence number so far was `seq0`.
pub open spec fn packets_from(lines: Seq<Seq<u8>>, seq0: nat) -> Seq<TelemetryPacketView>
    decreases lines.len(),
{
    if lines.len() == 0 {
        Seq::empty()
    } else {
        if line_emits(lines[0]) {
            seq![
                TelemetryPacketView {
                    packet_id: (seq0 + 1) as u64,
                    data: parsed_record(strip_cr(lines[0])),
                },
            ] + packets_from(lines.drop_first(), seq0 + 1)
        } else {
            packets_from(lines.drop_first(), seq0)
        }
    }
}

/// The views of a sequence of packets.
pub open spec fn packet_views(s: Seq<TelemetryPacket>) -> Seq<TelemetryPacketView> {
    s.map_values(|p: TelemetryPacket| p@)
}

/// The streaming decoder: a text accumulator and the sequence counter. One
/// instance owns one session's counter; the first emitted packet carries
/// sequence number 1.
pub struct StreamDecoder {
    acc: Vec<u8>,
    seq: u64,
}

impl StreamDecoder {
    /// The bytes buffered while waiting for a line terminator.
    pub closed spec fn buffered(&self) -> Seq<u8> {
        self.acc@
    }

    /// The sequence number of the most recently emitted packet (0 before any).
    pub closed spec fn sequence(&self) -> u64 {
        self.seq
    }

    /// The accumulator never holds a line terminator between calls, and never
    /// exceeds the overflow ceiling.
    pub open spec fn wf(&self) -> bool {
        &&& forall|i: int| 0 <= i < self.buffered().len() ==> self.buffered()[i] != 10
        &&& self.buffered().len() <= MAX_UNTERMINATED
    }

    pub fn new() -> (d: StreamDecoder)
        ensures
            d.buffered() == Seq::<u8>::empty(),
            d.sequence() == 0,
            d.wf(),
    {
        let d = StreamDecoder { acc: Vec::new(), seq: 0 };
        proof {
            assert(d.buffered() =~= Seq::<u8>::empty());
        }
        d
    }

    /// Feed decoded text into the accumulator and drain every complete line:
    /// each non-empty line that parses becomes one packet with the next
    /// sequence number; malformed lines are dropped without affecting the
    /// counter; an oversized unterminated tail is discarded whole.
    pub fn push_text(&mut self, text: &Vec<u8>) -> (packets: Vec<TelemetryPacket>)
        requires
            old(self).wf(),
            old(self).sequence() + text@.len() <= u64::MAX,
        ensures
            final(self).wf(),
            packet_views(packets@) == packets_from(
                complete_lines(old(self).buffered() + text@),
                old(self).sequence() as nat,
            ),
            final(self).sequence() == old(self).sequence() + packets@.len(),
            final(self).buffered() == clamp_tail(
                tail_after_lines(old(self).buffered() + text@),
            ),
    {
        let ghost combined = old(self).buffered() + text@;
        let ghost seq0 = old(self).sequence() as nat;

        // Append the new text to the accumulator.
        let mut k: usize = 0;
        while k < text.len()
            invariant
                k <= text@.len(),
                self.acc@ == old(self).buffered() + text@.subrange(0, k as int),
                self.seq == old(self).sequence(),
            decreases text@.len() - k,
        {
            self.acc.push(text[k]);
            proof {
                assert(old(self).buffered() + text@.subrange(0, k + 1) =~= (old(
                    self,
                ).buffered() + text@.subrange(0, k as int)).push(text@[k as int]));
            }
            k = k + 1;
        }
        proof {
            assert(self.acc@ =~= combined);
            lemma_count_byte_zero(old(self).buffered(), 10);
            lemma_count_byte_concat(old(self).buffered(), text@, 10);
            lemma_count_byte_le_len(text@, 10);
        }

        // Drain complete lines.
        let mut packets: Vec<TelemetryPacket> = Vec::new();
        let mut done: bool = false;
        proof {
            assert(packet_views(packets@) =~= Seq::<TelemetryPacketView>::empty());
            assert(Seq::<TelemetryPacketView>::empty() + packets_from(
                complete_lines(combined),
                seq0,
            ) =~= packets_from(complete_lines(combined), seq0));
        }
        while !done
            invariant
                self.seq as int == seq0 + packets@.len(),
                self.seq + count_byte(self.acc@, 10) <= u64::MAX,
                packet_views(packets@) + packets_from(
                    complete_lines(self.acc@),
                    self.seq as nat,
                ) == packets_from(complete_lines(combined), seq0),
                tail_after_lines(self.acc@) == tail_after_lines(combined),
                done ==> forall|i: int| 0 <= i < self.acc@.len() ==> self.acc@[i] != 10,
            decreases self.acc@.len() + if done {
                0int
            } else {
                1int
            },
        {
            // Find the first line terminator, if any.
            let mut j: usize = 0;
            while j < self.acc.len() && self.acc[j] != 10
                invariant
                    j <= self.acc@.len(),
                    forall|i: int| 0 <= i < j ==> self.acc@[i] != 10,
                decreases self.acc@.len() - j,
            {
                j = j + 1;
            }
            if j == self.acc.len() {
                done = true;
            } else {
                let ghost acc0 = self.acc@;
                let ghost rest = acc0.subrange(j + 1, acc0.len() as int);
                let ghost head = acc0.subrange(0, j as int);
                proof {
                    lemma_split_on_first(acc0, 10, j as int);
                    lemma_split_on_len(rest, 10);
                    // complete_lines(acc0) == [head] + complete_lines(rest)
                    assert((seq![head] + split_on(rest, 10)).drop_last() =~= seq![head]
                        + split_on(rest, 10).drop_last());
                    assert((seq![head] + split_on(rest, 10)).last() == split_on(
                        rest,
                        10,
                    ).last());
                    // count decreases by at least one
                    assert(acc0 =~= acc0.subrange(0, j + 1) + rest);
                    lemma_count_byte_concat(acc0.subrange(0, j + 1), rest, 10);
                    assert(acc0.subrange(0, j + 1) =~= head.push(10u8));
                    assert(head.push(10u8) =~= head + seq![10u8]);
                    lemma_count_byte_concat(head, seq![10u8], 10);
                    lemma_count_byte_zero(head, 10);
                    assert(count_byte(seq![10u8], 10) == 1) by {
                        let s1 = seq![10u8];
                        assert(s1.len() == 1 && s1[0] == 10u8);
                        lemma_count_byte_zero(s1.drop_first(), 10);
                        assert(count_byte(s1, 10) == count_byte(s1.drop_first(), 10) + 1);
                    }
                    assert(count_byte(acc0, 10) == 1 + count_byte(rest, 10));
                }
                // Extract the candidate line, excluding one trailing CR.
                let line_end: usize = if j > 0 && self.acc[j - 1] == 13 {
                    j - 1
                } else {
                    j
                };
                let line = crate::text::copy_range(&self.acc, 0, line_end);
                proof {
                    if j > 0 && acc0[j - 1] == 13 {
                        assert(head.last() == acc0[j - 1]);
                        assert(line@ =~= head.drop_last());
                    }
                    assert(line@ == strip_cr(head));
                }
                // Drop the consumed text, terminator included.
                let rest_vec = crate::text::copy_range(&self.acc, j + 1, self.acc.len());
                self.acc = rest_vec;
                // Parse the candidate line if it is non-empty.
                let ghost packets0 = packets@;
                let ghost seq_before = self.seq;
                let mut emitted: bool = false;
                if line.len() > 0 {
                    match parse_telemetry(&line) {
                        Some(data) => {
                            self.seq = self.seq + 1;
                            let packet = convert_to_packet(&data, self.seq);
                            packets.push(packet);
                            emitted = true;
                        },
                        None => {},
                    }
                }
                proof {
                    let lines0 = complete_lines(acc0);
                    assert(lines0 == seq![head] + complete_lines(rest));
                    assert(lines0.len() > 0);
                    assert(lines0[0] == head);
                    assert(lines0.drop_first() =~= complete_lines(rest));
                    if emitted {
                        assert(line_emits(head));
                        assert(packets_from(lines0, seq_before as nat) == seq![
                            TelemetryPacketView {
                                packet_id: (seq_before + 1) as u64,
                                data: parsed_record(strip_cr(head)),
                            },
                        ] + packets_from(complete_lines(rest), (seq_before + 1) as nat));
                        assert(packet_views(packets@) =~= packet_views(packets0).push(
                            packets@.last()@,
                        ));
                        assert(packet_views(packets0) + packets_from(
                            lines0,
                            seq_before as nat,
                        ) =~= packet_views(packets@) + packets_from(
                            complete_lines(rest),
                            self.seq as nat,
                        ));
                    } else {
                        assert(!line_emits(head));
                        assert(packets_from(lines0, seq_before as nat) == packets_from(
                            complete_lines(rest),
                            seq_before as nat,
                        ));
                    }
                }
            }
        }
        // No terminator remains; apply the overflow safety valve.
        proof {
            lemma_split_on_no_sep(self.acc@, 10);
            assert(complete_lines(self.acc@) =~= Seq::<Seq<u8>>::empty());
            assert(tail_after_lines(self.acc@) == self.acc@);
            assert(packet_views(packets@) + packets_from(complete_lines(self.acc@), self.seq as nat)
                =~= packet_views(packets@));
        }
        if self.acc.len() > MAX_UNTERMINATED {
            self.acc = Vec::new();
            proof {
                assert(self.acc@ =~= Seq::<u8>::empty());
            }
        }
        packets
    }
}

/// Names the text that lossy UTF-8 decoding produces from a byte chunk: a
/// function of the bytes alone.
pub uninterp spec fn lossy_of(s: Seq<u8>) -> Seq<u8>;

/// Relies on String::from_utf8_lossy: the decoding depends on the bytes
/// alone (invalid sequences become U+FFFD), and valid UTF-8 — in particular
/// pure ASCII — is returned unchanged.
#[verifier::external_body]
fn lossy_decode(chunk: &Vec<u8>) -> (r: Vec<u8>)
    ensures
        r@ == lossy_of(chunk@),
        (forall|i: int| 0 <= i < chunk@.len() ==> chunk@[i] < 128) ==> r@ == chunk@,
{
    String::from_utf8_lossy(chunk).into_owned().into_bytes()
}

impl StreamDecoder {
    /// One read's worth of raw bytes, decoded as text with byte-level lossy
    /// substitution, then drained for complete lines as `push_text` does. The
    /// sequence counter cannot advance past `u64::MAX`: a chunk that would do
    /// so (unreachable in any real session) is dropped whole and the decoder
    /// is left unchanged.
    pub fn push_chunk(&mut self, chunk: &Vec<u8>) -> (packets: Vec<TelemetryPacket>)
        requires
            old(self).wf(),
        ensures
            final(self).wf(),
            (forall|i: int| 0 <= i < chunk@.len() ==> chunk@[i] < 128) ==> lossy_of(chunk@)
                == chunk@,
            old(self).sequence() + lossy_of(chunk@).len() <= u64::MAX ==> {
                &&& packet_views(packets@) == packets_from(
                    complete_lines(old(self).buffered() + lossy_of(chunk@)),
                    old(self).sequence() as nat,
                )
                &&& final(self).sequence() == old(self).sequence() + packets@.len()
                &&& final(self).buffered() == clamp_tail(
                    tail_after_lines(old(self).buffered() + lossy_of(chunk@)),
                )
            },
            old(self).sequence() + lossy_of(chunk@).len() > u64::MAX ==> {
                &&& final(self).buffered() == old(self).buffered()
                &&& final(self).sequence() == old(self).sequence()
                &&& packets@.len() == 0
            },
    {
        let text = lossy_decode(chunk);
        if self.seq <= u64::MAX - (text.len() as u64) {
            self.push_text(&text)
        } else {
            Vec::new()
        }
    }
}

/// What one poll of the byte source yielded.
pub enum ReadEvent {
    /// The read returned bytes.
    Data(Vec<u8>),
    /// The read returned zero bytes without error: no data ready yet.
    NoData,
    /// The read failed with a timeout-class error: not terminal.
    TimedOut,
    /// The read failed with any other error: fatal for this decoder run.
    Failed,
}

/// What the decode loop must do after one event.
pub enum StepOutcome {
    /// Deliver these packets to the sink, then poll again.
    Emitted(Vec<TelemetryPacket>),
    /// Pause briefly (no data was ready), then poll again.
    Pause,
    /// Leave the loop: cancellation or a fatal read error.
    Stop,
}

impl StreamDecoder {
    /// One iteration of the decode loop's decision logic. `cancelled` is the
    /// shared stop flag as sampled before the read attempt; when it is set
    /// the event is ignored and the loop terminates cleanly. Zero-byte reads
    /// and timeout-class errors pause and retry; any other read error stops
    /// the loop permanently; data is decoded and drained for packets.
    pub fn handle_event(&mut self, cancelled: bool, event: ReadEvent) -> (out: StepOutcome)
        requires
            old(self).wf(),
        ensures
            final(self).wf(),
            (cancelled || (!cancelled && event is Failed)) ==> {
                &&& out is Stop
                &&& final(self).buffered() == old(self).buffered()
                &&& final(self).sequence() == old(self).sequence()
            },
            (!cancelled && (event is NoData || event is TimedOut)) ==> {
                &&& out is Pause
                &&& final(self).buffered() == old(self).buffered()
                &&& final(self).sequence() == old(self).sequence()
            },
            !cancelled ==> (event matches ReadEvent::Data(chunk) ==> (out matches
                StepOutcome::Emitted(packets) && {
                &&& old(self).sequence() + lossy_of(chunk@).len() <= u64::MAX ==> {
                    &&& packet_views(packets@) == packets_from(
                        complete_lines(old(self).buffered() + lossy_of(chunk@)),
                        old(self).sequence() as nat,
                    )
                    &&& final(self).sequence() == old(self).sequence() + packets@.len()
                    &&& final(self).buffered() == clamp_tail(
                        tail_after_lines(old(self).buffered() + lossy_of(chunk@)),
                    )
                }
                &&& old(self).sequence() + lossy_of(chunk@).len() > u64::MAX ==> {
                    &&& final(self).buffered() == old(self).buffered()
                    &&& final(self).sequence() == old(self).sequence()
                    &&& packets@.len() == 0
                }
            })),
    {
        if cancelled {
            return StepOutcome::Stop;
        }
        match event {
            ReadEvent::Data(chunk) => StepOutcome::Emitted(self.push_chunk(&chunk)),
            ReadEvent::NoData => StepOutcome::Pause,
            ReadEvent::TimedOut => StepOutcome::Pause,
            ReadEvent::Failed => StepOutcome::Stop,
        }
    }
}

/// Law: sequence numbers are gapless and strictly increasing. The packets a
/// run of candidate lines produces after sequence number `seq0` carry the
/// numbers `seq0 + 1`, `seq0 + 2`, ... in order, however the lines were
/// chunked.
pub proof fn lemma_sequence_ids_gapless(lines: Seq<Seq<u8>>, seq0: nat, k: int)
    requires
        0 <= k < packets_from(lines, seq0).len(),
    ensures
        packets_from(lines, seq0)[k].packet_id == ((seq0 + k + 1) as u64),
    decreases lines.len(),
{
    if lines.len() > 0 {
        if line_emits(lines[0]) {
            if k > 0 {
                lemma_sequence_ids_gapless(lines.drop_first(), seq0 + 1, k - 1);
            }
        } else {
            lemma_sequence_ids_gapless(lines.drop_first(), seq0, k);
        }
    }
}

/// The packets an entire session emits: starting from buffered bytes `acc`
/// and last sequence number `seq0`, each text in `texts` is drained exactly
/// as one `push_text` call drains it (its `ensures` matches one step of this
/// fold), and the emissions are concatenated in order.
pub open spec fn run_packets(acc: Seq<u8>, seq0: nat, texts: Seq<Seq<u8>>) -> Seq<
    TelemetryPacketView,
>
    decreases texts.len(),
{
    if texts.len() == 0 {
        Seq::empty()
    } else {
        let emitted = packets_from(complete_lines(acc + texts[0]), seq0);
        emitted + run_packets(
            clamp_tail(tail_after_lines(acc + texts[0])),
            seq0 + emitted.len(),
            texts.drop_first(),
        )
    }
}

/// Law: over a whole session — any number of reads, chunked anywhere — the
/// emitted packets carry sequence numbers `seq0 + 1`, `seq0 + 2`, ... in
/// strictly increasing, gapless order.
pub proof fn lemma_run_ids_gapless(acc: Seq<u8>, seq0: nat, texts: Seq<Seq<u8>>, k: int)
    requires
        0 <= k < run_packets(acc, seq0, texts).len(),
    ensures
        run_packets(acc, seq0, texts)[k].packet_id == ((seq0 + k + 1) as u64),
    decreases texts.len(),
{
    let emitted = packets_from(complete_lines(acc + texts[0]), seq0);
    if k < emitted.len() {
        lemma_sequence_ids_gapless(complete_lines(acc + texts[0]), seq0, k);
    } else {
        lemma_run_ids_gapless(
            clamp_tail(tail_after_lines(acc + texts[0])),
            seq0 + emitted.len(),
            texts.drop_first(),
            k - emitted.len(),
        );
    }
}

/// The packets of concatenated line runs: the second run starts its sequence
/// numbers where the first run's emissions left off.
pub proof fn lemma_packets_from_concat(l1: Seq<Seq<u8>>, l2: Seq<Seq<u8>>, seq0: nat)
    ensures
        packets_from(l1 + l2, seq0) == packets_from(l1, seq0) + packets_from(
            l2,
            seq0 + packets_from(l1, seq0).len(),
        ),
    decreases l1.len(),
{
    if l1.len() == 0 {
        assert(l1 + l2 =~= l2);
        assert(packets_from(l1, seq0) + packets_from(l2, seq0 + 0) =~= packets_from(l2, seq0));
    } else {
        assert((l1 + l2)[0] == l1[0]);
        assert((l1 + l2).drop_first() =~= l1.drop_first() + l2);
        if line_emits(l1[0]) {
            lemma_packets_from_concat(l1.drop_first(), l2, seq0 + 1);
            let pkt = seq![
                TelemetryPacketView {
                    packet_id: (seq0 + 1) as u64,
                    data: parsed_record(strip_cr(l1[0])),
                },
            ];
            let rest = packets_from(l1.drop_first(), seq0 + 1);
            assert(packets_from(l1, seq0).len() == 1 + rest.len());
            assert(pkt + (rest + packets_from(l2, seq0 + 1 + rest.len())) =~= (pkt + rest)
                + packets_from(l2, seq0 + packets_from(l1, seq0).len()));
        } else {
            lemma_packets_from_concat(l1.drop_first(), l2, seq0);
        }
    }
}

/// Law: chunk boundaries are invisible. As long as the tail left by the first
/// read stays within the ceiling, feeding `t1` and then `t2` emits exactly
/// the packets of feeding `t1 + t2` in one read — same records, same sequence
/// numbers, same leftover buffer — wherever the boundary falls, even inside a
/// line.
pub proof fn lemma_chunking_invariance(acc: Seq<u8>, t1: Seq<u8>, t2: Seq<u8>, seq0: nat)
    requires
        tail_after_lines(acc + t1).len() <= MAX_UNTERMINATED,
    ensures
        packets_from(complete_lines(acc + (t1 + t2)), seq0) == packets_from(
            complete_lines(acc + t1),
            seq0,
        ) + packets_from(
            complete_lines(clamp_tail(tail_after_lines(acc + t1)) + t2),
            seq0 + packets_from(complete_lines(acc + t1), seq0).len(),
        ),
        clamp_tail(tail_after_lines(acc + (t1 + t2))) == clamp_tail(
            tail_after_lines(clamp_tail(tail_after_lines(acc + t1)) + t2),
        ),
{
    let u = acc + t1;
    let tail = tail_after_lines(u);
    assert(clamp_tail(tail) == tail);
    assert(u + t2 =~= acc + (t1 + t2));
    lemma_split_on_concat(u, t2, 10);
    lemma_split_on_len(tail + t2, 10);
    let su = split_on(u, 10);
    let sb = split_on(tail + t2, 10);
    assert(split_on(u + t2, 10) == su.drop_last() + sb);
    assert((su.drop_last() + sb).drop_last() =~= su.drop_last() + sb.drop_last());
    assert(complete_lines(u + t2) == complete_lines(u) + complete_lines(tail + t2));
    assert((su.drop_last() + sb).last() == sb.last());
    assert(tail_after_lines(u + t2) == tail_after_lines(tail + t2));
    lemma_packets_from_concat(complete_lines(u), complete_lines(tail + t2), seq0);
}

/// Law: a line split across two reads is reassembled exactly once. If a first
/// text `t1` leaves no complete line (no terminator) and stays within the
/// ceiling, feeding `t1` then `t2` emits, counts and buffers exactly what
/// feeding `t1 + t2` in one read would: the first feed emits nothing and only
/// extends the buffer.
pub proof fn lemma_split_read_reassembly(acc: Seq<u8>, t1: Seq<u8>, t2: Seq<u8>, seq0: nat)
    requires
        forall|i: int| 0 <= i < (acc + t1).len() ==> (acc + t1)[i] != 10,
        (acc + t1).len() <= MAX_UNTERMINATED,
    ensures
        packets_from(complete_lines(acc + t1), seq0) == Seq::<TelemetryPacketView>::empty(),
        clamp_tail(tail_after_lines(acc + t1)) == acc + t1,
        packets_from(complete_lines((acc + t1) + t2), seq0) == packets_from(
            complete_lines(acc + (t1 + t2)),
            seq0,
        ),
        clamp_tail(tail_after_lines((acc + t1) + t2)) == clamp_tail(
            tail_after_lines(acc + (t1 + t2)),
        ),
{
    lemma_split_on_no_sep(acc + t1, 10);
    assert(complete_lines(acc + t1) =~= Seq::<Seq<u8>>::empty());
    assert(tail_after_lines(acc + t1) == acc + t1);
    assert((acc + t1) + t2 =~= acc + (t1 + t2));
}

} // verus!
