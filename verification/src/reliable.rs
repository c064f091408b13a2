use std::collections::VecDeque;
use std::sync::Arc;
use std::time::{Duration, Instant};
use vstd::prelude::*;
use crate::packet::{
    PacketType, PayloadLimits, STREAM_EVENT, STREAM_STATE, MAX_FRAGMENTS, encoded_packet_count,
    spec_encoded_packet_count, split_chunks, fragment_bytes, fragment_count,
};

verus! {

broadcast use vstd::std_specs::vecdeque::group_vec_dequeue_axioms;

/// Sequences older than this many below the highest one received are forgotten.
pub const RECV_WINDOW: u32 = 1024;

/// Packets that may be in flight, sent but not acknowledged, at once.
pub const SEND_WINDOW: usize = 32;

/// Packets that may wait to be sent.
pub const MAX_UNSENT: usize = 128;

/// Round-trip estimate before any acknowledgement, in nanoseconds (50 ms).
pub const INITIAL_RTT_NANOS: u128 = 50_000_000;

/// Round-trip variation estimate before any acknowledgement (25 ms).
pub const INITIAL_RTT_VAR_NANOS: u128 = 25_000_000;

/// Retransmission timeout before any acknowledgement (150 ms).
pub const INITIAL_RTO_NANOS: u128 = 150_000_000;

/// The retransmission timeout never drops below this (20 ms).
pub const MIN_RTO_NANOS: u128 = 20_000_000;

#[verifier::external_type_specification]
#[verifier::external_body]
pub struct ExInstant(Instant);

/// `Instant::now`: the current reading of the monotonic clock. Nothing is
/// promised of the value.
#[verifier::external_body]
fn instant_now() -> Instant {
    Instant::now()
}

/// `Instant::elapsed`: how long ago `since` was read. Nothing is promised of
/// the value, which depends on the clock.
#[verifier::external_body]
fn elapsed_since(since: &Instant) -> Duration {
    since.elapsed()
}

/// `Duration::as_nanos`: the whole nanoseconds of `d`. Nothing is stated of the
/// value, as a `Duration` is opaque here.
#[verifier::external_body]
fn duration_nanos(d: &Duration) -> u128 {
    d.as_nanos()
}

/// Whole nanoseconds since `since` was read, saturating at `u64::MAX`.
fn nanos_since(since: &Instant) -> u64 {
    let nanos = duration_nanos(&elapsed_since(since));
    if nanos > 0xffff_ffff_ffff_ffff {
        0xffff_ffff_ffff_ffff
    } else {
        nanos as u64
    }
}

/// Outcome of offering a message to a reliable channel.
#[derive(Clone, Copy, Debug, PartialEq, Eq, Structural)]
pub enum EnqueueStatus {
    Queued,
    Full,
    TooLarge,
}

/// A packet that was sent and waits for its acknowledgement. Times are
/// nanoseconds since the channel was created.
#[derive(Debug)]
pub struct PendingPacket {
    pub seq: u32,
    pub packet: PacketType,
    pub sent_at: u64,
    pub last_sent: u64,
}

/// `now - then`, or 0 when `then` is later.
pub open spec fn elapsed(now: u64, then: u64) -> nat {
    if now >= then {
        (now - then) as nat
    } else {
        0
    }
}

/// The round-trip estimates after a sample of `rtt` nanoseconds: the first
/// sample (while the estimate is 0) replaces it; later ones move it by an
/// eighth, and the variation by a quarter of the deviation. The timeout is
/// the estimate plus four variations, at least `MIN_RTO_NANOS`.
pub open spec fn rtt_update(srtt: nat, var: nat, rtt: nat) -> (nat, nat, nat) {
    let (s, v) = if srtt == 0 {
        (rtt, rtt / 2)
    } else {
        let diff: nat = if rtt > srtt {
            (rtt - srtt) as nat
        } else {
            (srtt - rtt) as nat
        };
        ((srtt * 7 + rtt) / 8, (var * 3 + diff) / 4)
    };
    let rto = s + v * 4;
    (s, v, if rto < MIN_RTO_NANOS {
        MIN_RTO_NANOS as nat
    } else {
        rto
    })
}

/// A pending packet has waited for longer than the timeout since it was last sent.
pub open spec fn expired(p: PendingPacket, now: u64, rto: nat) -> bool {
    elapsed(now, p.last_sent) > rto
}

/// The packets of `pending` that time out at `now`, in order.
pub open spec fn expired_packets(pending: Seq<PendingPacket>, now: u64, rto: nat) -> Seq<PacketType>
    decreases pending.len(),
{
    if pending.len() == 0 {
        Seq::empty()
    } else {
        let rest = expired_packets(pending.drop_last(), now, rto);
        if expired(pending.last(), now, rto) {
            rest.push(pending.last().packet)
        } else {
            rest
        }
    }
}

/// `p` after a pump at `now`: marked sent now when it timed out.
pub open spec fn refreshed(p: PendingPacket, now: u64, rto: nat) -> PendingPacket {
    if expired(p, now, rto) {
        PendingPacket { last_sent: now, ..p }
    } else {
        p
    }
}

/// `pending` with one more packet in flight; a packet already in flight under the
/// same sequence is replaced in place.
pub open spec fn insert_pending(pending: Seq<PendingPacket>, p: PendingPacket) -> Seq<PendingPacket> {
    if exists|i: int| 0 <= i < pending.len() && #[trigger] pending[i].seq == p.seq {
        let i = choose|i: int| 0 <= i < pending.len() && #[trigger] pending[i].seq == p.seq;
        pending.update(i, p)
    } else {
        pending.push(p)
    }
}

/// `pending` after the queued packets `items` were sent at `now`, one by one.
pub open spec fn insert_sent(pending: Seq<PendingPacket>, items: Seq<(u32, PacketType)>, now: u64) -> Seq<PendingPacket>
    decreases items.len(),
{
    if items.len() == 0 {
        pending
    } else {
        let last = items.last();
        insert_pending(
            insert_sent(pending, items.drop_last(), now),
            PendingPacket { seq: last.0, packet: last.1, sent_at: now, last_sent: now },
        )
    }
}

/// No two packets in flight share a sequence.
pub open spec fn distinct_seqs(pending: Seq<PendingPacket>) -> bool {
    forall|i: int, j: int|
        0 <= i < pending.len() && 0 <= j < pending.len() && i != j ==> #[trigger] pending[i].seq
            != #[trigger] pending[j].seq
}

/// The number of queued packets a pump releases into the send window.
pub open spec fn released_count(pending_len: nat, unsent_len: nat) -> nat {
    if pending_len >= SEND_WINDOW {
        0
    } else if unsent_len < SEND_WINDOW - pending_len {
        unsent_len
    } else {
        (SEND_WINDOW - pending_len) as nat
    }
}

/// `a + k`, wrapping at 2^32.
pub open spec fn seq_after(a: u32, k: nat) -> u32 {
    ((a as nat + k) % 0x1_0000_0000) as u32
}

/// `packet` is a reliable packet of the given session and stream, numbered
/// `sequence`, carrying `bytes`.
pub open spec fn is_reliable_packet(packet: PacketType, session: u64, stream: u8, sequence: u32, bytes: Seq<u8>) -> bool {
    match packet {
        PacketType::Reliable { session: s, stream: st, sequence: q, payload } => {
            &&& s == session
            &&& st == stream
            &&& q == sequence
            &&& payload@ == bytes
        },
        _ => false,
    }
}

/// `packet` is fragment `idx` of `total` of message `packet_id`, numbered
/// `sequence`, carrying `bytes`.
pub open spec fn is_fragment_packet(
    packet: PacketType,
    session: u64,
    stream: u8,
    sequence: u32,
    packet_id: u16,
    idx: int,
    total: int,
    bytes: Seq<u8>,
) -> bool {
    match packet {
        PacketType::Fragment { session: s, stream: st, sequence: q, packet_id: id, fragment_idx, total_fragments, data } => {
            &&& s == session
            &&& st == stream
            &&& q == sequence
            &&& id == packet_id
            &&& fragment_idx == idx
            &&& total_fragments == total
            &&& data@ == bytes
        },
        _ => false,
    }
}

/// `items` are the packets one message becomes: a single reliable packet when it
/// fits, else consecutive fragments with consecutive sequences from `first_seq`.
pub open spec fn message_packets(
    items: Seq<(u32, PacketType)>,
    payload: Seq<u8>,
    limits: PayloadLimits,
    session: u64,
    stream: u8,
    first_seq: u32,
    packet_id: u16,
) -> bool {
    if payload.len() <= limits.reliable {
        &&& items.len() == 1
        &&& items[0].0 == first_seq
        &&& is_reliable_packet(items[0].1, session, stream, first_seq, payload)
    } else {
        let n = fragment_count(payload.len(), limits.fragment as nat);
        &&& items.len() == n
        &&& forall|i: int|
            0 <= i < n ==> (#[trigger] items[i]).0 == seq_after(first_seq, i as nat)
                && is_fragment_packet(
                items[i].1,
                session,
                stream,
                seq_after(first_seq, i as nat),
                packet_id,
                i,
                n as int,
                fragment_bytes(payload, limits.fragment as nat, i as nat),
            )
    }
}

/// Sends messages in order and without loss over an unreliable transport:
/// every message becomes one or more numbered packets that are retransmitted
/// until acknowledged, with at most `SEND_WINDOW` in flight.
pub struct ReliableChannel {
    stream: u8,
    session: u64,
    limits: PayloadLimits,
    outgoing_seq: u32,
    next_fragment_id: u16,
    unsent: VecDeque<(u32, PacketType)>,
    pending_acknowledgements: Vec<PendingPacket>,
    received_sequences: Vec<u32>,
    highest_received: u32,
    smoothed_rtt: u128,
    rtt_var: u128,
    current_rto: u128,
    epoch: Instant,
}

impl ReliableChannel {
    /// Packets queued and not yet sent, with their sequences, oldest first.
    pub closed spec fn unsent_view(&self) -> Seq<(u32, PacketType)> {
        self.unsent@
    }

    /// Packets in flight.
    pub closed spec fn pending_view(&self) -> Seq<PendingPacket> {
        self.pending_acknowledgements@
    }

    /// Sequences received recently.
    pub closed spec fn received_view(&self) -> Set<u32> {
        self.received_sequences@.to_set()
    }

    pub closed spec fn highest_received_view(&self) -> u32 {
        self.highest_received
    }

    /// The sequence the next packet gets.
    pub closed spec fn outgoing_seq_view(&self) -> u32 {
        self.outgoing_seq
    }

    /// The id the next fragmented message gets.
    pub closed spec fn next_fragment_id_view(&self) -> u16 {
        self.next_fragment_id
    }

    /// Smoothed round trip, its variation and the retransmission timeout, in nanoseconds.
    pub closed spec fn rtt_view(&self) -> (nat, nat, nat) {
        (self.smoothed_rtt as nat, self.rtt_var as nat, self.current_rto as nat)
    }

    pub closed spec fn limits_view(&self) -> PayloadLimits {
        self.limits
    }

    pub closed spec fn stream_view(&self) -> u8 {
        self.stream
    }

    pub closed spec fn session_view(&self) -> u64 {
        self.session
    }

    /// The channel's own consistency: bounded queues, no sequence in flight twice,
    /// no sequence remembered twice, and estimates that fit the clock's range.
    pub closed spec fn wf(&self) -> bool {
        &&& self.pending_acknowledgements@.len() <= SEND_WINDOW
        &&& self.unsent@.len() <= MAX_UNSENT
        &&& distinct_seqs(self.pending_acknowledgements@)
        &&& self.received_sequences@.no_duplicates()
        &&& self.smoothed_rtt <= u64::MAX
        &&& self.rtt_var <= u64::MAX
        &&& forall|i: int| 0 <= i < self.unsent@.len() ==> !((#[trigger] self.unsent@[i]).1 is Bundle)
        &&& forall|i: int|
            0 <= i < self.pending_acknowledgements@.len() ==> !((#[trigger] self.pending_acknowledgements@[i]).packet is Bundle)
    }

    /// A channel on the event stream, session 0, with nothing queued or received.
    pub fn new(limits: PayloadLimits) -> (c: Self)
        ensures
            c.wf(),
            c.stream_view() == STREAM_EVENT,
            c.session_view() == 0,
            c.limits_view() == limits,
            c.unsent_view().len() == 0,
            c.pending_view().len() == 0,
            c.received_view() == Set::<u32>::empty(),
            c.highest_received_view() == 0,
            c.outgoing_seq_view() == 0,
            c.next_fragment_id_view() == 0,
            c.rtt_view() == (INITIAL_RTT_NANOS as nat, INITIAL_RTT_VAR_NANOS as nat, INITIAL_RTO_NANOS as nat),
    {
        Self::with_stream(STREAM_EVENT, limits)
    }

    /// A channel like `new` on the given stream.
    pub fn with_stream(stream: u8, limits: PayloadLimits) -> (c: Self)
        ensures
            c.wf(),
            c.stream_view() == stream,
            c.session_view() == 0,
            c.limits_view() == limits,
            c.unsent_view().len() == 0,
            c.pending_view().len() == 0,
            c.received_view() == Set::<u32>::empty(),
            c.highest_received_view() == 0,
            c.outgoing_seq_view() == 0,
            c.next_fragment_id_view() == 0,
            c.rtt_view() == (INITIAL_RTT_NANOS as nat, INITIAL_RTT_VAR_NANOS as nat, INITIAL_RTO_NANOS as nat),
    {
        let c = Self {
            stream,
            session: 0,
            limits,
            outgoing_seq: 0,
            next_fragment_id: 0,
            unsent: VecDeque::new(),
            pending_acknowledgements: Vec::new(),
            received_sequences: Vec::new(),
            highest_received: 0,
            smoothed_rtt: INITIAL_RTT_NANOS,
            rtt_var: INITIAL_RTT_VAR_NANOS,
            current_rto: INITIAL_RTO_NANOS,
            epoch: instant_now(),
        };
        proof {
            assert(c.received_sequences@.to_set() =~= Set::<u32>::empty());
        }
        c
    }

    /// Packets built from now on carry `session`.
    pub fn set_session(&mut self, session: u64)
        requires
            old(self).wf(),
        ensures
            final(self).wf(),
            final(self).session_view() == session,
            final(self).stream_view() == old(self).stream_view(),
            final(self).limits_view() == old(self).limits_view(),
            final(self).unsent_view() == old(self).unsent_view(),
            final(self).pending_view() == old(self).pending_view(),
            final(self).received_view() == old(self).received_view(),
            final(self).highest_received_view() == old(self).highest_received_view(),
            final(self).outgoing_seq_view() == old(self).outgoing_seq_view(),
            final(self).next_fragment_id_view() == old(self).next_fragment_id_view(),
            final(self).rtt_view() == old(self).rtt_view(),
    {
        self.session = session;
    }

    /// How many packets are in flight.
    pub fn pending_count(&self) -> (n: usize)
        ensures
            n == self.pending_view().len(),
    {
        self.pending_acknowledgements.len()
    }

    /// At most `SEND_WINDOW` packets are in flight and at most `MAX_UNSENT`
    /// wait to be sent, whatever was sent, queued or acknowledged before.
    pub proof fn lemma_window_bounds(&self)
        requires
            self.wf(),
        ensures
            self.pending_view().len() <= SEND_WINDOW,
            self.unsent_view().len() <= MAX_UNSENT,
    {
    }

    /// The payload limits the channel fragments by.
    pub fn limits(&self) -> (l: PayloadLimits)
        ensures
            l == self.limits_view(),
    {
        self.limits
    }

    /// How many packets wait to be sent.
    pub fn unsent_count(&self) -> (n: usize)
        ensures
            n == self.unsent_view().len(),
    {
        self.unsent.len()
    }
}


/// One more than `seq_after(a, k)`, with wrapping, is `seq_after(a, k + 1)`.
proof fn lemma_seq_after_step(a: u32, k: nat)
    ensures
        vstd::wrapping::u32_specs::wrapping_add(seq_after(a, k), 1) == seq_after(a, k + 1),
{
    let m: int = 0x1_0000_0000;
    let s = (a as nat + k) % (m as nat);
    assert(((a as int + k) % m + 1) % m == (a as int + k + 1) % m) by {
        vstd::arithmetic::div_mod::lemma_add_mod_noop(a as int + k, 1, m);
        vstd::arithmetic::div_mod::lemma_small_mod(1, m as nat);
        vstd::arithmetic::div_mod::lemma_mod_bound(a as int + k, m);
    }
    assert(0 <= s < m) by {
        vstd::arithmetic::div_mod::lemma_mod_bound(a as int + k, m);
    }
    if s + 1 < m {
        vstd::arithmetic::div_mod::lemma_small_mod((s + 1) as nat, m as nat);
    } else {
        vstd::arithmetic::div_mod::lemma_mod_self_0(m);
    }
}

proof fn lemma_seq_after_zero(a: u32)
    ensures
        seq_after(a, 0) == a,
{
    vstd::arithmetic::div_mod::lemma_small_mod(a as nat, 0x1_0000_0000);
}

/// The parts of two channels that no send or receive changes.
pub open spec fn same_config(a: ReliableChannel, b: ReliableChannel) -> bool {
    &&& a.stream_view() == b.stream_view()
    &&& a.session_view() == b.session_view()
    &&& a.limits_view() == b.limits_view()
}

/// The receiving side of two channels agrees.
pub open spec fn same_receive_state(a: ReliableChannel, b: ReliableChannel) -> bool {
    &&& a.received_view() == b.received_view()
    &&& a.highest_received_view() == b.highest_received_view()
}

/// The sending side of two channels agrees.
pub open spec fn same_send_state(a: ReliableChannel, b: ReliableChannel) -> bool {
    &&& a.unsent_view() == b.unsent_view()
    &&& a.pending_view() == b.pending_view()
    &&& a.outgoing_seq_view() == b.outgoing_seq_view()
    &&& a.next_fragment_id_view() == b.next_fragment_id_view()
    &&& a.rtt_view() == b.rtt_view()
}

/// Two channels agree in everything a caller can observe.
pub open spec fn same_channel(a: ReliableChannel, b: ReliableChannel) -> bool {
    &&& same_config(a, b)
    &&& same_receive_state(a, b)
    &&& same_send_state(a, b)
}

impl ReliableChannel {
    /// Takes the next outgoing sequence.
    fn alloc_seq(&mut self) -> (seq: u32)
        ensures
            seq == old(self).outgoing_seq,
            final(self).outgoing_seq == vstd::wrapping::u32_specs::wrapping_add(old(self).outgoing_seq, 1),
            final(self).unsent@ == old(self).unsent@,
            final(self).pending_acknowledgements@ == old(self).pending_acknowledgements@,
            final(self).received_sequences@ == old(self).received_sequences@,
            final(self).highest_received == old(self).highest_received,
            final(self).next_fragment_id == old(self).next_fragment_id,
            final(self).smoothed_rtt == old(self).smoothed_rtt,
            final(self).rtt_var == old(self).rtt_var,
            final(self).current_rto == old(self).current_rto,
            final(self).stream == old(self).stream,
            final(self).session == old(self).session,
            final(self).limits == old(self).limits,
    {
        let seq = self.outgoing_seq;
        self.outgoing_seq = self.outgoing_seq.wrapping_add(1);
        seq
    }

    /// Queues the packets of one message.
    fn encode(&mut self, payload: &[u8])
        requires
            old(self).wf(),
            spec_encoded_packet_count(payload@.len(), old(self).limits) is Some,
            old(self).unsent@.len() + spec_encoded_packet_count(payload@.len(), old(self).limits)->0 <= MAX_UNSENT,
        ensures
            final(self).wf(),
            same_config(*final(self), *old(self)),
            same_receive_state(*final(self), *old(self)),
            final(self).pending_view() == old(self).pending_view(),
            final(self).rtt_view() == old(self).rtt_view(),
            final(self).unsent@.len() == old(self).unsent@.len() + spec_encoded_packet_count(payload@.len(), old(self).limits)->0,
            final(self).unsent@.subrange(0, old(self).unsent@.len() as int) == old(self).unsent@,
            message_packets(
                final(self).unsent@.subrange(old(self).unsent@.len() as int, final(self).unsent@.len() as int),
                payload@,
                old(self).limits,
                old(self).session,
                old(self).stream,
                old(self).outgoing_seq,
                old(self).next_fragment_id,
            ),
            final(self).outgoing_seq == seq_after(
                old(self).outgoing_seq,
                spec_encoded_packet_count(payload@.len(), old(self).limits)->0,
            ),
            final(self).next_fragment_id == if payload@.len() <= old(self).limits.reliable {
                old(self).next_fragment_id
            } else {
                vstd::wrapping::u16_specs::wrapping_add(old(self).next_fragment_id, 1)
            },
    {
        let ghost start = self.unsent@;
        let ghost first = self.outgoing_seq;
        if payload.len() <= self.limits.reliable {
            let seq = self.alloc_seq();
            let packet = PacketType::Reliable {
                session: self.session,
                stream: self.stream,
                sequence: seq,
                payload: Arc::new(vstd::slice::slice_to_vec(payload)),
            };
            self.unsent.push_back((seq, packet));
            proof {
                lemma_seq_after_step(first, 0);
                lemma_seq_after_zero(first);
                assert(self.unsent@.subrange(0, start.len() as int) =~= start);
                assert forall|i: int| 0 <= i < self.unsent@.len() implies !((#[trigger] self.unsent@[i]).1 is Bundle) by {
                    if i < start.len() {
                        assert(self.unsent@[i] == start[i]);
                    }
                }
            }
            return;
        }
        let chunk_len = self.limits.fragment;
        let chunks = split_chunks(payload, chunk_len);
        let total_fragments = chunks.len() as u16;
        let packet_id = self.next_fragment_id;
        self.next_fragment_id = self.next_fragment_id.wrapping_add(1);
        let mut fragment_idx: usize = 0;
        proof {
            lemma_seq_after_zero(first);
        }
        while fragment_idx < chunks.len()
            invariant
                old(self).wf(),
                forall|i: int| 0 <= i < self.unsent@.len() ==> !((#[trigger] self.unsent@[i]).1 is Bundle),
                chunks@.len() == fragment_count(payload@.len(), chunk_len as nat),
                chunks@.len() <= MAX_FRAGMENTS,
                total_fragments == chunks@.len(),
                chunk_len == old(self).limits.fragment,
                chunk_len > 0,
                payload@.len() > old(self).limits.reliable,
                forall|i: int| 0 <= i < chunks@.len() ==> #[trigger] chunks@[i]@ == fragment_bytes(payload@, chunk_len as nat, i as nat),
                fragment_idx <= chunks@.len(),
                self.unsent@.len() == start.len() + fragment_idx,
                self.unsent@.subrange(0, start.len() as int) == start,
                forall|i: int|
                    0 <= i < fragment_idx ==> (#[trigger] self.unsent@[start.len() + i]).0 == seq_after(first, i as nat)
                        && is_fragment_packet(
                        self.unsent@[start.len() + i].1,
                        old(self).session,
                        old(self).stream,
                        seq_after(first, i as nat),
                        packet_id,
                        i,
                        chunks@.len() as int,
                        fragment_bytes(payload@, chunk_len as nat, i as nat),
                    ),
                self.outgoing_seq == seq_after(first, fragment_idx as nat),
                start == old(self).unsent@,
                first == old(self).outgoing_seq,
                packet_id == old(self).next_fragment_id,
                self.next_fragment_id == vstd::wrapping::u16_specs::wrapping_add(old(self).next_fragment_id, 1),
                self.pending_acknowledgements@ == old(self).pending_acknowledgements@,
                self.received_sequences@ == old(self).received_sequences@,
                self.highest_received == old(self).highest_received,
                self.smoothed_rtt == old(self).smoothed_rtt,
                self.rtt_var == old(self).rtt_var,
                self.current_rto == old(self).current_rto,
                self.stream == old(self).stream,
                self.session == old(self).session,
                self.limits == old(self).limits,
            decreases chunks@.len() - fragment_idx,
        {
            let seq = self.alloc_seq();
            let data = vstd::slice::slice_to_vec(chunks[fragment_idx].as_slice());
            let packet = PacketType::Fragment {
                session: self.session,
                stream: self.stream,
                sequence: seq,
                packet_id,
                fragment_idx: fragment_idx as u16,
                total_fragments,
                data: Arc::new(data),
            };
            let ghost before = self.unsent@;
            self.unsent.push_back((seq, packet));
            proof {
                lemma_seq_after_step(first, fragment_idx as nat);
                assert(self.unsent@.subrange(0, start.len() as int) =~= start);
                assert forall|i: int| 0 <= i < self.unsent@.len() implies !((#[trigger] self.unsent@[i]).1 is Bundle) by {
                    if i < before.len() {
                        assert(self.unsent@[i] == before[i]);
                    }
                }
            }
            fragment_idx = fragment_idx + 1;
        }
        proof {
            let items = self.unsent@.subrange(start.len() as int, self.unsent@.len() as int);
            assert forall|i: int| 0 <= i < items.len() implies (#[trigger] items[i]) == self.unsent@[start.len() + i] by {}
        }
    }

    /// Offers one message. It is refused as `TooLarge` when it needs more than
    /// `MAX_FRAGMENTS` fragments, as `Full` when its packets would push the queue
    /// past `MAX_UNSENT`; otherwise its packets are queued behind the others.
    pub fn enqueue(&mut self, payload: &[u8]) -> (status: EnqueueStatus)
        requires
            old(self).wf(),
        ensures
            final(self).wf(),
            same_config(*final(self), *old(self)),
            same_receive_state(*final(self), *old(self)),
            final(self).pending_view() == old(self).pending_view(),
            final(self).rtt_view() == old(self).rtt_view(),
            spec_encoded_packet_count(payload@.len(), old(self).limits_view()) is None ==> status == EnqueueStatus::TooLarge
                && same_send_state(*final(self), *old(self)),
            spec_encoded_packet_count(payload@.len(), old(self).limits_view()) matches Some(n)
                && old(self).unsent_view().len() + n > MAX_UNSENT ==> status == EnqueueStatus::Full
                && same_send_state(*final(self), *old(self)),
            spec_encoded_packet_count(payload@.len(), old(self).limits_view()) is Some
                && old(self).unsent_view().len() + spec_encoded_packet_count(payload@.len(), old(self).limits_view())->0 <= MAX_UNSENT ==> {
                &&& status == EnqueueStatus::Queued
                &&& final(self).unsent_view().len() == old(self).unsent_view().len() + spec_encoded_packet_count(payload@.len(), old(self).limits_view())->0
                &&& final(self).unsent_view().subrange(0, old(self).unsent_view().len() as int) == old(self).unsent_view()
                &&& message_packets(
                    final(self).unsent_view().subrange(old(self).unsent_view().len() as int, final(self).unsent_view().len() as int),
                    payload@,
                    old(self).limits_view(),
                    old(self).session_view(),
                    old(self).stream_view(),
                    old(self).outgoing_seq_view(),
                    old(self).next_fragment_id_view(),
                )
                &&& final(self).outgoing_seq_view() == seq_after(old(self).outgoing_seq_view(), spec_encoded_packet_count(payload@.len(), old(self).limits_view())->0)
                &&& final(self).next_fragment_id_view() == if payload@.len() <= old(self).limits_view().reliable {
                    old(self).next_fragment_id_view()
                } else {
                    vstd::wrapping::u16_specs::wrapping_add(old(self).next_fragment_id_view(), 1)
                }
            },
    {
        let count = match encoded_packet_count(payload.len(), &self.limits) {
            Some(count) => count,
            None => {
                return EnqueueStatus::TooLarge;
            },
        };
        if self.unsent.len() + count > MAX_UNSENT {
            return EnqueueStatus::Full;
        }
        self.encode(payload);
        EnqueueStatus::Queued
    }
}

/// The state a pump reaches after moving queued packets into the send window:
/// the packets in flight, and how many queued packets were released. Packets
/// move one at a time while fewer than `SEND_WINDOW` are in flight.
pub open spec fn release(pending: Seq<PendingPacket>, unsent: Seq<(u32, PacketType)>, now: u64) -> (Seq<PendingPacket>, nat)
    decreases unsent.len(),
{
    if pending.len() >= SEND_WINDOW || unsent.len() == 0 {
        (pending, 0)
    } else {
        let next = PendingPacket { seq: unsent[0].0, packet: unsent[0].1, sent_at: now, last_sent: now };
        let (p, k) = release(insert_pending(pending, next), unsent.drop_first(), now);
        (p, k + 1)
    }
}

/// The packets of the queued items, in order.
pub open spec fn queued_packets(items: Seq<(u32, PacketType)>) -> Seq<PacketType> {
    items.map_values(|item: (u32, PacketType)| item.1)
}

/// The sequence after an acknowledgement of `seq` removed the packet in flight
/// under it, with the round-trip sample it gives.
pub open spec fn ack_index(pending: Seq<PendingPacket>, seq: u32) -> int {
    choose|i: int| 0 <= i < pending.len() && #[trigger] pending[i].seq == seq
}

pub open spec fn awaits_ack(pending: Seq<PendingPacket>, seq: u32) -> bool {
    exists|i: int| 0 <= i < pending.len() && #[trigger] pending[i].seq == seq
}

/// The oldest sequence still remembered once `highest` has been received.
pub open spec fn recv_cutoff(highest: u32) -> u32 {
    if highest >= RECV_WINDOW {
        (highest - RECV_WINDOW) as u32
    } else {
        0
    }
}

/// The send queues of `after` and the packets `sent` are what a pump of
/// `before` at time `now` gives.
pub open spec fn pumped(before: ReliableChannel, after: ReliableChannel, sent: Seq<PacketType>, now: u64) -> bool {
    let (mid, k) = release(before.pending_view(), before.unsent_view(), now);
    let rto = before.rtt_view().2;
    &&& after.unsent_view() == before.unsent_view().skip(k as int)
    &&& after.pending_view() == mid.map_values(|p: PendingPacket| refreshed(p, now, rto))
    &&& sent == queued_packets(before.unsent_view().take(k as int)) + expired_packets(mid, now, rto)
}

impl ReliableChannel {
    /// Puts `p` in flight, replacing a packet already in flight under its sequence.
    fn insert_pending(&mut self, p: PendingPacket)
        requires
            distinct_seqs(old(self).pending_acknowledgements@),
            old(self).pending_acknowledgements@.len() < SEND_WINDOW,
        ensures
            final(self).pending_acknowledgements@ == insert_pending(old(self).pending_acknowledgements@, p),
            distinct_seqs(final(self).pending_acknowledgements@),
            final(self).pending_acknowledgements@.len() <= SEND_WINDOW,
            final(self).unsent@ == old(self).unsent@,
            final(self).received_sequences@ == old(self).received_sequences@,
            final(self).highest_received == old(self).highest_received,
            final(self).outgoing_seq == old(self).outgoing_seq,
            final(self).next_fragment_id == old(self).next_fragment_id,
            final(self).smoothed_rtt == old(self).smoothed_rtt,
            final(self).rtt_var == old(self).rtt_var,
            final(self).current_rto == old(self).current_rto,
            final(self).stream == old(self).stream,
            final(self).session == old(self).session,
            final(self).limits == old(self).limits,
    {
        let ghost before = self.pending_acknowledgements@;
        let mut j: usize = 0;
        while j < self.pending_acknowledgements.len() && self.pending_acknowledgements[j].seq != p.seq
            invariant
                j <= self.pending_acknowledgements@.len(),
                self.pending_acknowledgements@ == before,
                forall|k: int| 0 <= k < j ==> (#[trigger] before[k]).seq != p.seq,
            decreases before.len() - j,
        {
            j = j + 1;
        }
        if j < self.pending_acknowledgements.len() {
            proof {
                assert(before[j as int].seq == p.seq);
                assert(awaits_ack(before, p.seq));
                let c = choose|i: int| 0 <= i < before.len() && #[trigger] before[i].seq == p.seq;
                assert(c == j as int);
            }
            self.pending_acknowledgements.set(j, p);
        } else {
            proof {
                assert(!awaits_ack(before, p.seq));
            }
            self.pending_acknowledgements.push(p);
        }
    }

    /// Sends what is due at time `now` (nanoseconds since the channel was made):
    /// queued packets move into flight, oldest first, while fewer than
    /// `SEND_WINDOW` are in flight, and every packet in flight that was last sent
    /// longer than the retransmission timeout ago is sent again. Returns the
    /// packets to put on the wire, in order.
    pub fn pump_at(&mut self, now: u64) -> (sent: Vec<PacketType>)
        requires
            old(self).wf(),
        ensures
            final(self).wf(),
            same_config(*final(self), *old(self)),
            same_receive_state(*final(self), *old(self)),
            final(self).outgoing_seq_view() == old(self).outgoing_seq_view(),
            final(self).next_fragment_id_view() == old(self).next_fragment_id_view(),
            final(self).rtt_view() == old(self).rtt_view(),
            pumped(*old(self), *final(self), sent@, now),
    {
        let ghost old_unsent = self.unsent@;
        let ghost old_pending = self.pending_acknowledgements@;
        let ghost target = release(old_pending, old_unsent, now);
        let mut sent: Vec<PacketType> = Vec::new();
        let mut released: usize = 0;
        while self.pending_acknowledgements.len() < SEND_WINDOW
            invariant_except_break
                self.wf(),
                old_unsent.len() <= MAX_UNSENT,
                released <= old_unsent.len(),
                self.unsent@ == old_unsent.skip(released as int),
                sent@ == queued_packets(old_unsent.take(released as int)),
                release(self.pending_acknowledgements@, self.unsent@, now).0 == target.0,
                released + release(self.pending_acknowledgements@, self.unsent@, now).1 == target.1,
                self.received_sequences@ == old(self).received_sequences@,
                self.highest_received == old(self).highest_received,
                self.outgoing_seq == old(self).outgoing_seq,
                self.next_fragment_id == old(self).next_fragment_id,
                self.smoothed_rtt == old(self).smoothed_rtt,
                self.rtt_var == old(self).rtt_var,
                self.current_rto == old(self).current_rto,
                self.stream == old(self).stream,
                self.session == old(self).session,
                self.limits == old(self).limits,
            ensures
                self.wf(),
                self.unsent@ == old_unsent.skip(target.1 as int),
                sent@ == queued_packets(old_unsent.take(target.1 as int)),
                self.pending_acknowledgements@ == target.0,
                self.received_sequences@ == old(self).received_sequences@,
                self.highest_received == old(self).highest_received,
                self.outgoing_seq == old(self).outgoing_seq,
                self.next_fragment_id == old(self).next_fragment_id,
                self.smoothed_rtt == old(self).smoothed_rtt,
                self.rtt_var == old(self).rtt_var,
                self.current_rto == old(self).current_rto,
                self.stream == old(self).stream,
                self.session == old(self).session,
                self.limits == old(self).limits,
            decreases self.unsent@.len(),
        {
            let next = self.unsent.pop_front();
            match next {
                None => {
                    break;
                },
                Some(item) => {
                    let ghost rest = self.unsent@;
                    let (seq, packet) = item;
                    let copy = packet.clone();
                    sent.push(copy);
                    let ghost before = self.pending_acknowledgements@;
                    let ghost unsent_before = old_unsent.skip(released as int);
                    proof {
                        assert(unsent_before[0] == item);
                        assert(unsent_before.drop_first() =~= rest);
                        assert(rest =~= old_unsent.skip(released + 1));
                        assert(old_unsent.take(released + 1) =~= old_unsent.take(released as int).push(item));
                        assert(queued_packets(old_unsent.take(released + 1)) =~= queued_packets(
                            old_unsent.take(released as int),
                        ).push(packet));
                    }
                    self.insert_pending(PendingPacket { seq, packet, sent_at: now, last_sent: now });
                    released = released + 1;
                    proof {
                        assert forall|i: int|
                            0 <= i < self.pending_acknowledgements@.len() implies !((
                            #[trigger] self.pending_acknowledgements@[i]).packet is Bundle) by {
                            if awaits_ack(before, seq) {
                                let c = choose|i: int| 0 <= i < before.len() && #[trigger] before[i].seq == seq;
                                if i != c {
                                    assert(self.pending_acknowledgements@[i] == before[i]);
                                }
                            } else {
                                if i < before.len() {
                                    assert(self.pending_acknowledgements@[i] == before[i]);
                                }
                            }
                        }
                        assert forall|i: int| 0 <= i < self.unsent@.len() implies !((
                            #[trigger] self.unsent@[i]).1 is Bundle) by {
                            assert(self.unsent@[i] == unsent_before[i + 1]);
                        }
                    }
                },
            }
        }
        let rto = self.current_rto;
        let ghost mid = self.pending_acknowledgements@;
        let ghost sent_released = sent@;
        let ghost unsent_mid = self.unsent@;
        let mut in_flight: Vec<PendingPacket> = Vec::new();
        std::mem::swap(&mut in_flight, &mut self.pending_acknowledgements);
        let mut i: usize = 0;
        while i < in_flight.len()
            invariant
                in_flight@ == mid,
                mid.len() <= SEND_WINDOW,
                distinct_seqs(mid),
                forall|j: int| 0 <= j < mid.len() ==> !((#[trigger] mid[j]).packet is Bundle),
                rto == old(self).current_rto,
                i <= mid.len(),
                self.pending_acknowledgements@ == mid.take(i as int).map_values(|p: PendingPacket| refreshed(p, now, rto as nat)),
                sent@ == sent_released + expired_packets(mid.take(i as int), now, rto as nat),
                self.unsent@ == unsent_mid,
                unsent_mid.len() <= MAX_UNSENT,
                forall|j: int| 0 <= j < unsent_mid.len() ==> !((#[trigger] unsent_mid[j]).1 is Bundle),
                self.received_sequences@ == old(self).received_sequences@,
                self.received_sequences@.no_duplicates(),
                self.highest_received == old(self).highest_received,
                self.outgoing_seq == old(self).outgoing_seq,
                self.next_fragment_id == old(self).next_fragment_id,
                self.smoothed_rtt == old(self).smoothed_rtt,
                self.rtt_var == old(self).rtt_var,
                self.smoothed_rtt <= u64::MAX,
                self.rtt_var <= u64::MAX,
                self.current_rto == old(self).current_rto,
                self.stream == old(self).stream,
                self.session == old(self).session,
                self.limits == old(self).limits,
            decreases mid.len() - i,
        {
            let p = &in_flight[i];
            let waited: u64 = if now >= p.last_sent {
                now - p.last_sent
            } else {
                0
            };
            let due = (waited as u128) > rto;
            let last_sent = if due {
                now
            } else {
                p.last_sent
            };
            if due {
                sent.push(p.packet.clone());
            }
            let copy = PendingPacket { seq: p.seq, packet: p.packet.clone(), sent_at: p.sent_at, last_sent };
            proof {
                assert(copy == refreshed(mid[i as int], now, rto as nat));
                assert(mid.take(i + 1).drop_last() =~= mid.take(i as int));
            }
            self.pending_acknowledgements.push(copy);
            i = i + 1;
            proof {
                assert(self.pending_acknowledgements@ =~= mid.take(i as int).map_values(
                    |p: PendingPacket| refreshed(p, now, rto as nat),
                ));
            }
        }
        proof {
            assert(mid.take(mid.len() as int) =~= mid);
            let refreshed_all = mid.map_values(|p: PendingPacket| refreshed(p, now, rto as nat));
            assert(self.pending_acknowledgements@ =~= refreshed_all);
            assert forall|a: int, b: int|
                0 <= a < refreshed_all.len() && 0 <= b < refreshed_all.len() && a != b implies #[trigger] refreshed_all[a].seq
                != #[trigger] refreshed_all[b].seq by {
                assert(refreshed_all[a].seq == mid[a].seq);
                assert(refreshed_all[b].seq == mid[b].seq);
            }
            assert forall|j: int| 0 <= j < refreshed_all.len() implies !((
                #[trigger] refreshed_all[j]).packet is Bundle) by {
                assert(refreshed_all[j].packet == mid[j].packet);
            }
        }
        sent
    }

    /// `pump_at` at the current reading of the channel's clock.
    pub fn pump(&mut self) -> (sent: Vec<PacketType>)
        requires
            old(self).wf(),
        ensures
            final(self).wf(),
            same_config(*final(self), *old(self)),
            same_receive_state(*final(self), *old(self)),
            final(self).outgoing_seq_view() == old(self).outgoing_seq_view(),
            final(self).next_fragment_id_view() == old(self).next_fragment_id_view(),
            final(self).rtt_view() == old(self).rtt_view(),
            exists|now: u64| #[trigger] pumped(*old(self), *final(self), sent@, now),
    {
        let now = nanos_since(&self.epoch);
        self.pump_at(now)
    }
}

/// After an acknowledgement of `seq` at time `now`: the packet in flight under
/// `seq`, if any, is no longer in flight and its round trip updates the estimates;
/// without such a packet nothing changes.
pub open spec fn acked(before: ReliableChannel, after: ReliableChannel, seq: u32, now: u64) -> bool {
    if awaits_ack(before.pending_view(), seq) {
        let i = ack_index(before.pending_view(), seq);
        let (s, v, _) = before.rtt_view();
        &&& after.pending_view() == before.pending_view().remove(i)
        &&& after.rtt_view() == rtt_update(s, v, elapsed(now, before.pending_view()[i].sent_at))
    } else {
        &&& after.pending_view() == before.pending_view()
        &&& after.rtt_view() == before.rtt_view()
    }
}

impl ReliableChannel {
    /// Handles the acknowledgement of `seq` received at time `now`
    /// (nanoseconds since the channel was made).
    pub fn handle_ack_at(&mut self, seq: u32, now: u64)
        requires
            old(self).wf(),
        ensures
            final(self).wf(),
            same_config(*final(self), *old(self)),
            same_receive_state(*final(self), *old(self)),
            final(self).unsent_view() == old(self).unsent_view(),
            final(self).outgoing_seq_view() == old(self).outgoing_seq_view(),
            final(self).next_fragment_id_view() == old(self).next_fragment_id_view(),
            acked(*old(self), *final(self), seq, now),
    {
        let ghost before = self.pending_acknowledgements@;
        let mut j: usize = 0;
        while j < self.pending_acknowledgements.len() && self.pending_acknowledgements[j].seq != seq
            invariant
                j <= self.pending_acknowledgements@.len(),
                self.pending_acknowledgements@ == before,
                forall|k: int| 0 <= k < j ==> (#[trigger] before[k]).seq != seq,
            decreases before.len() - j,
        {
            j = j + 1;
        }
        if j == self.pending_acknowledgements.len() {
            proof {
                assert(!awaits_ack(before, seq));
            }
            return;
        }
        proof {
            assert(before[j as int].seq == seq);
            assert(awaits_ack(before, seq));
            let c = ack_index(before, seq);
            assert(c == j as int);
        }
        let pending = self.pending_acknowledgements.remove(j);
        let rtt: u128 = if now >= pending.sent_at {
            (now - pending.sent_at) as u128
        } else {
            0
        };
        if self.smoothed_rtt == 0 {
            self.smoothed_rtt = rtt;
            self.rtt_var = rtt / 2;
        } else {
            let diff = if rtt > self.smoothed_rtt {
                rtt - self.smoothed_rtt
            } else {
                self.smoothed_rtt - rtt
            };
            self.rtt_var = (self.rtt_var * 3 + diff) / 4;
            self.smoothed_rtt = (self.smoothed_rtt * 7 + rtt) / 8;
        }
        self.current_rto = self.smoothed_rtt + self.rtt_var * 4;
        if self.current_rto < MIN_RTO_NANOS {
            self.current_rto = MIN_RTO_NANOS;
        }
        proof {
            let after = self.pending_acknowledgements@;
            assert(after =~= before.remove(j as int));
            assert forall|a: int, b: int|
                0 <= a < after.len() && 0 <= b < after.len() && a != b implies #[trigger] after[a].seq
                != #[trigger] after[b].seq by {
                let a0 = if a < j { a } else { a + 1 };
                let b0 = if b < j { b } else { b + 1 };
                assert(after[a] == before[a0]);
                assert(after[b] == before[b0]);
            }
            assert forall|k: int| 0 <= k < after.len() implies !((#[trigger] after[k]).packet is Bundle) by {
                let k0 = if k < j { k } else { k + 1 };
                assert(after[k] == before[k0]);
            }
        }
    }

    /// `handle_ack_at` at the current reading of the channel's clock.
    pub fn handle_ack(&mut self, seq: u32)
        requires
            old(self).wf(),
        ensures
            final(self).wf(),
            same_config(*final(self), *old(self)),
            same_receive_state(*final(self), *old(self)),
            final(self).unsent_view() == old(self).unsent_view(),
            final(self).outgoing_seq_view() == old(self).outgoing_seq_view(),
            final(self).next_fragment_id_view() == old(self).next_fragment_id_view(),
            exists|now: u64| #[trigger] acked(*old(self), *final(self), seq, now),
    {
        let now = nanos_since(&self.epoch);
        self.handle_ack_at(seq, now);
    }

    /// Records that packet `seq` arrived and tells whether it had arrived before.
    /// A new sequence is remembered, raises the highest one seen when above it,
    /// and every sequence more than `RECV_WINDOW` below the highest is forgotten.
    pub fn is_duplicate_and_track(&mut self, seq: u32) -> (duplicate: bool)
        requires
            old(self).wf(),
        ensures
            final(self).wf(),
            same_config(*final(self), *old(self)),
            same_send_state(*final(self), *old(self)),
            duplicate == old(self).received_view().contains(seq),
            duplicate ==> same_receive_state(*final(self), *old(self)),
            !duplicate ==> {
                let highest = if seq > old(self).highest_received_view() {
                    seq
                } else {
                    old(self).highest_received_view()
                };
                &&& final(self).highest_received_view() == highest
                &&& final(self).received_view() == old(self).received_view().insert(seq).filter(
                    |s: u32| s >= recv_cutoff(highest),
                )
            },
    {
        let ghost before = self.received_sequences@;
        let mut j: usize = 0;
        while j < self.received_sequences.len() && self.received_sequences[j] != seq
            invariant
                j <= self.received_sequences@.len(),
                self.received_sequences@ == before,
                forall|k: int| 0 <= k < j ==> before[k] != seq,
            decreases before.len() - j,
        {
            j = j + 1;
        }
        if j < self.received_sequences.len() {
            proof {
                assert(before.contains(seq));
            }
            return true;
        }
        proof {
            assert(!before.contains(seq));
        }
        self.received_sequences.push(seq);
        if seq > self.highest_received {
            self.highest_received = seq;
        }
        let cutoff = self.highest_received.saturating_sub(RECV_WINDOW);
        let ghost all = self.received_sequences@;
        proof {
            assert(all.no_duplicates()) by {
                assert forall|a: int, b: int| 0 <= a < all.len() && 0 <= b < all.len() && a != b implies all[a] != all[b] by {
                    if a < before.len() && b < before.len() {
                    } else if a < before.len() {
                        assert(all[a] == before[a]);
                    } else if b < before.len() {
                        assert(all[b] == before[b]);
                    }
                }
            }
        }
        let mut kept: Vec<u32> = Vec::new();
        let mut i: usize = 0;
        while i < self.received_sequences.len()
            invariant
                self.received_sequences@ == all,
                all.no_duplicates(),
                i <= all.len(),
                kept@.no_duplicates(),
                forall|x: u32| kept@.contains(x) <==> (exists|k: int| 0 <= k < i && all[k] == x && x >= cutoff),
            decreases all.len() - i,
        {
            let s = self.received_sequences[i];
            if s >= cutoff {
                proof {
                    assert(!kept@.contains(s)) by {
                        if kept@.contains(s) {
                            let k = choose|k: int| 0 <= k < i && all[k] == s && s >= cutoff;
                            assert(all[k] == all[i as int]);
                        }
                    }
                }
                let ghost prev = kept@;
                kept.push(s);
                proof {
                    assert forall|a: int, b: int| 0 <= a < kept@.len() && 0 <= b < kept@.len() && a != b implies kept@[a] != kept@[b] by {
                        if a < prev.len() && b < prev.len() {
                            assert(kept@[a] == prev[a] && kept@[b] == prev[b]);
                        } else if a < prev.len() {
                            assert(kept@[a] == prev[a]);
                            assert(prev.contains(prev[a]));
                        } else if b < prev.len() {
                            assert(kept@[b] == prev[b]);
                            assert(prev.contains(prev[b]));
                        }
                    }
                    assert forall|x: u32| kept@.contains(x) <==> (exists|k: int| 0 <= k < i + 1 && all[k] == x && x >= cutoff) by {
                        if kept@.contains(x) {
                            let a = choose|a: int| 0 <= a < kept@.len() && kept@[a] == x;
                            if a < prev.len() {
                                assert(prev.contains(x));
                            } else {
                                assert(all[i as int] == x);
                            }
                        }
                        if exists|k: int| 0 <= k < i + 1 && all[k] == x && x >= cutoff {
                            let k = choose|k: int| 0 <= k < i + 1 && all[k] == x && x >= cutoff;
                            if k < i {
                                assert(prev.contains(x));
                                let a = choose|a: int| 0 <= a < prev.len() && prev[a] == x;
                                assert(kept@[a] == x);
                            } else {
                                assert(kept@[prev.len() as int] == x);
                            }
                        }
                    }
                }
            }
            i = i + 1;
        }
        self.received_sequences = kept;
        proof {
            let highest = self.highest_received;
            assert(cutoff == recv_cutoff(highest));
            assert(self.received_sequences@.to_set() =~= before.to_set().insert(seq).filter(|s: u32| s >= recv_cutoff(highest))) by {
                assert forall|x: u32| #[trigger] self.received_sequences@.contains(x) <==> (all.contains(x) && x >= cutoff) by {
                    if all.contains(x) && x >= cutoff {
                        let k = choose|k: int| 0 <= k < all.len() && all[k] == x;
                        assert(exists|k: int| 0 <= k < all.len() && all[k] == x && x >= cutoff);
                    }
                }
                assert forall|x: u32| #[trigger] all.contains(x) <==> (before.contains(x) || x == seq) by {
                    if all.contains(x) {
                        let k = choose|k: int| 0 <= k < all.len() && all[k] == x;
                        if k < before.len() {
                            assert(before[k] == x);
                        }
                    }
                    if before.contains(x) {
                        let k = choose|k: int| 0 <= k < before.len() && before[k] == x;
                        assert(all[k] == x);
                    }
                    if x == seq {
                        assert(all[before.len() as int] == seq);
                    }
                }
            }
        }
        false
    }
}

proof fn lemma_release_stops(pending: Seq<PendingPacket>, unsent: Seq<(u32, PacketType)>, now: u64)
    ensures
        release(pending, unsent, now).1 <= unsent.len(),
        release(pending, unsent, now).0.len() >= SEND_WINDOW || release(pending, unsent, now).1 == unsent.len(),
    decreases unsent.len(),
{
    if pending.len() >= SEND_WINDOW || unsent.len() == 0 {
    } else {
        let next = PendingPacket { seq: unsent[0].0, packet: unsent[0].1, sent_at: now, last_sent: now };
        lemma_release_stops(insert_pending(pending, next), unsent.drop_first(), now);
    }
}

proof fn lemma_nothing_expired(pending: Seq<PendingPacket>, now: u64, rto: nat)
    requires
        forall|i: int| 0 <= i < pending.len() ==> !expired(#[trigger] pending[i], now, rto),
    ensures
        expired_packets(pending, now, rto).len() == 0,
    decreases pending.len(),
{
    if pending.len() > 0 {
        assert(!expired(pending[pending.len() - 1], now, rto));
        lemma_nothing_expired(pending.drop_last(), now, rto);
    }
}

/// `after` is `before` having recorded the arrival of packet `seq`, which it
/// had seen before exactly when `duplicate` (see `is_duplicate_and_track`).
pub open spec fn tracked_receipt(before: ReliableChannel, after: ReliableChannel, seq: u32, duplicate: bool) -> bool {
    &&& after.wf()
    &&& same_config(after, before)
    &&& same_send_state(after, before)
    &&& duplicate == before.received_view().contains(seq)
    &&& duplicate ==> same_receive_state(after, before)
    &&& !duplicate ==> {
        let highest = if seq > before.highest_received_view() {
            seq
        } else {
            before.highest_received_view()
        };
        &&& after.highest_received_view() == highest
        &&& after.received_view() == before.received_view().insert(seq).filter(|s: u32| s >= recv_cutoff(highest))
    }
}

/// The acknowledgement of packet `sequence` of `stream` in `session`: the
/// sequence field of that stream carries it with its flag set; the other
/// stream's flag is clear.
pub fn ack_packet(session: u64, stream: u8, sequence: u32) -> (p: PacketType)
    ensures
        p == if stream == STREAM_STATE {
            PacketType::Ack { session, cumulative: 0, selective: 0, state_cumulative: sequence, state_selective: 1 }
        } else {
            PacketType::Ack { session, cumulative: sequence, selective: 1, state_cumulative: 0, state_selective: 0 }
        },
{
    if stream == STREAM_STATE {
        PacketType::Ack { session, cumulative: 0, selective: 0, state_cumulative: sequence, state_selective: 1 }
    } else {
        PacketType::Ack { session, cumulative: sequence, selective: 1, state_cumulative: 0, state_selective: 0 }
    }
}

/// `after` is `before` having taken an acknowledgement of `seq`, at some time.
pub open spec fn took_ack(before: ReliableChannel, after: ReliableChannel, seq: u32) -> bool {
    &&& after.wf()
    &&& same_config(after, before)
    &&& same_receive_state(after, before)
    &&& after.unsent_view() == before.unsent_view()
    &&& after.outgoing_seq_view() == before.outgoing_seq_view()
    &&& after.next_fragment_id_view() == before.next_fragment_id_view()
    &&& exists|now: u64| #[trigger] acked(before, after, seq, now)
}

/// Applies the acknowledgement fields of an `Ack` or a bundle: the events
/// channel takes `cumulative` when `selective` is set, and the state channel
/// takes `state_cumulative` when `state_selective` is set.
pub fn apply_acks(
    events: &mut ReliableChannel,
    state: &mut ReliableChannel,
    cumulative: u32,
    selective: u32,
    state_cumulative: u32,
    state_selective: u32,
)
    requires
        old(events).wf(),
        old(state).wf(),
    ensures
        final(events).wf(),
        final(state).wf(),
        selective != 0 ==> took_ack(*old(events), *final(events), cumulative),
        selective == 0 ==> *final(events) == *old(events),
        state_selective != 0 ==> took_ack(*old(state), *final(state), state_cumulative),
        state_selective == 0 ==> *final(state) == *old(state),
{
    if selective != 0 {
        events.handle_ack(cumulative);
    }
    if state_selective != 0 {
        state.handle_ack(state_cumulative);
    }
}

/// Pumping twice at the same instant sends nothing the second time: the first
/// pump fills the send window or empties the queue, and leaves every packet in
/// flight either just sent or not yet due.
pub proof fn lemma_pump_twice(c1: ReliableChannel, c2: ReliableChannel, c3: ReliableChannel, s1: Seq<PacketType>, s2: Seq<PacketType>, now: u64)
    requires
        pumped(c1, c2, s1, now),
        c2.rtt_view() == c1.rtt_view(),
        pumped(c2, c3, s2, now),
    ensures
        s2.len() == 0,
        c3.unsent_view() == c2.unsent_view(),
        c3.pending_view() == c2.pending_view(),
{
    let (mid, k) = release(c1.pending_view(), c1.unsent_view(), now);
    let rto = c1.rtt_view().2;
    lemma_release_stops(c1.pending_view(), c1.unsent_view(), now);
    let p2 = c2.pending_view();
    assert(p2.len() == mid.len());
    assert(c2.unsent_view().len() == c1.unsent_view().len() - k);
    assert(release(p2, c2.unsent_view(), now) == (p2, 0nat));
    assert forall|i: int| 0 <= i < p2.len() implies !expired(#[trigger] p2[i], now, rto) by {
        assert(p2[i] == refreshed(mid[i], now, rto));
    }
    lemma_nothing_expired(p2, now, rto);
    assert(c2.unsent_view().take(0) =~= Seq::<(u32, PacketType)>::empty());
    assert(queued_packets(c2.unsent_view().take(0)) =~= Seq::<PacketType>::empty());
    assert(c3.unsent_view() =~= c2.unsent_view().skip(0));
    assert forall|i: int| 0 <= i < p2.len() implies #[trigger] refreshed(p2[i], now, rto) == p2[i] by {}
    assert(c3.pending_view() =~= p2);
}

/// A sequence just tracked as new is remembered as received, unless it was
/// already more than `RECV_WINDOW` below the highest sequence seen.
pub proof fn lemma_tracked_is_remembered(before: Set<u32>, highest: u32, seq: u32)
    requires
        seq as int + RECV_WINDOW >= highest,
    ensures
        ({
            let h = if seq > highest { seq } else { highest };
            before.insert(seq).filter(|s: u32| s >= recv_cutoff(h)).contains(seq)
        }),
{
}
} // verus!
