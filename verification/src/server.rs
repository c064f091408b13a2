use std::collections::VecDeque;
use std::time::{Duration, Instant, SystemTime, UNIX_EPOCH};
use vstd::prelude::*;
use crate::packet::{stamp, encoded_packet_count, spec_encoded_packet_count, spec_stamp, PacketType, PayloadLimits};
use crate::reliable::{EnqueueStatus, ReliableChannel, MAX_UNSENT, same_config, same_receive_state, same_channel, message_packets, seq_after};

verus! {

broadcast use vstd::std_specs::vecdeque::group_vec_dequeue_axioms;

/// The most reliable messages that may wait for one client on one stream.
pub const OUTBOUND_CAP: usize = 1024;

/// Why a reliable message could not be queued for a client.
#[derive(Clone, Copy, Debug, PartialEq, Eq, Structural)]
pub enum ReliableSendError {
    Missing,
    Full,
    TooLarge,
}

/// What the server keeps for one connected client.
pub struct ConnectedClient {
    pub reliable: ReliableChannel,
    pub state: ReliableChannel,
    pub outbound: VecDeque<Vec<u8>>,
    pub state_outbound: VecDeque<Vec<u8>>,
    pub last_seen: Instant,
    pub session: u64,
    pub generation: u32,
    pub unreliable_out: u32,
}

/// The backlog of one stream: messages waiting outside the channel plus
/// packets waiting inside it.
pub open spec fn backlog(outbound: Seq<Vec<u8>>, channel: ReliableChannel) -> nat {
    outbound.len() + channel.unsent_view().len()
}

impl ConnectedClient {
    /// Queues a reliable message for this client on the event stream, or on the
    /// state stream when `state` is set.
    ///
    /// The message is stamped with the client's generation. It is refused as
    /// `TooLarge` when the stamped message needs too many fragments, and as
    /// `Full` when `OUTBOUND_CAP` messages and packets already wait on that
    /// stream. Otherwise it goes behind the messages already waiting outside the
    /// channel, or into the channel when none wait and the channel has room.
    pub fn enqueue(&mut self, payload: &[u8], state: bool) -> (r: Result<(), ReliableSendError>)
        requires
            old(self).reliable.wf(),
            old(self).state.wf(),
            payload@.len() + 12 <= isize::MAX,
        ensures
            final(self).reliable.wf(),
            final(self).state.wf(),
            final(self).session == old(self).session,
            final(self).generation == old(self).generation,
            final(self).unreliable_out == old(self).unreliable_out,
            ({
                let (chan, out, new_chan, new_out) = if state {
                    (old(self).state, old(self).state_outbound@, final(self).state, final(self).state_outbound@)
                } else {
                    (old(self).reliable, old(self).outbound@, final(self).reliable, final(self).outbound@)
                };
                let (other, new_other, other_out, new_other_out) = if state {
                    (old(self).reliable, final(self).reliable, old(self).outbound@, final(self).outbound@)
                } else {
                    (old(self).state, final(self).state, old(self).state_outbound@, final(self).state_outbound@)
                };
                &&& new_other == other
                &&& new_other_out == other_out
                &&& stream_enqueue(chan, out, payload@, old(self).generation, new_chan, new_out, r)
            }),
    {
        let stamped = stamp(self.generation, payload);
        let limits = if state {
            self.state.limits()
        } else {
            self.reliable.limits()
        };
        if encoded_packet_count(stamped.len(), &limits).is_none() {
            return Err(ReliableSendError::TooLarge);
        }
        let (waiting_outside, waiting_inside) = if state {
            (self.state_outbound.len(), self.state.unsent_count())
        } else {
            (self.outbound.len(), self.reliable.unsent_count())
        };
        proof {
            self.reliable.lemma_window_bounds();
            self.state.lemma_window_bounds();
        }
        if waiting_outside >= OUTBOUND_CAP - waiting_inside {
            return Err(ReliableSendError::Full);
        }
        let waiting = if state {
            self.state_outbound.len() > 0
        } else {
            self.outbound.len() > 0
        };
        if waiting {
            if state {
                self.state_outbound.push_back(vstd::slice::slice_to_vec(payload));
                assert(self.state_outbound@.drop_last() =~= old(self).state_outbound@);
            } else {
                self.outbound.push_back(vstd::slice::slice_to_vec(payload));
                assert(self.outbound@.drop_last() =~= old(self).outbound@);
            }
            return Ok(());
        }
        let status = if state {
            self.state.enqueue(stamped.as_slice())
        } else {
            self.reliable.enqueue(stamped.as_slice())
        };
        match status {
            EnqueueStatus::Queued => {
                proof {
                    let (chan, new_chan) = if state {
                        (old(self).state, self.state)
                    } else {
                        (old(self).reliable, self.reliable)
                    };
                    assert(new_chan.next_fragment_id_view() == fragment_id_after(payload@, old(self).generation, chan.limits_view(), chan.next_fragment_id_view()));
                }
                Ok(())
            },
            EnqueueStatus::Full => {
                if state {
                    self.state_outbound.push_back(vstd::slice::slice_to_vec(payload));
                    assert(self.state_outbound@.drop_last() =~= old(self).state_outbound@);
                } else {
                    self.outbound.push_back(vstd::slice::slice_to_vec(payload));
                    assert(self.outbound@.drop_last() =~= old(self).outbound@);
                }
                Ok(())
            },
            EnqueueStatus::TooLarge => Err(ReliableSendError::TooLarge),
        }
    }
}

/// The contents of queued messages.
pub open spec fn views(messages: Seq<Vec<u8>>) -> Seq<Seq<u8>> {
    messages.map_values(|m: Vec<u8>| m@)
}

/// How many packets `payload`, stamped with `generation`, becomes on a channel
/// with `limits`, or `None` when the channel refuses it as too large.
pub open spec fn stamped_count(payload: Seq<u8>, generation: u32, limits: PayloadLimits) -> Option<nat> {
    spec_encoded_packet_count(spec_stamp(generation, payload).len(), limits)
}

/// The fragment id after one message, stamped, is queued from fragment id `id`:
/// one more when it is fragmented.
pub open spec fn fragment_id_after(payload: Seq<u8>, generation: u32, limits: PayloadLimits, id: u16) -> u16 {
    if spec_stamp(generation, payload).len() <= limits.reliable {
        id
    } else {
        vstd::wrapping::u16_specs::wrapping_add(id, 1)
    }
}

/// The sequence number a channel numbering from `seq0` reaches after taking in
/// the messages of `taken` (stamped with `generation`) that it does not refuse.
pub open spec fn drain_seq(taken: Seq<Seq<u8>>, generation: u32, limits: PayloadLimits, seq0: u32) -> u32
    decreases taken.len(),
{
    if taken.len() == 0 {
        seq0
    } else {
        let s = drain_seq(taken.drop_last(), generation, limits, seq0);
        match stamped_count(taken.last(), generation, limits) {
            Some(c) => seq_after(s, c),
            None => s,
        }
    }
}

/// The fragment id a channel starting from `id0` reaches after taking in the
/// messages of `taken` that it does not refuse.
pub open spec fn drain_fragment_id(taken: Seq<Seq<u8>>, generation: u32, limits: PayloadLimits, id0: u16) -> u16
    decreases taken.len(),
{
    if taken.len() == 0 {
        id0
    } else {
        let f = drain_fragment_id(taken.drop_last(), generation, limits, id0);
        match stamped_count(taken.last(), generation, limits) {
            Some(c) => fragment_id_after(taken.last(), generation, limits, f),
            None => f,
        }
    }
}

/// How many packets the messages of `taken` that are not refused become.
pub open spec fn drain_added_len(taken: Seq<Seq<u8>>, generation: u32, limits: PayloadLimits) -> nat
    decreases taken.len(),
{
    if taken.len() == 0 {
        0
    } else {
        drain_added_len(taken.drop_last(), generation, limits) + match stamped_count(taken.last(), generation, limits) {
            Some(c) => c,
            None => 0,
        }
    }
}

/// The messages of `taken` that the channel refuses as too large, in order.
pub open spec fn drain_dropped(taken: Seq<Seq<u8>>, generation: u32, limits: PayloadLimits) -> Seq<Seq<u8>>
    decreases taken.len(),
{
    if taken.len() == 0 {
        Seq::empty()
    } else {
        let d = drain_dropped(taken.drop_last(), generation, limits);
        match stamped_count(taken.last(), generation, limits) {
            Some(c) => d,
            None => d.push(taken.last()),
        }
    }
}

/// `added` are the packets the messages of `taken` become, in order, each
/// message stamped with `generation` and numbered on from where the ones before
/// it left off (from `seq0` and fragment id `id0`); refused messages add none.
pub open spec fn drain_queued(
    taken: Seq<Seq<u8>>,
    generation: u32,
    limits: PayloadLimits,
    session: u64,
    stream: u8,
    seq0: u32,
    id0: u16,
    added: Seq<(u32, PacketType)>,
) -> bool
    decreases taken.len(),
{
    if taken.len() == 0 {
        added.len() == 0
    } else {
        let prev = taken.drop_last();
        let k = drain_added_len(prev, generation, limits);
        &&& k <= added.len()
        &&& drain_queued(prev, generation, limits, session, stream, seq0, id0, added.take(k as int))
        &&& match stamped_count(taken.last(), generation, limits) {
            Some(c) => {
                &&& added.len() == k + c
                &&& message_packets(
                    added.skip(k as int),
                    spec_stamp(generation, taken.last()),
                    limits,
                    session,
                    stream,
                    drain_seq(prev, generation, limits, seq0),
                    drain_fragment_id(prev, generation, limits, id0),
                )
            },
            None => added.len() == k,
        }
    }
}

/// The channel `after` holds the packets of `chan` followed by those the
/// messages of `taken` become (see `drain_queued`), and numbers on from there.
pub open spec fn took_in(chan: ReliableChannel, taken: Seq<Seq<u8>>, generation: u32, after: ReliableChannel) -> bool {
    let n0 = chan.unsent_view().len();
    &&& same_config(after, chan)
    &&& after.unsent_view().len() >= n0
    &&& after.unsent_view().take(n0 as int) == chan.unsent_view()
    &&& drain_queued(
        taken,
        generation,
        chan.limits_view(),
        chan.session_view(),
        chan.stream_view(),
        chan.outgoing_seq_view(),
        chan.next_fragment_id_view(),
        after.unsent_view().skip(n0 as int),
    )
    &&& after.outgoing_seq_view() == drain_seq(taken, generation, chan.limits_view(), chan.outgoing_seq_view())
    &&& after.next_fragment_id_view() == drain_fragment_id(taken, generation, chan.limits_view(), chan.next_fragment_id_view())
}

/// What one call of `ConnectedClient::enqueue` does on the stream it picks:
/// `chan` and `out` before, `new_chan` and `new_out` after, `r` returned.
pub open spec fn stream_enqueue(
    chan: ReliableChannel,
    out: Seq<Vec<u8>>,
    payload: Seq<u8>,
    generation: u32,
    new_chan: ReliableChannel,
    new_out: Seq<Vec<u8>>,
    r: Result<(), ReliableSendError>,
) -> bool {
    let stamped = spec_stamp(generation, payload);
    let fits = stamped_count(payload, generation, chan.limits_view());
    &&& same_config(new_chan, chan)
    &&& same_receive_state(new_chan, chan)
    &&& new_chan.pending_view() == chan.pending_view()
    &&& if fits is None {
        r == Err::<(), ReliableSendError>(ReliableSendError::TooLarge) && same_channel(new_chan, chan) && new_out == out
    } else if backlog(out, chan) >= OUTBOUND_CAP {
        r == Err::<(), ReliableSendError>(ReliableSendError::Full) && same_channel(new_chan, chan) && new_out == out
    } else if out.len() > 0 || chan.unsent_view().len() + fits->0 > MAX_UNSENT {
        &&& r == Ok::<(), ReliableSendError>(())
        &&& same_channel(new_chan, chan)
        &&& new_out.len() == out.len() + 1
        &&& new_out.drop_last() == out
        &&& new_out.last()@ == payload
    } else {
        &&& r == Ok::<(), ReliableSendError>(())
        &&& new_out == out
        &&& new_chan.unsent_view().len() == chan.unsent_view().len() + fits->0
        &&& new_chan.unsent_view().subrange(0, chan.unsent_view().len() as int) == chan.unsent_view()
        &&& message_packets(
            new_chan.unsent_view().subrange(chan.unsent_view().len() as int, new_chan.unsent_view().len() as int),
            stamped,
            chan.limits_view(),
            chan.session_view(),
            chan.stream_view(),
            chan.outgoing_seq_view(),
            chan.next_fragment_id_view(),
        )
        &&& new_chan.outgoing_seq_view() == seq_after(chan.outgoing_seq_view(), fits->0)
        &&& new_chan.next_fragment_id_view() == fragment_id_after(payload, generation, chan.limits_view(), chan.next_fragment_id_view())
    }
}

/// What one call of `drain_outbound` does: `chan` and `out` before, `new_chan`
/// and `new_out` after, `dropped` the contents of the messages returned.
pub open spec fn stream_drain(
    chan: ReliableChannel,
    out: Seq<Vec<u8>>,
    generation: u32,
    new_chan: ReliableChannel,
    new_out: Seq<Vec<u8>>,
    dropped: Seq<Seq<u8>>,
) -> bool {
    let taken = views(out).take(out.len() - new_out.len());
    &&& same_receive_state(new_chan, chan)
    &&& new_chan.pending_view() == chan.pending_view()
    &&& new_out.len() <= out.len()
    &&& new_out == out.skip(out.len() - new_out.len())
    &&& new_out.len() > 0 ==> {
        let c = stamped_count(new_out[0]@, generation, new_chan.limits_view());
        &&& c is Some
        &&& new_chan.unsent_view().len() + c->0 > MAX_UNSENT
    }
    &&& took_in(chan, taken, generation, new_chan)
    &&& dropped == drain_dropped(taken, generation, chan.limits_view())
}

/// Moves waiting messages into `channel`, oldest first, stamped with
/// `generation`, until the channel is full; a message too large for the channel
/// is dropped. Returns the messages dropped that way, in order.
///
/// The messages taken from the front of `outbound` become, in order, the
/// packets added behind those already queued on the channel (see
/// `drain_queued`), except the refused ones, which are returned; the first
/// message left waiting, if any, would overfill the channel.
pub fn drain_outbound(outbound: &mut VecDeque<Vec<u8>>, channel: &mut ReliableChannel, generation: u32) -> (dropped: Vec<Vec<u8>>)
    requires
        old(channel).wf(),
        forall|i: int| 0 <= i < old(outbound)@.len() ==> (#[trigger] old(outbound)@[i])@.len() + 12 <= isize::MAX,
    ensures
        final(channel).wf(),
        stream_drain(*old(channel), old(outbound)@, generation, *final(channel), final(outbound)@, views(dropped@)),
{
    let mut dropped: Vec<Vec<u8>> = Vec::new();
    let ghost start = outbound@;
    let ghost c0 = *channel;
    let ghost n0 = channel.unsent_view().len();
    let ghost limits = channel.limits_view();
    proof {
        assert(views(start).take(0) =~= Seq::<Seq<u8>>::empty());
        assert(channel.unsent_view().take(n0 as int) =~= c0.unsent_view());
        assert(channel.unsent_view().skip(n0 as int) =~= Seq::<(u32, PacketType)>::empty());
        assert(views(dropped@) =~= Seq::<Seq<u8>>::empty());
    }
    loop
        invariant_except_break
            channel.wf(),
            same_receive_state(*channel, c0),
            channel.pending_view() == c0.pending_view(),
            outbound@.len() <= start.len(),
            outbound@ == start.skip(start.len() - outbound@.len()),
            forall|i: int| 0 <= i < start.len() ==> (#[trigger] start[i])@.len() + 12 <= isize::MAX,
            start == old(outbound)@,
            c0 == *old(channel),
            n0 == c0.unsent_view().len(),
            limits == c0.limits_view(),
            ({
                let taken = views(start).take(start.len() - outbound@.len());
                &&& channel.unsent_view().len() == n0 + drain_added_len(taken, generation, limits)
                &&& took_in(c0, taken, generation, *channel)
                &&& views(dropped@) == drain_dropped(taken, generation, limits)
            }),
        ensures
            channel.wf(),
            stream_drain(c0, start, generation, *channel, outbound@, views(dropped@)),
        decreases outbound@.len(),
    {
        let ghost before = outbound@;
        let ghost chan_before = *channel;
        let ghost t = (start.len() - before.len()) as int;
        let ghost taken = views(start).take(t);
        let ghost added = chan_before.unsent_view().skip(n0 as int);
        let ghost dropped_before = dropped@;
        let next = outbound.pop_front();
        let payload = match next {
            Some(payload) => payload,
            None => {
                proof {
                    assert(views(start).take(start.len() - outbound@.len()) == taken);
                }
                break;
            },
        };
        proof {
            assert(before[0] == start[t]);
            assert(outbound@ =~= start.skip(start.len() - outbound@.len()));
            assert(views(start).take(t + 1).drop_last() =~= taken);
            assert(views(start).take(t + 1).last() == payload@);
            crate::packet::lemma_stamp_len(generation, payload@);
        }
        let stamped = stamp(generation, payload.as_slice());
        match channel.enqueue(stamped.as_slice()) {
            EnqueueStatus::Queued => {
                proof {
                    let taken1 = views(start).take(t + 1);
                    let k = drain_added_len(taken, generation, limits);
                    let u = channel.unsent_view();
                    let ub = chan_before.unsent_view();
                    assert(ub.len() == n0 + k);
                    let added1 = u.skip(n0 as int);
                    assert(u.subrange(0, ub.len() as int) == ub);
                    assert(u.take(n0 as int) =~= ub.take(n0 as int));
                    assert(added1.take(k as int) =~= added);
                    assert(added1.skip(k as int) =~= u.subrange(ub.len() as int, u.len() as int));
                    assert(drain_queued(taken1, generation, limits, c0.session_view(), c0.stream_view(), c0.outgoing_seq_view(), c0.next_fragment_id_view(), added1));
                    assert(taken1 == views(start).take(start.len() - outbound@.len()));
                    assert(views(dropped@) == views(dropped_before));
                }
            },
            EnqueueStatus::Full => {
                outbound.push_front(payload);
                proof {
                    assert(outbound@ =~= before);
                    let c = stamped_count(before[0]@, generation, limits);
                    assert(c is Some);
                }
                break;
            },
            EnqueueStatus::TooLarge => {
                dropped.push(payload);
                proof {
                    let taken1 = views(start).take(t + 1);
                    assert(taken1 == views(start).take(start.len() - outbound@.len()));
                    assert(stamped_count(payload@, generation, limits) is None);
                    let a = channel.unsent_view().skip(n0 as int);
                    assert(a.take(drain_added_len(taken, generation, limits) as int) =~= a);
                    assert(views(dropped@) =~= views(dropped_before).push(payload@));
                    assert(views(dropped@) =~= drain_dropped(taken1, generation, limits));
                }
            },
        }
    }
    dropped
}

/// The messages accepted on one stream since its channel was `c0`, in call
/// order, are `all`: the front of them went into the channel as its packets
/// (see `took_in`), the rest waits outside in `out`, in the same order.
pub open spec fn stream_order(c0: ReliableChannel, all: Seq<Seq<u8>>, generation: u32, chan: ReliableChannel, out: Seq<Vec<u8>>) -> bool {
    let k = all.len() - out.len();
    &&& out.len() <= all.len()
    &&& views(out) == all.skip(k)
    &&& took_in(c0, all.take(k), generation, chan)
}

proof fn lemma_drain_queued_len(
    taken: Seq<Seq<u8>>,
    generation: u32,
    limits: PayloadLimits,
    session: u64,
    stream: u8,
    seq0: u32,
    id0: u16,
    added: Seq<(u32, PacketType)>,
)
    requires
        drain_queued(taken, generation, limits, session, stream, seq0, id0, added),
    ensures
        added.len() == drain_added_len(taken, generation, limits),
    decreases taken.len(),
{
}

proof fn lemma_drain_concat(
    a: Seq<Seq<u8>>,
    b: Seq<Seq<u8>>,
    generation: u32,
    limits: PayloadLimits,
    session: u64,
    stream: u8,
    seq0: u32,
    id0: u16,
    x: Seq<(u32, PacketType)>,
    y: Seq<(u32, PacketType)>,
)
    requires
        drain_queued(a, generation, limits, session, stream, seq0, id0, x),
        drain_queued(
            b,
            generation,
            limits,
            session,
            stream,
            drain_seq(a, generation, limits, seq0),
            drain_fragment_id(a, generation, limits, id0),
            y,
        ),
    ensures
        drain_queued(a + b, generation, limits, session, stream, seq0, id0, x + y),
        drain_seq(a + b, generation, limits, seq0) == drain_seq(b, generation, limits, drain_seq(a, generation, limits, seq0)),
        drain_fragment_id(a + b, generation, limits, id0) == drain_fragment_id(
            b,
            generation,
            limits,
            drain_fragment_id(a, generation, limits, id0),
        ),
        drain_added_len(a + b, generation, limits) == drain_added_len(a, generation, limits) + drain_added_len(
            b,
            generation,
            limits,
        ),
    decreases b.len(),
{
    lemma_drain_queued_len(a, generation, limits, session, stream, seq0, id0, x);
    if b.len() == 0 {
        assert(a + b =~= a);
        assert(x + y =~= x);
    } else {
        let b1 = b.drop_last();
        let kb = drain_added_len(b1, generation, limits);
        let y1 = y.take(kb as int);
        lemma_drain_concat(a, b1, generation, limits, session, stream, seq0, id0, x, y1);
        let ab = a + b;
        assert(ab.drop_last() =~= a + b1);
        assert(ab.last() == b.last());
        let k = drain_added_len(a + b1, generation, limits);
        assert(k == x.len() + kb);
        assert((x + y).take(k as int) =~= x + y1);
        assert((x + y).skip(k as int) =~= y.skip(kb as int));
    }
}

proof fn lemma_took_in_concat(
    c0: ReliableChannel,
    a: Seq<Seq<u8>>,
    c1: ReliableChannel,
    b: Seq<Seq<u8>>,
    c2: ReliableChannel,
    generation: u32,
)
    requires
        took_in(c0, a, generation, c1),
        took_in(c1, b, generation, c2),
    ensures
        took_in(c0, a + b, generation, c2),
{
    let n0 = c0.unsent_view().len();
    let n1 = c1.unsent_view().len();
    let x = c1.unsent_view().skip(n0 as int);
    let y = c2.unsent_view().skip(n1 as int);
    lemma_drain_concat(
        a,
        b,
        generation,
        c0.limits_view(),
        c0.session_view(),
        c0.stream_view(),
        c0.outgoing_seq_view(),
        c0.next_fragment_id_view(),
        x,
        y,
    );
    assert(c1.unsent_view().take(n1 as int) =~= c1.unsent_view());
    assert(c2.unsent_view().take(n0 as int) =~= c1.unsent_view().take(n1 as int).take(n0 as int));
    assert(c2.unsent_view().skip(n0 as int) =~= x + y);
}

/// A stream starts out in order: what waits outside its channel is all that was
/// accepted, and nothing has gone into the channel yet.
pub proof fn lemma_stream_order_starts(c0: ReliableChannel, out: Seq<Vec<u8>>, generation: u32)
    ensures
        stream_order(c0, views(out), generation, c0, out),
{
    assert(views(out).skip(0) =~= views(out));
    assert(views(out).take(0) =~= Seq::<Seq<u8>>::empty());
    assert(c0.unsent_view().take(c0.unsent_view().len() as int) =~= c0.unsent_view());
    assert(c0.unsent_view().skip(c0.unsent_view().len() as int) =~= Seq::<(u32, PacketType)>::empty());
}

/// An accepted `enqueue` keeps a stream in call order: the payload joins the
/// end of the accepted messages, and goes into the channel, stamped and
/// numbered on from the message before it, only when nothing waits outside.
pub proof fn lemma_enqueue_keeps_stream_order(
    c0: ReliableChannel,
    all: Seq<Seq<u8>>,
    generation: u32,
    chan: ReliableChannel,
    out: Seq<Vec<u8>>,
    payload: Seq<u8>,
    new_chan: ReliableChannel,
    new_out: Seq<Vec<u8>>,
)
    requires
        stream_order(c0, all, generation, chan, out),
        stream_enqueue(chan, out, payload, generation, new_chan, new_out, Ok(())),
    ensures
        stream_order(c0, all.push(payload), generation, new_chan, new_out),
{
    let k = all.len() - out.len();
    let all1 = all.push(payload);
    let fits = stamped_count(payload, generation, chan.limits_view());
    if out.len() > 0 || chan.unsent_view().len() + fits->0 > MAX_UNSENT {
        assert(new_out =~= out.push(new_out.last()));
        assert(views(new_out) =~= views(out).push(payload));
        assert(all1.skip(k) =~= all.skip(k).push(payload));
        assert(all1.take(k) =~= all.take(k));
    } else {
        let one = seq![payload];
        let n = chan.unsent_view().len();
        let added = new_chan.unsent_view().skip(n as int);
        assert(added =~= new_chan.unsent_view().subrange(n as int, new_chan.unsent_view().len() as int));
        assert(one.drop_last() =~= Seq::<Seq<u8>>::empty());
        assert(added.take(0) =~= Seq::<(u32, PacketType)>::empty());
        assert(added.skip(0) =~= added);
        assert(new_chan.unsent_view().take(n as int) =~= chan.unsent_view());
        assert(one.last() == payload);
        assert(drain_queued(one.drop_last(), generation, chan.limits_view(), chan.session_view(), chan.stream_view(), chan.outgoing_seq_view(), chan.next_fragment_id_view(), added.take(0)));
        assert(drain_queued(one, generation, chan.limits_view(), chan.session_view(), chan.stream_view(), chan.outgoing_seq_view(), chan.next_fragment_id_view(), added));
        assert(took_in(chan, one, generation, new_chan));
        assert(all.take(k) =~= all);
        lemma_took_in_concat(c0, all, chan, one, new_chan, generation);
        assert(all + one =~= all1);
        assert(all1.take(all1.len() as int) =~= all1);
        assert(views(new_out) =~= all1.skip(all1.len() as int));
    }
}

/// `drain_outbound` keeps a stream in call order: it moves messages from the
/// front of those waiting outside into the channel, after the ones already
/// there.
pub proof fn lemma_drain_keeps_stream_order(
    c0: ReliableChannel,
    all: Seq<Seq<u8>>,
    generation: u32,
    chan: ReliableChannel,
    out: Seq<Vec<u8>>,
    new_chan: ReliableChannel,
    new_out: Seq<Vec<u8>>,
    dropped: Seq<Seq<u8>>,
)
    requires
        stream_order(c0, all, generation, chan, out),
        stream_drain(chan, out, generation, new_chan, new_out, dropped),
    ensures
        stream_order(c0, all, generation, new_chan, new_out),
{
    let k = all.len() - out.len();
    let m = out.len() - new_out.len();
    let taken = views(out).take(m);
    assert(taken =~= all.skip(k).take(m));
    lemma_took_in_concat(c0, all.take(k), chan, taken, new_chan, generation);
    assert(all.take(k) + taken =~= all.take(k + m));
    assert(views(new_out) =~= views(out).skip(m));
    assert(views(new_out) =~= all.skip(k + m));
}

/// Seconds per challenge window: a challenge token stays valid for the window
/// it was issued in and the next one.
pub const CHALLENGE_WINDOW_SECS: u64 = 5;

#[verifier::external_type_specification]
#[verifier::external_body]
pub struct ExSystemTime(SystemTime);

/// `SystemTime::now`: the current reading of the system clock. Nothing is
/// promised of the value.
#[verifier::external_body]
fn system_now() -> SystemTime {
    SystemTime::now()
}

/// `SystemTime::duration_since(UNIX_EPOCH)`: how long after the Unix epoch `t`
/// lies, or `None` (the error) when it lies before. Nothing is stated of the
/// value.
#[verifier::external_body]
fn since_unix_epoch(t: &SystemTime) -> Option<Duration> {
    t.duration_since(UNIX_EPOCH).ok()
}

/// `Duration::as_secs`: the whole seconds of `d`. Nothing is stated of the
/// value, as a `Duration` is opaque here.
#[verifier::external_body]
fn duration_secs(d: &Duration) -> u64 {
    d.as_secs()
}

/// The challenge window of a clock reading: its whole seconds since the Unix
/// epoch divided by `CHALLENGE_WINDOW_SECS`, and window 0 for a reading before
/// the epoch (`None`).
pub open spec fn spec_challenge_bucket(since_epoch: Option<u64>) -> u64 {
    match since_epoch {
        Some(secs) => secs / CHALLENGE_WINDOW_SECS,
        None => 0,
    }
}

/// The challenge window of a clock reading of `since_epoch` whole seconds after
/// the Unix epoch (`None` for a reading before it).
pub fn challenge_bucket_at(since_epoch: Option<u64>) -> (bucket: u64)
    ensures
        bucket == spec_challenge_bucket(since_epoch),
{
    match since_epoch {
        Some(secs) => secs / CHALLENGE_WINDOW_SECS,
        None => 0,
    }
}

/// The number of the current challenge window: `challenge_bucket_at` of the
/// system clock's reading.
pub fn challenge_bucket() -> (bucket: u64)
    ensures
        exists|since_epoch: Option<u64>| bucket == #[trigger] spec_challenge_bucket(since_epoch),
{
    let since_epoch = match since_unix_epoch(&system_now()) {
        Some(d) => Some(duration_secs(&d)),
        None => None,
    };
    challenge_bucket_at(since_epoch)
}

/// The generation a returning address gets: one more than its last, wrapping,
/// and never 0.
pub fn next_connection_generation(current: u32) -> (next: u32)
    ensures
        next != 0,
        current < u32::MAX ==> next == current + 1,
        current == u32::MAX ==> next == 1,
{
    let next = current.wrapping_add(1);
    if next == 0 {
        1
    } else {
        next
    }
}

impl ConnectedClient {
    /// A freshly connected client: both reliable channels (events and state)
    /// carry `session`, nothing is queued, and no unreliable message was sent yet.
    pub fn new(session: u64, generation: u32, limits: crate::packet::PayloadLimits, last_seen: Instant) -> (c: Self)
        ensures
            c.reliable.wf(),
            c.state.wf(),
            c.reliable.stream_view() == crate::packet::STREAM_EVENT,
            c.state.stream_view() == crate::packet::STREAM_STATE,
            c.reliable.session_view() == session,
            c.state.session_view() == session,
            c.reliable.unsent_view().len() == 0,
            c.state.unsent_view().len() == 0,
            c.reliable.pending_view().len() == 0,
            c.state.pending_view().len() == 0,
            c.outbound@.len() == 0,
            c.state_outbound@.len() == 0,
            c.session == session,
            c.generation == generation,
            c.unreliable_out == 0,
            c.last_seen == last_seen,
    {
        let mut reliable = ReliableChannel::new(limits);
        reliable.set_session(session);
        let mut state = ReliableChannel::with_stream(crate::packet::STREAM_STATE, limits);
        state.set_session(session);
        ConnectedClient {
            reliable,
            state,
            outbound: VecDeque::new(),
            state_outbound: VecDeque::new(),
            last_seen,
            session,
            generation,
            unreliable_out: 0,
        }
    }
}
} // verus!
