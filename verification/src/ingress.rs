use vstd::prelude::*;
use crate::packet::{PayloadLimits, MAX_FRAGMENTS, fragment_count, fragment_bytes, joined_fragments, lemma_fragments_rejoin};
use crate::packet::STREAM_STATE;
use crate::reliable::{message_packets, tracked_receipt, ReliableChannel};

verus! {

/// The most parts one batch may be split into.
pub const MAX_BATCH_PARTS: u16 = 1024;

/// How many of the slots hold a part.
pub open spec fn count_filled<T>(parts: Seq<Option<Vec<T>>>) -> nat
    decreases parts.len(),
{
    if parts.len() == 0 {
        0
    } else {
        count_filled(parts.drop_last()) + if parts.last() is Some {
            1nat
        } else {
            0nat
        }
    }
}

/// The items of the parts held in the slots, joined in slot order.
pub open spec fn joined_parts<T>(parts: Seq<Option<Vec<T>>>) -> Seq<T>
    decreases parts.len(),
{
    if parts.len() == 0 {
        Seq::empty()
    } else {
        joined_parts(parts.drop_last()) + match parts.last() {
            Some(batch) => batch@,
            None => Seq::empty(),
        }
    }
}

/// `n` empty slots.
pub open spec fn empty_slots<T>(n: nat) -> Seq<Option<Vec<T>>> {
    Seq::new(n, |i: int| None::<Vec<T>>)
}

proof fn lemma_count_bound<T>(parts: Seq<Option<Vec<T>>>)
    ensures
        count_filled(parts) <= parts.len(),
        count_filled(parts) == parts.len() ==> forall|i: int| 0 <= i < parts.len() ==> #[trigger] parts[i] is Some,
    decreases parts.len(),
{
    if parts.len() > 0 {
        lemma_count_bound(parts.drop_last());
        if count_filled(parts) == parts.len() {
            assert forall|i: int| 0 <= i < parts.len() implies #[trigger] parts[i] is Some by {
                if i < parts.len() - 1 {
                    assert(parts.drop_last()[i] == parts[i]);
                }
            }
        }
    }
}

proof fn lemma_count_empty<T>(n: nat)
    ensures
        count_filled(empty_slots::<T>(n)) == 0,
    decreases n,
{
    if n > 0 {
        lemma_count_empty::<T>((n - 1) as nat);
        assert(empty_slots::<T>(n).drop_last() =~= empty_slots::<T>((n - 1) as nat));
    }
}

proof fn lemma_count_fill<T>(parts: Seq<Option<Vec<T>>>, i: int, v: Vec<T>)
    requires
        0 <= i < parts.len(),
        parts[i] is None,
    ensures
        count_filled(parts.update(i, Some(v))) == count_filled(parts) + 1,
    decreases parts.len(),
{
    let u = parts.update(i, Some(v));
    if i == parts.len() - 1 {
        assert(u.drop_last() =~= parts.drop_last());
    } else {
        lemma_count_fill(parts.drop_last(), i, v);
        assert(u.drop_last() =~= parts.drop_last().update(i, Some(v)));
    }
}

/// Takes every part out of `slots`, oldest slot first, and joins their items.
fn drain_parts<T>(slots: Vec<Option<Vec<T>>>) -> (all: Vec<T>)
    ensures
        all@ == joined_parts(slots@),
{
    let ghost whole = slots@;
    let n = slots.len();
    let mut rest = slots;
    let mut all: Vec<T> = Vec::new();
    let mut taken: usize = 0;
    while rest.len() > 0
        invariant
            taken + rest@.len() == whole.len(),
            n == whole.len(),
            rest@ == whole.skip(taken as int),
            all@ == joined_parts(whole.take(taken as int)),
        decreases rest@.len(),
    {
        let slot = rest.remove(0);
        proof {
            assert(whole.take(taken + 1).drop_last() =~= whole.take(taken as int));
            assert(whole.take(taken + 1).last() == slot);
        }
        match slot {
            Some(mut batch) => {
                all.append(&mut batch);
            },
            None => {},
        }
        taken = taken + 1;
        proof {
            assert(rest@ =~= whole.skip(taken as int));
        }
    }
    proof {
        assert(whole.take(whole.len() as int) =~= whole);
    }
    all
}

/// Reassembles the per-tick state the server sends in several parts. Parts of
/// the current tick are collected in their slots; the tick is delivered, its
/// parts joined in order, once every part has arrived. Parts of older ticks, and
/// of a tick already delivered, are ignored; a part of a newer tick starts over.
pub struct TickIngress<T> {
    tick: u64,
    part_count: u16,
    filled: u16,
    started: bool,
    parts: Vec<Option<Vec<T>>>,
}

impl<T> TickIngress<T> {
    pub closed spec fn tick_view(&self) -> u64 {
        self.tick
    }

    pub closed spec fn part_count_view(&self) -> u16 {
        self.part_count
    }

    pub closed spec fn started_view(&self) -> bool {
        self.started
    }

    /// The slots of the tick being collected.
    pub closed spec fn parts_view(&self) -> Seq<Option<Vec<T>>> {
        self.parts@
    }

    pub closed spec fn wf(&self) -> bool {
        &&& self.parts@.len() == self.part_count
        &&& self.part_count <= MAX_BATCH_PARTS
        &&& self.filled == count_filled(self.parts@)
    }

    pub fn new() -> (r: Self)
        ensures
            r.wf(),
            r.tick_view() == 0,
            r.part_count_view() == 0,
            !r.started_view(),
            r.parts_view().len() == 0,
    {
        Self { tick: 0, part_count: 0, filled: 0, started: false, parts: Vec::new() }
    }

    /// Accepts part `part` of `part_count` for `tick`. Returns the whole tick,
    /// its parts joined in order, when this part completes it.
    pub fn push(&mut self, tick: u64, part: u16, part_count: u16, transforms: Vec<T>) -> (r: Option<Vec<T>>)
        requires
            old(self).wf(),
        ensures
            final(self).wf(),
            ({
                let rejected = part_count == 0 || part >= part_count || part_count > MAX_BATCH_PARTS
                    || (old(self).started_view() && old(self).part_count_view() == 0 && tick <= old(self).tick_view())
                    || (old(self).started_view() && tick < old(self).tick_view());
                let restart = !old(self).started_view() || old(self).tick_view() != tick
                    || old(self).part_count_view() != part_count;
                let slots = if restart {
                    empty_slots::<T>(part_count as nat)
                } else {
                    old(self).parts_view()
                };
                let stored = if slots[part as int] is None {
                    slots.update(part as int, Some(transforms))
                } else {
                    slots
                };
                if rejected {
                    &&& r is None
                    &&& final(self).tick_view() == old(self).tick_view()
                    &&& final(self).part_count_view() == old(self).part_count_view()
                    &&& final(self).started_view() == old(self).started_view()
                    &&& final(self).parts_view() == old(self).parts_view()
                } else if count_filled(stored) == part_count {
                    &&& r matches Some(all) && all@ == joined_parts(stored)
                    &&& final(self).started_view()
                    &&& final(self).tick_view() == tick
                    &&& final(self).part_count_view() == 0
                    &&& final(self).parts_view().len() == 0
                } else {
                    &&& r is None
                    &&& final(self).started_view()
                    &&& final(self).tick_view() == tick
                    &&& final(self).part_count_view() == part_count
                    &&& final(self).parts_view() == stored
                }
            }),
    {
        if part_count == 0 || part >= part_count || part_count > MAX_BATCH_PARTS {
            return None;
        }
        if self.started && self.part_count == 0 && tick <= self.tick {
            return None;
        }
        if self.started && tick < self.tick {
            return None;
        }
        if !self.started || self.tick != tick || self.part_count != part_count || self.parts.len() != part_count as usize {
            self.started = true;
            self.tick = tick;
            self.part_count = part_count;
            self.filled = 0;
            self.parts = new_slots(part_count as usize);
            proof {
                lemma_count_empty::<T>(part_count as nat);
            }
        }
        if self.parts[part as usize].is_none() {
            proof {
                lemma_count_fill(self.parts@, part as int, transforms);
                lemma_count_bound(self.parts@.update(part as int, Some(transforms)));
            }
            self.parts.set(part as usize, Some(transforms));
            self.filled = self.filled + 1;
        }
        if self.filled != part_count {
            return None;
        }
        let mut slots: Vec<Option<Vec<T>>> = Vec::new();
        std::mem::swap(&mut slots, &mut self.parts);
        let all = drain_parts(slots);
        self.filled = 0;
        self.part_count = 0;
        Some(all)
    }
}

/// `n` empty slots.
fn new_slots<T>(n: usize) -> (slots: Vec<Option<Vec<T>>>)
    ensures
        slots@ == empty_slots::<T>(n as nat),
{
    let mut slots: Vec<Option<Vec<T>>> = Vec::with_capacity(n);
    let mut i: usize = 0;
    while i < n
        invariant
            i <= n,
            slots@ == empty_slots::<T>(i as nat),
        decreases n - i,
    {
        slots.push(None);
        i = i + 1;
        proof {
            assert(slots@ =~= empty_slots::<T>(i as nat));
        }
    }
    slots
}

/// What `SnapshotIngress::push` of part `part` of `part_count` of the snapshot
/// of `generation` (first-part flag `reset`, items `entities`) did, taking the
/// ingress from `before` to `after` and returning `r`: a malformed part changes
/// nothing; a part of another generation or part count starts over; the part
/// fills its slot when empty; and the snapshot comes out, its parts joined in
/// order, once every slot is filled.
pub open spec fn snapshot_pushed<T>(
    before: SnapshotIngress<T>,
    after: SnapshotIngress<T>,
    generation: u32,
    reset: bool,
    part: u16,
    part_count: u16,
    entities: Vec<T>,
    r: Option<BuiltSnapshot<T>>,
) -> bool {
    let rejected = part_count == 0 || part >= part_count || part_count > MAX_BATCH_PARTS;
    let restart = before.part_count_view() != part_count || before.generation_view() != generation;
    let slots = if restart {
        empty_slots::<T>(part_count as nat)
    } else {
        before.parts_view()
    };
    let base_reset = if restart {
        false
    } else {
        before.reset_view()
    };
    let new_reset = if part == 0 {
        reset
    } else {
        base_reset
    };
    let stored = if slots[part as int] is None {
        slots.update(part as int, Some(entities))
    } else {
        slots
    };
    if rejected {
        &&& r is None
        &&& after.generation_view() == before.generation_view()
        &&& after.reset_view() == before.reset_view()
        &&& after.part_count_view() == before.part_count_view()
        &&& after.parts_view() == before.parts_view()
    } else if count_filled(stored) == part_count {
        &&& r matches Some(built) && built.reset == new_reset && built.entities@ == joined_parts(stored)
        &&& after.generation_view() == generation
        &&& after.reset_view() == new_reset
        &&& after.part_count_view() == 0
        &&& after.parts_view().len() == 0
    } else {
        &&& r is None
        &&& after.generation_view() == generation
        &&& after.reset_view() == new_reset
        &&& after.part_count_view() == part_count
        &&& after.parts_view() == stored
    }
}

/// A world snapshot, reassembled from its parts.
pub struct BuiltSnapshot<T> {
    pub reset: bool,
    pub entities: Vec<T>,
}

/// Reassembles the world snapshots the server sends in several parts. Parts of
/// one generation are collected in their slots; a part of another generation,
/// or with another part count, starts over. The first part says whether the
/// client must clear its world before applying the snapshot.
pub struct SnapshotIngress<T> {
    generation: u32,
    reset: bool,
    part_count: u16,
    filled: u16,
    parts: Vec<Option<Vec<T>>>,
}

impl<T> SnapshotIngress<T> {
    pub closed spec fn generation_view(&self) -> u32 {
        self.generation
    }

    pub closed spec fn reset_view(&self) -> bool {
        self.reset
    }

    pub closed spec fn part_count_view(&self) -> u16 {
        self.part_count
    }

    pub closed spec fn parts_view(&self) -> Seq<Option<Vec<T>>> {
        self.parts@
    }

    pub closed spec fn wf(&self) -> bool {
        &&& self.parts@.len() == self.part_count
        &&& self.part_count <= MAX_BATCH_PARTS
        &&& self.filled == count_filled(self.parts@)
    }

    pub fn new() -> (r: Self)
        ensures
            r.wf(),
            r.generation_view() == 0,
            !r.reset_view(),
            r.part_count_view() == 0,
            r.parts_view().len() == 0,
    {
        Self { generation: 0, reset: false, part_count: 0, filled: 0, parts: Vec::new() }
    }

    /// Accepts part `part` of `part_count` of the snapshot of `generation`.
    /// Returns the whole snapshot, its parts joined in order, when this part
    /// completes it.
    pub fn push(&mut self, generation: u32, reset: bool, part: u16, part_count: u16, entities: Vec<T>) -> (r: Option<BuiltSnapshot<T>>)
        requires
            old(self).wf(),
        ensures
            final(self).wf(),
            snapshot_pushed(*old(self), *final(self), generation, reset, part, part_count, entities, r),
    {
        if part_count == 0 || part >= part_count || part_count > MAX_BATCH_PARTS {
            return None;
        }
        if self.part_count != part_count || self.generation != generation || self.parts.len() != part_count as usize {
            self.generation = generation;
            self.reset = false;
            self.part_count = part_count;
            self.filled = 0;
            self.parts = new_slots(part_count as usize);
            proof {
                lemma_count_empty::<T>(part_count as nat);
            }
        }
        if part == 0 {
            self.reset = reset;
        }
        if self.parts[part as usize].is_none() {
            proof {
                lemma_count_fill(self.parts@, part as int, entities);
                lemma_count_bound(self.parts@.update(part as int, Some(entities)));
            }
            self.parts.set(part as usize, Some(entities));
            self.filled = self.filled + 1;
        }
        if self.filled != part_count {
            return None;
        }
        let mut slots: Vec<Option<Vec<T>>> = Vec::new();
        std::mem::swap(&mut slots, &mut self.parts);
        let built = BuiltSnapshot { reset: self.reset, entities: drain_parts(slots) };
        self.filled = 0;
        self.part_count = 0;
        Some(built)
    }
}

/// Joins the fragments of reliable messages. Fragments of one message (one
/// packet id and fragment count) are collected in their slots; a fragment of
/// another message starts over; the message comes out, its fragments joined in
/// order, once every fragment has arrived.
pub struct FragmentAssembler {
    parts: SnapshotIngress<u8>,
}

impl FragmentAssembler {
    pub closed spec fn parts_view(&self) -> SnapshotIngress<u8> {
        self.parts
    }

    pub closed spec fn wf(&self) -> bool {
        self.parts.wf() && !self.parts.reset_view()
    }

    pub fn new() -> (a: Self)
        ensures
            a.wf(),
            a.parts_view().part_count_view() == 0,
            a.parts_view().parts_view().len() == 0,
    {
        FragmentAssembler { parts: SnapshotIngress::new() }
    }

    /// Takes fragment `fragment_idx` of `total_fragments` of message
    /// `packet_id`; returns the whole message when this fragment completes it.
    pub fn insert(&mut self, packet_id: u16, fragment_idx: u16, total_fragments: u16, data: Vec<u8>) -> (r: Option<Vec<u8>>)
        requires
            old(self).wf(),
        ensures
            final(self).wf(),
            snapshot_pushed(
                old(self).parts_view(),
                final(self).parts_view(),
                packet_id as u32,
                false,
                fragment_idx,
                total_fragments,
                data,
                match r {
                    Some(v) => Some(BuiltSnapshot { reset: false, entities: v }),
                    None => None,
                },
            ),
    {
        match self.parts.push(packet_id as u32, false, fragment_idx, total_fragments, data) {
            Some(built) => Some(built.entities),
            None => None,
        }
    }
}

/// `n` slots of which the first `k` hold `datas[0..k]`.
pub open spec fn prefix_slots(datas: Seq<Vec<u8>>, k: int, n: nat) -> Seq<Option<Vec<u8>>> {
    Seq::new(n, |i: int| if i < k { Some(datas[i]) } else { None })
}

proof fn lemma_count_prefix(datas: Seq<Vec<u8>>, k: nat, n: nat)
    requires
        k <= n,
    ensures
        count_filled(prefix_slots(datas, k as int, n)) == k,
    decreases k,
{
    if k == 0 {
        assert(prefix_slots(datas, 0, n) =~= empty_slots::<u8>(n));
        lemma_count_empty::<u8>(n);
    } else {
        lemma_count_prefix(datas, (k - 1) as nat, n);
        let before = prefix_slots(datas, k - 1, n);
        assert(prefix_slots(datas, k as int, n) =~= before.update(k - 1, Some(datas[k - 1])));
        lemma_count_fill(before, k - 1, datas[k - 1]);
    }
}

proof fn lemma_joined_prefix_slots(payload: Seq<u8>, chunk: nat, datas: Seq<Vec<u8>>, n: nat)
    requires
        datas.len() >= n,
        forall|i: int| 0 <= i < n ==> (#[trigger] datas[i])@ == fragment_bytes(payload, chunk, i as nat),
    ensures
        joined_parts(prefix_slots(datas, n as int, n)) == joined_fragments(payload, chunk, n),
    decreases n,
{
    if n > 0 {
        lemma_joined_prefix_slots(payload, chunk, datas, (n - 1) as nat);
        assert(prefix_slots(datas, n as int, n).drop_last() =~= prefix_slots(datas, n - 1, (n - 1) as nat));
        assert(datas[n - 1]@ == fragment_bytes(payload, chunk, (n - 1) as nat));
    }
}

/// The assembler was fed, in order, the fragments `items` of `payload`:
/// `states` are its successive parts, `datas` what each fragment carried and
/// `results` what each insert returned.
pub open spec fn fed_in_order(
    items: Seq<(u32, crate::packet::PacketType)>,
    states: Seq<SnapshotIngress<u8>>,
    datas: Seq<Vec<u8>>,
    results: Seq<Option<BuiltSnapshot<u8>>>,
) -> bool {
    &&& states.len() == items.len() + 1
    &&& datas.len() == items.len()
    &&& results.len() == items.len()
    &&& forall|i: int|
        0 <= i < items.len() ==> match (#[trigger] items[i]).1 {
            crate::packet::PacketType::Fragment { packet_id: id, fragment_idx, total_fragments, data, .. } => {
                &&& datas[i]@ == data@
                &&& snapshot_pushed(states[i], states[i + 1], id as u32, false, fragment_idx, total_fragments, datas[i], results[i])
            },
            _ => false,
        }
}

proof fn lemma_reassembly_upto(
    items: Seq<(u32, crate::packet::PacketType)>,
    payload: Seq<u8>,
    limits: PayloadLimits,
    session: u64,
    stream: u8,
    first_seq: u32,
    packet_id: u16,
    states: Seq<SnapshotIngress<u8>>,
    datas: Seq<Vec<u8>>,
    results: Seq<Option<BuiltSnapshot<u8>>>,
    k: nat,
)
    requires
        message_packets(items, payload, limits, session, stream, first_seq, packet_id),
        payload.len() > limits.reliable,
        limits.fragment > 0,
        items.len() == fragment_count(payload.len(), limits.fragment as nat),
        items.len() <= MAX_FRAGMENTS,
        fed_in_order(items, states, datas, results),
        states[0].part_count_view() != items.len() || states[0].generation_view() != packet_id as u32,
        1 <= k <= items.len(),
    ensures
        forall|i: int| 0 <= i < k - 1 ==> #[trigger] results[i] is None,
        k < items.len() ==> {
            &&& results[k - 1] is None
            &&& states[k as int].generation_view() == packet_id as u32
            &&& states[k as int].part_count_view() == items.len()
            &&& states[k as int].parts_view() == prefix_slots(datas, k as int, items.len())
        },
        k == items.len() ==> (results[k - 1] matches Some(built) && built.entities@ == payload),
    decreases k,
{
    let n = items.len();
    let chunk = limits.fragment as nat;
    let j = k - 1;
    if k > 1 {
        lemma_reassembly_upto(items, payload, limits, session, stream, first_seq, packet_id, states, datas, results, (k - 1) as nat);
    }
    assert(items[j] == items[j]);
    let prev = if j == 0 { empty_slots::<u8>(n) } else { prefix_slots(datas, j, n) };
    assert(prev.update(j, Some(datas[j])) =~= prefix_slots(datas, k as int, n));
    lemma_count_prefix(datas, k, n);
    if k == n {
        assert forall|i: int| 0 <= i < n implies (#[trigger] datas[i])@ == fragment_bytes(payload, chunk, i as nat) by {
            assert(items[i] == items[i]);
        }
        lemma_joined_prefix_slots(payload, chunk, datas, n);
        lemma_fragments_rejoin(payload, chunk);
    }
}

/// The fragments a message was queued as, taken by an assembler in the order
/// they were queued (each with its own packet id, index and count), give the
/// message back with the last one, and nothing before it, from any assembler
/// that is not part way through this same message.
pub proof fn lemma_fragments_reassemble(
    items: Seq<(u32, crate::packet::PacketType)>,
    payload: Seq<u8>,
    limits: PayloadLimits,
    session: u64,
    stream: u8,
    first_seq: u32,
    packet_id: u16,
    states: Seq<SnapshotIngress<u8>>,
    datas: Seq<Vec<u8>>,
    results: Seq<Option<BuiltSnapshot<u8>>>,
)
    requires
        message_packets(items, payload, limits, session, stream, first_seq, packet_id),
        payload.len() > limits.reliable,
        limits.fragment > 0,
        fragment_count(payload.len(), limits.fragment as nat) <= MAX_FRAGMENTS,
        fed_in_order(items, states, datas, results),
        states[0].part_count_view() != items.len() || states[0].generation_view() != packet_id as u32,
    ensures
        items.len() >= 1,
        forall|i: int| 0 <= i < items.len() - 1 ==> #[trigger] results[i] is None,
        results[items.len() - 1] matches Some(built) && built.entities@ == payload,
{
    let chunk = limits.fragment as nat;
    let n = fragment_count(payload.len(), chunk);
    assert(n >= 1) by (nonlinear_arith)
        requires
            chunk > 0,
            payload.len() >= 1,
            n == ((payload.len() + chunk - 1) / (chunk as int)) as nat,
    ;
    lemma_reassembly_upto(items, payload, limits, session, stream, first_seq, packet_id, states, datas, results, n);
}

/// A reliable packet as it arrived: a whole message, or one fragment of one.
pub enum ReliableBody {
    Complete(Vec<u8>),
    Fragment { packet_id: u16, fragment_idx: u16, total_fragments: u16, data: Vec<u8> },
}

/// Takes in reliable packet `sequence` of `stream`, on the state channel when
/// `stream` is `STREAM_STATE` and on the event channel otherwise. The packet is
/// owed an acknowledgement, so `(stream, sequence)` joins `acks`. A packet seen
/// before gives nothing; a new one gives its message when whole, and otherwise
/// goes to `assembler`, which gives the message once its last fragment is in.
pub fn receive_reliable(
    reliable: &mut ReliableChannel,
    state: &mut ReliableChannel,
    assembler: &mut FragmentAssembler,
    acks: &mut Vec<(u8, u32)>,
    stream: u8,
    sequence: u32,
    body: ReliableBody,
) -> (m: Option<Vec<u8>>)
    requires
        old(reliable).wf(),
        old(state).wf(),
        old(assembler).wf(),
    ensures
        final(reliable).wf(),
        final(state).wf(),
        final(assembler).wf(),
        final(acks)@ == old(acks)@.push((stream, sequence)),
        stream == STREAM_STATE ==> *final(reliable) == *old(reliable)
            && tracked_receipt(*old(state), *final(state), sequence, old(state).received_view().contains(sequence)),
        stream != STREAM_STATE ==> *final(state) == *old(state)
            && tracked_receipt(*old(reliable), *final(reliable), sequence, old(reliable).received_view().contains(sequence)),
        ({
            let duplicate = if stream == STREAM_STATE {
                old(state).received_view().contains(sequence)
            } else {
                old(reliable).received_view().contains(sequence)
            };
            if duplicate {
                m is None && *final(assembler) == *old(assembler)
            } else {
                match body {
                    ReliableBody::Complete(payload) => m == Some(payload) && *final(assembler) == *old(assembler),
                    ReliableBody::Fragment { packet_id, fragment_idx, total_fragments, data } => snapshot_pushed(
                        old(assembler).parts_view(),
                        final(assembler).parts_view(),
                        packet_id as u32,
                        false,
                        fragment_idx,
                        total_fragments,
                        data,
                        match m {
                            Some(v) => Some(BuiltSnapshot { reset: false, entities: v }),
                            None => None,
                        },
                    ),
                }
            }
        }),
{
    acks.push((stream, sequence));
    let duplicate = if stream == STREAM_STATE {
        state.is_duplicate_and_track(sequence)
    } else {
        reliable.is_duplicate_and_track(sequence)
    };
    if duplicate {
        return None;
    }
    match body {
        ReliableBody::Complete(payload) => Some(payload),
        ReliableBody::Fragment { packet_id, fragment_idx, total_fragments, data } => {
            assembler.insert(packet_id, fragment_idx, total_fragments, data)
        },
    }
}

/// The slot of part `i` after the first `k` of a series of pushes with parts
/// `parts` and items `ents`: the items of the first push of part `i`, if any.
pub open spec fn slot_after<T>(parts: Seq<u16>, ents: Seq<Vec<T>>, i: int, k: nat) -> Option<Vec<T>>
    decreases k,
{
    if k == 0 {
        None
    } else {
        let prev = slot_after(parts, ents, i, (k - 1) as nat);
        if prev is None && parts[k - 1] == i {
            Some(ents[k - 1])
        } else {
            prev
        }
    }
}

/// The `n` slots after the first `k` pushes of a series.
pub open spec fn slots_after<T>(parts: Seq<u16>, ents: Seq<Vec<T>>, n: nat, k: nat) -> Seq<Option<Vec<T>>> {
    Seq::new(n, |i: int| slot_after(parts, ents, i, k))
}

/// The reset flag after the first `k` pushes of a series: that of the latest
/// push of part 0, or false when there was none.
pub open spec fn reset_after(parts: Seq<u16>, resets: Seq<bool>, k: nat) -> bool
    decreases k,
{
    if k == 0 {
        false
    } else if parts[k - 1] == 0 {
        resets[k - 1]
    } else {
        reset_after(parts, resets, (k - 1) as nat)
    }
}

proof fn lemma_count_all_some<T>(s: Seq<Option<Vec<T>>>)
    requires
        forall|i: int| 0 <= i < s.len() ==> #[trigger] s[i] is Some,
    ensures
        count_filled(s) == s.len(),
    decreases s.len(),
{
    if s.len() > 0 {
        assert forall|i: int| 0 <= i < s.drop_last().len() implies #[trigger] s.drop_last()[i] is Some by {
            assert(s.drop_last()[i] == s[i]);
        }
        lemma_count_all_some(s.drop_last());
        assert(s.last() == s[s.len() - 1]);
    }
}

proof fn lemma_slot_stays<T>(parts: Seq<u16>, ents: Seq<Vec<T>>, i: int, k1: nat, k2: nat)
    requires
        k1 <= k2,
        slot_after(parts, ents, i, k1) is Some,
    ensures
        slot_after(parts, ents, i, k2) is Some,
    decreases k2,
{
    if k2 > k1 {
        lemma_slot_stays(parts, ents, i, k1, (k2 - 1) as nat);
    }
}

/// A series of pushes of parts of one snapshot (one generation `g`, one part
/// count `n`), from an ingress that is not part way through that snapshot,
/// gives nothing until the push at which every part has arrived; that push
/// gives the snapshot, each part's items being those of its first push, joined
/// in part order, with the reset flag of the latest push of part 0. Pushes may
/// come in any order and repeat parts.
pub proof fn lemma_snapshot_series<T>(
    g: u32,
    n: u16,
    parts: Seq<u16>,
    resets: Seq<bool>,
    ents: Seq<Vec<T>>,
    states: Seq<SnapshotIngress<T>>,
    results: Seq<Option<BuiltSnapshot<T>>>,
)
    requires
        1 <= n <= MAX_BATCH_PARTS,
        parts.len() >= 1,
        resets.len() == parts.len(),
        ents.len() == parts.len(),
        results.len() == parts.len(),
        states.len() == parts.len() + 1,
        states[0].part_count_view() != n || states[0].generation_view() != g,
        forall|j: int|
            0 <= j < parts.len() ==> #[trigger] parts[j] < n && snapshot_pushed(states[j], states[j + 1], g, resets[j], parts[j], n, ents[j], results[j]),
        forall|i: int| 0 <= i < n ==> #[trigger] slot_after(parts, ents, i, parts.len()) is Some,
        exists|i: int| 0 <= i < n && #[trigger] slot_after(parts, ents, i, (parts.len() - 1) as nat) is None,
    ensures
        forall|j: int| 0 <= j < parts.len() - 1 ==> #[trigger] results[j] is None,
        results[parts.len() - 1] matches Some(b) && b.entities@ == joined_parts(slots_after(parts, ents, n as nat, parts.len()))
            && b.reset == reset_after(parts, resets, parts.len()),
{
    lemma_snapshot_series_upto(g, n, parts, resets, ents, states, results, parts.len());
}

proof fn lemma_snapshot_series_upto<T>(
    g: u32,
    n: u16,
    parts: Seq<u16>,
    resets: Seq<bool>,
    ents: Seq<Vec<T>>,
    states: Seq<SnapshotIngress<T>>,
    results: Seq<Option<BuiltSnapshot<T>>>,
    k: nat,
)
    requires
        1 <= n <= MAX_BATCH_PARTS,
        parts.len() >= 1,
        resets.len() == parts.len(),
        ents.len() == parts.len(),
        results.len() == parts.len(),
        states.len() == parts.len() + 1,
        states[0].part_count_view() != n || states[0].generation_view() != g,
        forall|j: int|
            0 <= j < parts.len() ==> #[trigger] parts[j] < n && snapshot_pushed(states[j], states[j + 1], g, resets[j], parts[j], n, ents[j], results[j]),
        forall|i: int| 0 <= i < n ==> #[trigger] slot_after(parts, ents, i, parts.len()) is Some,
        exists|i: int| 0 <= i < n && #[trigger] slot_after(parts, ents, i, (parts.len() - 1) as nat) is None,
        1 <= k <= parts.len(),
    ensures
        forall|j: int| 0 <= j < k - 1 ==> #[trigger] results[j] is None,
        k < parts.len() ==> {
            &&& results[k - 1] is None
            &&& states[k as int].generation_view() == g
            &&& states[k as int].part_count_view() == n
            &&& states[k as int].parts_view() == slots_after(parts, ents, n as nat, k)
            &&& states[k as int].reset_view() == reset_after(parts, resets, k)
        },
        k == parts.len() ==> (results[k - 1] matches Some(b) && b.entities@ == joined_parts(slots_after(parts, ents, n as nat, k))
            && b.reset == reset_after(parts, resets, k)),
    decreases k,
{
    let m = parts.len();
    let j = k - 1;
    if k > 1 {
        lemma_snapshot_series_upto(g, n, parts, resets, ents, states, results, (k - 1) as nat);
    }
    assert(parts[j] < n && snapshot_pushed(states[j], states[j + 1], g, resets[j], parts[j], n, ents[j], results[j]));
    let prev = slots_after(parts, ents, n as nat, j as nat);
    if j == 0 {
        assert(prev =~= empty_slots::<T>(n as nat));
    }
    let p = parts[j] as int;
    let restart = states[j].part_count_view() != n || states[j].generation_view() != g;
    assert(restart == (j == 0));
    let slots = if restart { empty_slots::<T>(n as nat) } else { states[j].parts_view() };
    assert(slots =~= prev);
    let base_reset = if restart { false } else { states[j].reset_view() };
    assert(base_reset == reset_after(parts, resets, j as nat));
    assert(reset_after(parts, resets, k) == if parts[j] == 0 { resets[j] } else { base_reset });
    let stored = if prev[p] is None { prev.update(p, Some(ents[j])) } else { prev };
    assert(stored =~= slots_after(parts, ents, n as nat, k));
    if k == m {
        assert forall|i: int| 0 <= i < stored.len() implies #[trigger] stored[i] is Some by {
            assert(slot_after(parts, ents, i, m) is Some);
        }
        lemma_count_all_some(stored);
    } else {
        let i0 = choose|i: int| 0 <= i < n && #[trigger] slot_after(parts, ents, i, (m - 1) as nat) is None;
        if slot_after(parts, ents, i0, k) is Some {
            lemma_slot_stays(parts, ents, i0, k, (m - 1) as nat);
        }
        assert(stored[i0] is None);
        lemma_count_bound(stored);
    }
}

/// Once every slot holds its part, the joined result holds the parts' items in
/// slot order: the items of slot `i` follow those of all slots before it.
pub proof fn lemma_joined_in_order<T>(parts: Seq<Option<Vec<T>>>, i: int)
    requires
        0 <= i < parts.len(),
        parts[i] is Some,
    ensures
        joined_parts(parts.take(i + 1)) == joined_parts(parts.take(i)) + parts[i]->0@,
{
    assert(parts.take(i + 1).drop_last() =~= parts.take(i));
}

} // verus!
