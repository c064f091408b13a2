use std::sync::Arc;
use vstd::prelude::*;
use crate::bytes::{le_bytes, le_value};

verus! {

/// Largest number of fragments a single message may be split into.
pub const MAX_FRAGMENTS: u16 = 64;

/// Largest datagram the transport puts on the wire.
pub const MAX_DATAGRAM: usize = 1200;

/// Reliable stream that carries events.
pub const STREAM_EVENT: u8 = 0;

/// Reliable stream that carries world state.
pub const STREAM_STATE: u8 = 1;

/// One piece of a bundle datagram.
#[derive(Debug)]
pub enum BundlePart {
    Reliable { stream: u8, sequence: u32, payload: Arc<Vec<u8>> },
    Fragment {
        stream: u8,
        sequence: u32,
        packet_id: u16,
        fragment_idx: u16,
        total_fragments: u16,
        data: Arc<Vec<u8>>,
    },
    Unreliable { sequence: u32, payload: Arc<Vec<u8>> },
    UnreliableFragment { sequence: u32, fragment_idx: u16, total_fragments: u16, data: Arc<Vec<u8>> },
}

/// A reliable message stamped with the connection generation it belongs to.
#[derive(Clone, Debug)]
pub struct ReliableFrame {
    pub generation: u32,
    pub payload: Vec<u8>,
}

/// Every datagram the protocol exchanges.
#[derive(Debug)]
pub enum PacketType {
    Unreliable { session: u64, sequence: u32, payload: Arc<Vec<u8>> },
    Reliable { session: u64, stream: u8, sequence: u32, payload: Arc<Vec<u8>> },
    Ack { session: u64, cumulative: u32, selective: u32, state_cumulative: u32, state_selective: u32 },
    Connect { replace: Option<u64> },
    Challenge { token: u64 },
    ChallengeResponse { token: u64 },
    Connected { session: u64, generation: u32 },
    KeepAlive { session: u64 },
    Disconnect { session: u64 },
    Fragment {
        session: u64,
        stream: u8,
        sequence: u32,
        packet_id: u16,
        fragment_idx: u16,
        total_fragments: u16,
        data: Arc<Vec<u8>>,
    },
    Bundle {
        session: u64,
        ack: bool,
        cumulative: u32,
        selective: u32,
        state_cumulative: u32,
        state_selective: u32,
        parts: Vec<BundlePart>,
    },
}

impl Clone for BundlePart {
    /// Another part with the same fields; the payload bytes are shared, not copied.
    fn clone(&self) -> (r: Self)
        ensures
            r == *self,
    {
        match self {
            BundlePart::Reliable { stream, sequence, payload } => BundlePart::Reliable {
                stream: *stream,
                sequence: *sequence,
                payload: arc_clone(payload),
            },
            BundlePart::Fragment { stream, sequence, packet_id, fragment_idx, total_fragments, data } => {
                BundlePart::Fragment {
                    stream: *stream,
                    sequence: *sequence,
                    packet_id: *packet_id,
                    fragment_idx: *fragment_idx,
                    total_fragments: *total_fragments,
                    data: arc_clone(data),
                }
            },
            BundlePart::Unreliable { sequence, payload } => BundlePart::Unreliable {
                sequence: *sequence,
                payload: arc_clone(payload),
            },
            BundlePart::UnreliableFragment { sequence, fragment_idx, total_fragments, data } => {
                BundlePart::UnreliableFragment {
                    sequence: *sequence,
                    fragment_idx: *fragment_idx,
                    total_fragments: *total_fragments,
                    data: arc_clone(data),
                }
            },
        }
    }
}

/// A copy of a list of bundle parts.
pub fn clone_parts(parts: &Vec<BundlePart>) -> (r: Vec<BundlePart>)
    ensures
        r@ == parts@,
{
    let mut out: Vec<BundlePart> = Vec::with_capacity(parts.len());
    let mut i: usize = 0;
    while i < parts.len()
        invariant
            i <= parts@.len(),
            out@ == parts@.subrange(0, i as int),
        decreases parts@.len() - i,
    {
        out.push(parts[i].clone());
        i = i + 1;
        proof {
            assert(out@ =~= parts@.subrange(0, i as int));
        }
    }
    proof {
        assert(parts@.subrange(0, parts@.len() as int) =~= parts@);
    }
    out
}

/// `a` and `b` carry the same data: equal fields, and for bundles equal lists of parts.
pub open spec fn same_packet(a: PacketType, b: PacketType) -> bool {
    match (a, b) {
        (
            PacketType::Bundle { session: s1, ack: a1, cumulative: c1, selective: l1, state_cumulative: sc1, state_selective: sl1, parts: p1 },
            PacketType::Bundle { session: s2, ack: a2, cumulative: c2, selective: l2, state_cumulative: sc2, state_selective: sl2, parts: p2 },
        ) => s1 == s2 && a1 == a2 && c1 == c2 && l1 == l2 && sc1 == sc2 && sl1 == sl2 && p1@ == p2@,
        _ => a == b,
    }
}

impl Clone for PacketType {
    /// Another packet with the same fields; payload bytes are shared, not copied.
    fn clone(&self) -> (r: Self)
        ensures
            same_packet(r, *self),
            !(*self is Bundle) ==> r == *self,
    {
        match self {
            PacketType::Unreliable { session, sequence, payload } => PacketType::Unreliable {
                session: *session,
                sequence: *sequence,
                payload: arc_clone(payload),
            },
            PacketType::Reliable { session, stream, sequence, payload } => PacketType::Reliable {
                session: *session,
                stream: *stream,
                sequence: *sequence,
                payload: arc_clone(payload),
            },
            PacketType::Ack { session, cumulative, selective, state_cumulative, state_selective } => {
                PacketType::Ack {
                    session: *session,
                    cumulative: *cumulative,
                    selective: *selective,
                    state_cumulative: *state_cumulative,
                    state_selective: *state_selective,
                }
            },
            PacketType::Connect { replace } => PacketType::Connect {
                replace: match replace {
                    Some(s) => Some(*s),
                    None => None,
                },
            },
            PacketType::Challenge { token } => PacketType::Challenge { token: *token },
            PacketType::ChallengeResponse { token } => PacketType::ChallengeResponse { token: *token },
            PacketType::Connected { session, generation } => PacketType::Connected {
                session: *session,
                generation: *generation,
            },
            PacketType::KeepAlive { session } => PacketType::KeepAlive { session: *session },
            PacketType::Disconnect { session } => PacketType::Disconnect { session: *session },
            PacketType::Fragment { session, stream, sequence, packet_id, fragment_idx, total_fragments, data } => {
                PacketType::Fragment {
                    session: *session,
                    stream: *stream,
                    sequence: *sequence,
                    packet_id: *packet_id,
                    fragment_idx: *fragment_idx,
                    total_fragments: *total_fragments,
                    data: arc_clone(data),
                }
            },
            PacketType::Bundle { session, ack, cumulative, selective, state_cumulative, state_selective, parts } => {
                PacketType::Bundle {
                    session: *session,
                    ack: *ack,
                    cumulative: *cumulative,
                    selective: *selective,
                    state_cumulative: *state_cumulative,
                    state_selective: *state_selective,
                    parts: clone_parts(parts),
                }
            },
        }
    }
}

/// The largest payload that fits in one datagram for each kind of bundle part.
///
/// The values depend on how the wire encoder frames a bundle; they are measured
/// by `sizing::reliable_payload_limit` and its siblings, with the encoder as
/// the measure, and then handed to the logic here.
#[derive(Clone, Copy, Debug, PartialEq, Eq)]
pub struct PayloadLimits {
    pub reliable: usize,
    pub fragment: usize,
    pub unreliable: usize,
    pub unreliable_fragment: usize,
}

/// `ceil(len / chunk)`, the number of chunks of size `chunk` that cover `len` bytes.
pub open spec fn fragment_count(len: nat, chunk: nat) -> nat {
    if chunk == 0 {
        0
    } else {
        ((len + chunk - 1) / chunk as int) as nat
    }
}

/// The `i`-th chunk of `payload` when it is cut into pieces of `chunk` bytes.
pub open spec fn fragment_bytes(payload: Seq<u8>, chunk: nat, i: nat) -> Seq<u8> {
    let start: int = (i * chunk) as int;
    let end: int = if start + chunk <= payload.len() { start + chunk } else { payload.len() as int };
    payload.subrange(start as int, end)
}

/// The first `k` chunks of `payload`, joined in order.
pub open spec fn joined_fragments(payload: Seq<u8>, chunk: nat, k: nat) -> Seq<u8>
    decreases k,
{
    if k == 0 {
        Seq::empty()
    } else {
        joined_fragments(payload, chunk, (k - 1) as nat) + fragment_bytes(payload, chunk, (k - 1) as nat)
    }
}

/// What `encoded_packet_count` answers for a payload of `len` bytes.
pub open spec fn spec_encoded_packet_count(len: nat, limits: PayloadLimits) -> Option<nat> {
    if len <= limits.reliable {
        Some(1)
    } else if limits.fragment == 0 {
        None
    } else if fragment_count(len, limits.fragment as nat) > MAX_FRAGMENTS {
        None
    } else {
        Some(fragment_count(len, limits.fragment as nat))
    }
}

/// The bytes a bundle part carries, whatever its kind.
pub open spec fn part_bytes(part: BundlePart) -> Seq<u8> {
    match part {
        BundlePart::Reliable { payload, .. } => payload@,
        BundlePart::Fragment { data, .. } => data@,
        BundlePart::Unreliable { payload, .. } => payload@,
        BundlePart::UnreliableFragment { data, .. } => data@,
    }
}

proof fn lemma_ceil_div(len: nat, chunk: nat, n: nat)
    requires
        chunk > 0,
        n * chunk >= len,
        n == 0 || (n - 1) * chunk < len,
    ensures
        fragment_count(len, chunk) == n,
{
    if n == 0 {
        assert(len == 0) by (nonlinear_arith)
            requires n * chunk >= len, n == 0;
        assert((chunk - 1) / (chunk as int) == 0) by (nonlinear_arith)
            requires chunk > 0;
    } else {
        let m = (n - 1) as nat;
        assert(m * chunk < len);
        assert(n * chunk == m * chunk + chunk) by (nonlinear_arith)
            requires n == m + 1;
        let a = (len + chunk - 1) as int;
        assert(m * chunk <= a - chunk + 1 - 1 + chunk - chunk) by (nonlinear_arith)
            requires m * chunk < len, a == len + chunk - 1;
        assert(a / (chunk as int) == n) by (nonlinear_arith)
            requires
                chunk > 0,
                a == len + chunk - 1,
                (n - 1) * chunk < len,
                n * chunk >= len,
                n >= 1;
    }
}

proof fn lemma_joined_prefix(payload: Seq<u8>, chunk: nat, k: nat)
    requires
        chunk > 0,
        (k as int - 1) * chunk < payload.len() || k == 0,
    ensures
        joined_fragments(payload, chunk, k) == payload.subrange(
            0,
            if k * chunk <= payload.len() { (k * chunk) as int } else { payload.len() as int },
        ),
    decreases k,
{
    if k == 0 {
        assert(k * chunk == 0) by (nonlinear_arith)
            requires k == 0;
    } else {
        let m = (k - 1) as nat;
        assert(k * chunk == m * chunk + chunk) by (nonlinear_arith)
            requires k == m + 1;
        assert(m * chunk < payload.len());
        if m > 0 {
            assert((m - 1) * chunk < m * chunk) by (nonlinear_arith)
                requires m > 0, chunk > 0;
        }
        lemma_joined_prefix(payload, chunk, m);
        assert(m * chunk <= payload.len());
        assert(joined_fragments(payload, chunk, k) =~= payload.subrange(
            0,
            if k * chunk <= payload.len() { (k * chunk) as int } else { payload.len() as int },
        ));
    }
}

/// Cutting a payload into chunks and joining the chunks in order gives the
/// payload back.
pub proof fn lemma_fragments_rejoin(payload: Seq<u8>, chunk: nat)
    requires
        chunk > 0,
    ensures
        joined_fragments(payload, chunk, fragment_count(payload.len(), chunk)) == payload,
{
    let n = fragment_count(payload.len(), chunk);
    let len = payload.len();
    let a = (len + chunk - 1) as int;
    assert(n * chunk >= len && (n == 0 || (n - 1) * chunk < len)) by (nonlinear_arith)
        requires
            chunk > 0,
            a == len + chunk - 1,
            n == a / (chunk as int),
    ;
    lemma_joined_prefix(payload, chunk, n);
    assert(payload.subrange(0, len as int) =~= payload);
}

/// Cuts `payload` into consecutive chunks of `chunk` bytes; the last one may be
/// shorter.
pub fn split_chunks(payload: &[u8], chunk: usize) -> (chunks: Vec<Vec<u8>>)
    requires
        chunk > 0,
    ensures
        chunks@.len() == fragment_count(payload@.len() as nat, chunk as nat),
        forall|i: int|
            0 <= i < chunks@.len() ==> #[trigger] chunks@[i]@ == fragment_bytes(
                payload@,
                chunk as nat,
                i as nat,
            ),
{
    let len = payload.len();
    let mut chunks: Vec<Vec<u8>> = Vec::new();
    let mut offset: usize = 0;
    proof {
        assert(chunks@.len() * chunk == 0) by (nonlinear_arith)
            requires chunks@.len() == 0;
    }
    while offset < len
        invariant
            chunk > 0,
            len == payload@.len(),
            offset <= len,
            offset < len ==> offset == chunks@.len() * chunk,
            offset == len ==> chunks@.len() * chunk >= len,
            chunks@.len() == 0 ==> offset == 0,
            chunks@.len() == 0 || (chunks@.len() - 1) * chunk < len,
            forall|i: int|
                0 <= i < chunks@.len() ==> #[trigger] chunks@[i]@ == fragment_bytes(
                    payload@,
                    chunk as nat,
                    i as nat,
                ),
        decreases len - offset,
    {
        let end: usize = if chunk >= len - offset {
            len
        } else {
            offset + chunk
        };
        let piece = vstd::slice::slice_to_vec(vstd::slice::slice_subrange(payload, offset, end));
        proof {
            let k = chunks@.len();
            assert(offset == k * chunk);
            assert(piece@ == fragment_bytes(payload@, chunk as nat, k as nat));
            assert((k + 1) * chunk == k * chunk + chunk) by (nonlinear_arith);
        }
        chunks.push(piece);
        offset = end;
    }
    proof {
        lemma_ceil_div(len as nat, chunk as nat, chunks@.len() as nat);
    }
    chunks
}

/// `Arc::clone`: a second handle to the same shared bytes.
#[verifier::external_body]
fn arc_clone(a: &Arc<Vec<u8>>) -> (r: Arc<Vec<u8>>)
    ensures
        r == *a,
{
    Arc::clone(a)
}

/// `Arc::try_unwrap`: the bytes themselves when this is the only handle, the
/// handle back otherwise; either way the same bytes.
#[verifier::external_body]
fn arc_try_unwrap(a: Arc<Vec<u8>>) -> (r: Result<Vec<u8>, Arc<Vec<u8>>>)
    ensures
        match r {
            Ok(v) => v@ == a@,
            Err(b) => b == a,
        },
{
    Arc::try_unwrap(a)
}

/// The bundle part that carries the same data as `packet`, for the kinds of
/// packet that can travel inside a bundle.
pub open spec fn spec_bundle_part(packet: PacketType) -> Option<BundlePart> {
    match packet {
        PacketType::Reliable { stream, sequence, payload, .. } => Some(
            BundlePart::Reliable { stream, sequence, payload },
        ),
        PacketType::Fragment { stream, sequence, packet_id, fragment_idx, total_fragments, data, .. } => Some(
            BundlePart::Fragment { stream, sequence, packet_id, fragment_idx, total_fragments, data },
        ),
        PacketType::Unreliable { sequence, payload, .. } => Some(
            BundlePart::Unreliable { sequence, payload },
        ),
        _ => None,
    }
}

/// Converts a reliable, fragment or unreliable packet into the part that
/// carries it inside a bundle; every other packet gives `None`.
pub fn bundle_part(packet: &PacketType) -> (r: Option<BundlePart>)
    ensures
        r == spec_bundle_part(*packet),
{
    match packet {
        PacketType::Reliable { stream, sequence, payload, .. } => Some(
            BundlePart::Reliable { stream: *stream, sequence: *sequence, payload: arc_clone(payload) },
        ),
        PacketType::Fragment { stream, sequence, packet_id, fragment_idx, total_fragments, data, .. } => Some(
            BundlePart::Fragment {
                stream: *stream,
                sequence: *sequence,
                packet_id: *packet_id,
                fragment_idx: *fragment_idx,
                total_fragments: *total_fragments,
                data: arc_clone(data),
            },
        ),
        PacketType::Unreliable { sequence, payload, .. } => Some(
            BundlePart::Unreliable { sequence: *sequence, payload: arc_clone(payload) },
        ),
        _ => None,
    }
}

/// A packet goes into a bundle exactly when it is a reliable message, a
/// fragment or an unreliable message, and its part keeps the packet's kind,
/// stream, sequence, fragment numbering and bytes.
pub proof fn lemma_bundle_part_keeps_data(packet: PacketType)
    ensures
        (spec_bundle_part(packet) is Some) == (packet is Reliable || packet is Fragment || packet is Unreliable),
        packet matches PacketType::Reliable { stream, sequence, payload, .. } ==> (spec_bundle_part(packet)
            matches Some(BundlePart::Reliable { stream: s, sequence: q, payload: b }) && s == stream && q == sequence
            && b@ == payload@),
        packet matches PacketType::Fragment { stream, sequence, packet_id, fragment_idx, total_fragments, data, .. }
            ==> (spec_bundle_part(packet) matches Some(
            BundlePart::Fragment { stream: s, sequence: q, packet_id: id, fragment_idx: i, total_fragments: t, data: b },
        ) && s == stream && q == sequence && id == packet_id && i == fragment_idx && t == total_fragments && b@ == data@),
        packet matches PacketType::Unreliable { sequence, payload, .. } ==> (spec_bundle_part(packet) matches Some(
            BundlePart::Unreliable { sequence: q, payload: b },
        ) && q == sequence && b@ == payload@),
{
}

/// Takes the bytes out of a shared payload, copying them only when another
/// handle still holds them.
pub fn owned_payload(payload: Arc<Vec<u8>>) -> (r: Vec<u8>)
    ensures
        r@ == payload@,
{
    match arc_try_unwrap(payload) {
        Ok(bytes) => bytes,
        Err(shared) => vstd::slice::slice_to_vec(shared.as_slice()),
    }
}

/// How many packets a reliable message of `payload_len` bytes becomes: one when
/// it fits a reliable part, else one per fragment, and `None` when it needs more
/// than `MAX_FRAGMENTS` fragments (or fragments cannot carry any byte).
pub fn encoded_packet_count(payload_len: usize, limits: &PayloadLimits) -> (r: Option<usize>)
    ensures
        match r {
            Some(n) => spec_encoded_packet_count(payload_len as nat, *limits) == Some(n as nat),
            None => spec_encoded_packet_count(payload_len as nat, *limits) is None,
        },
{
    if payload_len <= limits.reliable {
        return Some(1);
    }
    let chunk_len = limits.fragment;
    if chunk_len == 0 {
        return None;
    }
    let count = div_ceil(payload_len, chunk_len);
    if count > MAX_FRAGMENTS as usize {
        return None;
    }
    Some(count)
}

/// `ceil(a / b)` without overflow.
pub fn div_ceil(a: usize, b: usize) -> (r: usize)
    requires
        b > 0,
    ensures
        r as nat == fragment_count(a as nat, b as nat),
{
    let q = a / b;
    proof {
        assert(q * b <= a && (a % b != 0 ==> q < a)) by (nonlinear_arith)
            requires q == a / b, b > 0;
    }
    let r = if a % b != 0 {
        q + 1
    } else {
        q
    };
    proof {
        assert(q * b + a % b == a && a % b < b) by (nonlinear_arith)
            requires q == a / b, b > 0;
        if a % b != 0 {
            assert(r * b >= a && (r - 1) * b < a) by (nonlinear_arith)
                requires r == q + 1, q * b + a % b == a, a % b < b, a % b > 0;
        } else {
            assert(r * b >= a && (r == 0 || (r - 1) * b < a)) by (nonlinear_arith)
                requires r == q, q * b + a % b == a, a % b == 0, b > 0;
        }
        lemma_ceil_div(a as nat, b as nat, r as nat);
    }
    r
}

/// The longest unreliable message: `MAX_FRAGMENTS` unreliable fragments, or
/// `usize::MAX` when that product does not fit.
pub fn unreliable_message_limit(limits: &PayloadLimits) -> (r: usize)
    ensures
        r == if limits.unreliable_fragment * MAX_FRAGMENTS > usize::MAX {
            usize::MAX as int
        } else {
            limits.unreliable_fragment * MAX_FRAGMENTS
        },
{
    match limits.unreliable_fragment.checked_mul(MAX_FRAGMENTS as usize) {
        Some(n) => n,
        None => usize::MAX,
    }
}

/// The parts that carry one unreliable message: a single unreliable part when it
/// fits, else `ceil(len / unreliable_fragment)` fragments, or none at all when
/// fragments carry no byte or more than `MAX_FRAGMENTS` would be needed.
pub open spec fn unreliable_fits_whole(len: nat, limits: PayloadLimits) -> bool {
    len <= limits.unreliable
}

pub open spec fn unreliable_fragmentable(len: nat, limits: PayloadLimits) -> bool {
    limits.unreliable_fragment > 0 && fragment_count(len, limits.unreliable_fragment as nat)
        <= MAX_FRAGMENTS
}

/// `part` is an unreliable part of message `sequence` carrying `bytes`.
pub open spec fn is_unreliable_part(part: BundlePart, sequence: u32, bytes: Seq<u8>) -> bool {
    match part {
        BundlePart::Unreliable { sequence: s, payload } => s == sequence && payload@ == bytes,
        _ => false,
    }
}

/// `part` is fragment `idx` of `total` of unreliable message `sequence`, carrying `bytes`.
pub open spec fn is_unreliable_fragment(part: BundlePart, sequence: u32, idx: int, total: int, bytes: Seq<u8>) -> bool {
    match part {
        BundlePart::UnreliableFragment { sequence: s, fragment_idx, total_fragments, data } => {
            &&& s == sequence
            &&& fragment_idx == idx
            &&& total_fragments == total
            &&& data@ == bytes
        },
        _ => false,
    }
}

/// Splits an unreliable message into the bundle parts that carry it.
pub fn split_unreliable(sequence: u32, payload: Vec<u8>, limits: &PayloadLimits) -> (parts: Vec<BundlePart>)
    ensures
        unreliable_fits_whole(payload@.len(), *limits) ==> parts@.len() == 1
            && is_unreliable_part(parts@[0], sequence, payload@),
        !unreliable_fits_whole(payload@.len(), *limits) && !unreliable_fragmentable(payload@.len(), *limits)
            ==> parts@.len() == 0,
        !unreliable_fits_whole(payload@.len(), *limits) && unreliable_fragmentable(payload@.len(), *limits)
            ==> {
            &&& parts@.len() == fragment_count(payload@.len(), limits.unreliable_fragment as nat)
            &&& forall|i: int|
                0 <= i < parts@.len() ==> is_unreliable_fragment(
                    #[trigger] parts@[i],
                    sequence,
                    i,
                    parts@.len() as int,
                    fragment_bytes(payload@, limits.unreliable_fragment as nat, i as nat),
                )
        },
{
    if payload.len() <= limits.unreliable {
        let mut parts = Vec::new();
        parts.push(BundlePart::Unreliable { sequence, payload: Arc::new(payload) });
        return parts;
    }
    let chunk_len = limits.unreliable_fragment;
    if chunk_len == 0 {
        return Vec::new();
    }
    let count = div_ceil(payload.len(), chunk_len);
    if count > MAX_FRAGMENTS as usize {
        return Vec::new();
    }
    let chunks = split_chunks(payload.as_slice(), chunk_len);
    let mut parts: Vec<BundlePart> = Vec::with_capacity(count);
    let mut idx: usize = 0;
    while idx < chunks.len()
        invariant
            chunks@.len() == count,
            count <= MAX_FRAGMENTS,
            idx <= count,
            parts@.len() == idx,
            forall|i: int| 0 <= i < count ==> #[trigger] chunks@[i]@ == fragment_bytes(payload@, chunk_len as nat, i as nat),
            forall|i: int|
                0 <= i < idx ==> is_unreliable_fragment(
                    #[trigger] parts@[i],
                    sequence,
                    i,
                    count as int,
                    fragment_bytes(payload@, chunk_len as nat, i as nat),
                ),
        decreases count - idx,
    {
        let data = vstd::slice::slice_to_vec(chunks[idx].as_slice());
        parts.push(
            BundlePart::UnreliableFragment {
                sequence,
                fragment_idx: idx as u16,
                total_fragments: count as u16,
                data: Arc::new(data),
            },
        );
        idx = idx + 1;
    }
    parts
}


/// The longest byte sequence the wire decoder reads by default (4 MiB); longer
/// ones are refused as too large to preallocate. The encoder has no such limit.
pub const WIRE_SEQ_LIMIT: usize = 4194304;

/// What the wire decoder reads from `bytes` as a generation followed by a
/// length-prefixed byte string: four little-endian bytes, eight little-endian
/// bytes of length `n`, then `n` bytes; anything after them is ignored. It reads
/// nothing when the input ends early or `n` exceeds `WIRE_SEQ_LIMIT`.
pub open spec fn spec_decode_frame(bytes: Seq<u8>) -> Option<(u32, Seq<u8>)> {
    if bytes.len() < 12 {
        None
    } else {
        let n = le_value(bytes.subrange(4, 12));
        if n > WIRE_SEQ_LIMIT || 12 + n > bytes.len() {
            None
        } else {
            Some((le_value(bytes.subrange(0, 4)) as u32, bytes.subrange(12, (12 + n) as int)))
        }
    }
}

/// `wincode::serialize` of a `u32`: its four bytes, little-endian (the default
/// configuration's fixed-width little-endian integers).
#[verifier::external_body]
fn wire_encode_u32(value: u32) -> (bytes: Vec<u8>)
    ensures
        bytes@ == le_bytes(value as nat, 4),
{
    wincode::serialize(&value).unwrap()
}

/// `wincode::serialize_into` of a byte slice onto the end of `dst`: its length as
/// eight little-endian bytes, then the bytes. The vector reserves room for
/// both first, which panics past `isize::MAX` bytes, so that is excluded here.
#[verifier::external_body]
fn wire_append_bytes(dst: &mut Vec<u8>, bytes: &[u8])
    requires
        old(dst)@.len() + 8 + bytes@.len() <= isize::MAX,
    ensures
        final(dst)@ == old(dst)@ + le_bytes(bytes@.len(), 8) + bytes@,
{
    wincode::serialize_into(dst, bytes).unwrap()
}

/// `wincode::deserialize` of a `(u32, Vec<u8>)` pair, as `spec_decode_frame` states.
#[verifier::external_body]
fn wire_decode_frame(bytes: &[u8]) -> (r: Option<(u32, Vec<u8>)>)
    ensures
        match r {
            Some((g, p)) => spec_decode_frame(bytes@) == Some((g, p@)),
            None => spec_decode_frame(bytes@) is None,
        },
{
    wincode::deserialize::<(u32, Vec<u8>)>(bytes).ok()
}

/// The bytes of a reliable message stamped with `generation`.
pub open spec fn spec_stamp(generation: u32, payload: Seq<u8>) -> Seq<u8> {
    le_bytes(generation as nat, 4) + le_bytes(payload.len(), 8) + payload
}

/// Frames `payload` with the connection generation it belongs to. The frame
/// is 12 bytes longer than the payload, and must fit in memory.
pub fn stamp(generation: u32, payload: &[u8]) -> (bytes: Vec<u8>)
    requires
        payload@.len() + 12 <= isize::MAX,
    ensures
        bytes@ == spec_stamp(generation, payload@),
{
    let mut bytes = wire_encode_u32(generation);
    proof {
        crate::bytes::lemma_le_bytes_len(generation as nat, 4);
    }
    wire_append_bytes(&mut bytes, payload);
    bytes
}

/// A stamped message is 12 bytes longer than its payload.
pub proof fn lemma_stamp_len(generation: u32, payload: Seq<u8>)
    ensures
        spec_stamp(generation, payload).len() == payload.len() + 12,
{
    crate::bytes::lemma_le_bytes_len(generation as nat, 4);
    crate::bytes::lemma_le_bytes_len(payload.len(), 8);
}

/// The payload of a stamped message when it belongs to `generation`.
pub open spec fn spec_unstamp(generation: u32, bytes: Seq<u8>) -> Option<Seq<u8>> {
    match spec_decode_frame(bytes) {
        Some((g, p)) => if g == generation {
            Some(p)
        } else {
            None
        },
        None => None,
    }
}

/// Removes the generation stamp, giving the payload only when the message was
/// stamped for `generation` and decodes; a message of another (stale)
/// generation gives `None`.
pub fn unstamp(generation: u32, bytes: &[u8]) -> (r: Option<Vec<u8>>)
    ensures
        match r {
            Some(p) => spec_unstamp(generation, bytes@) == Some(p@),
            None => spec_unstamp(generation, bytes@) is None,
        },
{
    let frame = match wire_decode_frame(bytes) {
        Some(frame) => frame,
        None => {
            return None;
        },
    };
    let (stamped, payload) = frame;
    if stamped != generation {
        return None;
    }
    Some(payload)
}

/// A message stamped for a generation is accepted back, unchanged, for that
/// generation and refused for every other.
pub proof fn lemma_stamp_roundtrip(generation: u32, other: u32, payload: Seq<u8>)
    requires
        payload.len() <= WIRE_SEQ_LIMIT,
        other != generation,
    ensures
        spec_unstamp(generation, spec_stamp(generation, payload)) == Some(payload),
        spec_unstamp(other, spec_stamp(generation, payload)) is None,
{
    let g4 = le_bytes(generation as nat, 4);
    let n8 = le_bytes(payload.len(), 8);
    let b = spec_stamp(generation, payload);
    crate::bytes::lemma_le_bytes_len(generation as nat, 4);
    crate::bytes::lemma_le_bytes_len(payload.len(), 8);
    crate::bytes::lemma_pow256_values();
    crate::bytes::lemma_le_roundtrip(generation as nat, 4);
    crate::bytes::lemma_le_roundtrip(payload.len(), 8);
    assert(b.subrange(0, 4) =~= g4);
    assert(b.subrange(4, 12) =~= n8);
    assert(b.subrange(12, (12 + payload.len()) as int) =~= payload);
}
} // verus!
