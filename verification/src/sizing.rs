use std::sync::Arc;
use vstd::prelude::*;
use crate::packet::{BundlePart, PacketType, MAX_DATAGRAM, STREAM_EVENT, clone_parts};

verus! {

/// `encoded_len` grows with its argument over `0..=bound`: a larger argument
/// never encodes shorter.
pub open spec fn grows<F: Fn(usize) -> usize>(encoded_len: F, bound: usize) -> bool {
    &&& forall|n: usize| n <= bound ==> #[trigger] encoded_len.requires((n,))
    &&& forall|a: usize, b: usize, la: usize, lb: usize|
        a <= b <= bound && #[trigger] encoded_len.ensures((a,), la) && #[trigger] encoded_len.ensures((b,), lb)
            ==> la <= lb
}

/// The largest payload length up to `MAX_DATAGRAM` whose packet, as measured by
/// `encoded_len`, still fits in one datagram (0 when none does).
pub fn payload_limit<F: Fn(usize) -> usize>(encoded_len: F) -> (limit: usize)
    requires
        grows(encoded_len, MAX_DATAGRAM),
    ensures
        limit <= MAX_DATAGRAM,
        limit > 0 ==> forall|l: usize| #[trigger] encoded_len.ensures((limit,), l) ==> l <= MAX_DATAGRAM,
        forall|n: usize, l: usize|
            limit < n <= MAX_DATAGRAM && #[trigger] encoded_len.ensures((n,), l) ==> l > MAX_DATAGRAM,
        limit > 0 ==> exists|l: usize| #[trigger] encoded_len.ensures((limit,), l) && l <= MAX_DATAGRAM,
        limit < MAX_DATAGRAM ==> exists|l: usize| #[trigger] encoded_len.ensures(((limit + 1) as usize,), l) && l > MAX_DATAGRAM,
{
    let mut low: usize = 0;
    let mut high: usize = MAX_DATAGRAM;
    while low < high
        invariant
            grows(encoded_len, MAX_DATAGRAM),
            low <= high <= MAX_DATAGRAM,
            low > 0 ==> forall|l: usize| #[trigger] encoded_len.ensures((low,), l) ==> l <= MAX_DATAGRAM,
            forall|n: usize, l: usize|
                high < n <= MAX_DATAGRAM && #[trigger] encoded_len.ensures((n,), l) ==> l > MAX_DATAGRAM,
            low > 0 ==> exists|l: usize| #[trigger] encoded_len.ensures((low,), l) && l <= MAX_DATAGRAM,
            high < MAX_DATAGRAM ==> exists|l: usize| #[trigger] encoded_len.ensures(((high + 1) as usize,), l) && l > MAX_DATAGRAM,
        decreases high - low,
    {
        let mid = low + (high - low + 1) / 2;
        let len = encoded_len(mid);
        if len <= MAX_DATAGRAM {
            proof {
                assert forall|l: usize| #[trigger] encoded_len.ensures((mid,), l) implies l <= MAX_DATAGRAM by {
                    assert(l <= len && len <= l);
                }
            }
            low = mid;
        } else {
            proof {
                assert forall|n: usize, l: usize|
                    mid - 1 < n <= MAX_DATAGRAM && #[trigger] encoded_len.ensures((n,), l) implies l > MAX_DATAGRAM by {
                    assert(len <= l);
                }
            }
            high = mid - 1;
            proof {
                assert(encoded_len.ensures(((high + 1) as usize,), len));
            }
        }
    }
    low
}

/// How many of the parts from `start` fit together in one datagram, where
/// `bundle_len(start, k)` measures a bundle of the `k` parts from `start` of
/// `count`: the largest such `k`, or 0 when even the part at `start` alone does
/// not fit.
pub fn fit_count<F: Fn(usize, usize) -> usize>(start: usize, count: usize, bundle_len: &F) -> (fitted: usize)
    requires
        start < count < usize::MAX,
        bundle_len_grows(*bundle_len, count),
    ensures
        fitted <= count - start,
        fitted > 0 ==> forall|l: usize| #[trigger] bundle_len.ensures((start, fitted), l) ==> l <= MAX_DATAGRAM,
        forall|n: usize, l: usize|
            fitted < n <= count - start && #[trigger] bundle_len.ensures((start, n), l) ==> l > MAX_DATAGRAM,
        fitted > 0 ==> measured_within(*bundle_len, start, fitted),
        fitted < count - start ==> measured_beyond(*bundle_len, start, (fitted + 1) as usize),
{
    let mut low: usize = 1;
    let mut high: usize = count - start;
    let mut fitted: usize = 0;
    while low <= high
        invariant
            start < count < usize::MAX,
            bundle_len_grows(*bundle_len, count),
            1 <= low <= count - start + 1,
            high <= count - start,
            fitted == low - 1,
            fitted > 0 ==> forall|l: usize| #[trigger] bundle_len.ensures((start, fitted), l) ==> l <= MAX_DATAGRAM,
            forall|n: usize, l: usize|
                high < n <= count - start && #[trigger] bundle_len.ensures((start, n), l) ==> l > MAX_DATAGRAM,
            fitted > 0 ==> measured_within(*bundle_len, start, fitted),
            high < count - start ==> measured_beyond(*bundle_len, start, (high + 1) as usize),
        decreases high + 1 - low,
    {
        let mid = low + (high - low) / 2;
        let len = bundle_len(start, mid);
        if len <= MAX_DATAGRAM {
            proof {
                assert forall|l: usize| #[trigger] bundle_len.ensures((start, mid), l) implies l <= MAX_DATAGRAM by {
                    assert(l <= len && len <= l);
                }
            }
            fitted = mid;
            low = mid + 1;
        } else if mid == 1 {
            proof {
                assert forall|n: usize, l: usize| 0 < n <= count - start && #[trigger] bundle_len.ensures((start, n), l) implies l > MAX_DATAGRAM by {
                    assert(len <= l);
                }
                assert(bundle_len.ensures((start, (0 + 1) as usize), len));
            }
            return 0;
        } else {
            proof {
                assert forall|n: usize, l: usize|
                    mid - 1 < n <= count - start && #[trigger] bundle_len.ensures((start, n), l) implies l > MAX_DATAGRAM by {
                    assert(len <= l);
                }
            }
            high = mid - 1;
            proof {
                assert(bundle_len.ensures((start, (high + 1) as usize), len));
            }
        }
    }
    fitted
}

/// A bundle packet with the given acknowledgement state carrying `parts`.
pub open spec fn is_bundle(
    packet: PacketType,
    session: u64,
    cumulative: u32,
    selective: u32,
    state_cumulative: u32,
    state_selective: u32,
    ack: bool,
    parts: Seq<BundlePart>,
) -> bool {
    match packet {
        PacketType::Bundle { session: s, ack: a, cumulative: c, selective: l, state_cumulative: sc, state_selective: sl, parts: p } => {
            &&& s == session
            &&& a == ack
            &&& c == cumulative
            &&& l == selective
            &&& sc == state_cumulative
            &&& sl == state_selective
            &&& p@ == parts
        },
        _ => false,
    }
}

/// The bundle that carries `parts` with the given acknowledgement state.
pub fn bundle_packet(
    session: u64,
    cumulative: u32,
    selective: u32,
    state_cumulative: u32,
    state_selective: u32,
    ack: bool,
    parts: &Vec<BundlePart>,
) -> (packet: PacketType)
    ensures
        is_bundle(packet, session, cumulative, selective, state_cumulative, state_selective, ack, parts@),
{
    PacketType::Bundle {
        session,
        ack,
        cumulative,
        selective,
        state_cumulative,
        state_selective,
        parts: clone_parts(parts),
    }
}

/// A bundle of session 0 acknowledging nothing that carries the single `part`,
/// used to measure how much one part can hold.
pub fn bundled_one(part: BundlePart) -> (packet: PacketType)
    ensures
        is_bundle(packet, 0, 0, 0, 0, 0, true, seq![part]),
{
    let mut parts: Vec<BundlePart> = Vec::new();
    parts.push(part);
    let packet = bundle_packet(0, 0, 0, 0, 0, true, &parts);
    proof {
        assert(parts@ =~= seq![part]);
    }
    packet
}

/// The shapes of part whose capacity is measured.
#[derive(Clone, Copy)]
pub enum PartShape {
    Reliable,
    Fragment,
    Unreliable,
    UnreliableFragment,
}

/// `p` is the probe for `shape` with `len` payload bytes: a bundle of session 0
/// acknowledging nothing that carries one part of that shape, all of whose
/// numbers are 0 (a fragment being fragment 0 of 1), with `len` zero bytes.
pub open spec fn is_probe(p: PacketType, shape: PartShape, len: nat) -> bool {
    let zeros = Seq::new(len, |i: int| 0u8);
    match p {
        PacketType::Bundle { session, ack, cumulative, selective, state_cumulative, state_selective, parts } => {
            &&& session == 0 && ack && cumulative == 0 && selective == 0
            &&& state_cumulative == 0 && state_selective == 0
            &&& parts@.len() == 1
            &&& match (shape, parts@[0]) {
                (PartShape::Reliable, BundlePart::Reliable { stream, sequence, payload }) =>
                    stream == STREAM_EVENT && sequence == 0 && payload@ == zeros,
                (PartShape::Fragment, BundlePart::Fragment { stream, sequence, packet_id, fragment_idx, total_fragments, data }) =>
                    stream == STREAM_EVENT && sequence == 0 && packet_id == 0 && fragment_idx == 0
                        && total_fragments == 1 && data@ == zeros,
                (PartShape::Unreliable, BundlePart::Unreliable { sequence, payload }) =>
                    sequence == 0 && payload@ == zeros,
                (PartShape::UnreliableFragment, BundlePart::UnreliableFragment { sequence, fragment_idx, total_fragments, data }) =>
                    sequence == 0 && fragment_idx == 0 && total_fragments == 1 && data@ == zeros,
                _ => false,
            }
        },
        _ => false,
    }
}

/// `encoded_len` gives `l` as the length of `p`.
pub open spec fn measures<F: Fn(&PacketType) -> usize>(encoded_len: &F, p: PacketType, l: usize) -> bool {
    (*encoded_len).ensures((&p,), l)
}

/// `encoded_len` measures every probe of `shape` up to `MAX_DATAGRAM` payload
/// bytes, and a probe with more bytes never measures shorter.
pub open spec fn probes_grow<F: Fn(&PacketType) -> usize>(encoded_len: &F, shape: PartShape) -> bool {
    &&& forall|n: usize, p: PacketType| n <= MAX_DATAGRAM && #[trigger] is_probe(p, shape, n as nat) ==> (*encoded_len).requires((&p,))
    &&& forall|a: usize, b: usize, pa: PacketType, pb: PacketType, la: usize, lb: usize|
        a <= b <= MAX_DATAGRAM && #[trigger] is_probe(pa, shape, a as nat) && #[trigger] is_probe(pb, shape, b as nat)
            && #[trigger] measures(encoded_len, pa, la) && #[trigger] measures(encoded_len, pb, lb) ==> la <= lb
}

/// The largest payload up to `MAX_DATAGRAM` bytes that a part of `shape` can
/// carry with its bundle, as measured by `encoded_len`, still fitting one
/// datagram (0 when none does).
pub open spec fn is_probe_limit<F: Fn(&PacketType) -> usize>(limit: usize, encoded_len: &F, shape: PartShape) -> bool {
    &&& limit <= MAX_DATAGRAM
    &&& limit > 0 ==> forall|p: PacketType, l: usize|
        #[trigger] is_probe(p, shape, limit as nat) && #[trigger] measures(encoded_len, p, l) ==> l <= MAX_DATAGRAM
    &&& forall|n: usize, p: PacketType, l: usize|
        limit < n <= MAX_DATAGRAM && #[trigger] is_probe(p, shape, n as nat) && #[trigger] measures(encoded_len, p, l)
            ==> l > MAX_DATAGRAM
}

/// The probe for `shape` with `len` payload bytes.
fn probe_packet(shape: &PartShape, len: usize) -> (p: PacketType)
    ensures
        is_probe(p, *shape, len as nat),
{
    let zeros: Vec<u8> = vec![0u8; len];
    proof {
        assert(zeros@ =~= Seq::new(len as nat, |i: int| 0u8));
    }
    let part = match shape {
        PartShape::Reliable => BundlePart::Reliable { stream: STREAM_EVENT, sequence: 0, payload: Arc::new(zeros) },
        PartShape::Fragment => BundlePart::Fragment {
            stream: STREAM_EVENT,
            sequence: 0,
            packet_id: 0,
            fragment_idx: 0,
            total_fragments: 1,
            data: Arc::new(zeros),
        },
        PartShape::Unreliable => BundlePart::Unreliable { sequence: 0, payload: Arc::new(zeros) },
        PartShape::UnreliableFragment => BundlePart::UnreliableFragment {
            sequence: 0,
            fragment_idx: 0,
            total_fragments: 1,
            data: Arc::new(zeros),
        },
    };
    let mut parts: Vec<BundlePart> = Vec::new();
    parts.push(part);
    PacketType::Bundle { session: 0, ack: true, cumulative: 0, selective: 0, state_cumulative: 0, state_selective: 0, parts }
}

/// The capacity of a part of `shape` (see `is_probe_limit`).
fn probe_limit<F: Fn(&PacketType) -> usize>(encoded_len: &F, shape: PartShape) -> (limit: usize)
    requires
        probes_grow(encoded_len, shape),
    ensures
        is_probe_limit(limit, encoded_len, shape),
{
    let measure = |len: usize| -> (l: usize)
        requires
            len <= MAX_DATAGRAM,
            probes_grow(encoded_len, shape),
        ensures
            exists|p: PacketType| #[trigger] is_probe(p, shape, len as nat) && measures(encoded_len, p, l),
        {
            let p = probe_packet(&shape, len);
            encoded_len(&p)
        };
    proof {
        assert forall|a: usize, b: usize, la: usize, lb: usize|
            a <= b <= MAX_DATAGRAM && #[trigger] measure.ensures((a,), la) && #[trigger] measure.ensures((b,), lb)
            implies la <= lb by {
            let pa = choose|p: PacketType| #[trigger] is_probe(p, shape, a as nat) && measures(encoded_len, p, la);
            let pb = choose|p: PacketType| #[trigger] is_probe(p, shape, b as nat) && measures(encoded_len, p, lb);
        }
    }
    let limit = payload_limit(measure);
    proof {
        if limit > 0 {
            let l0 = choose|l: usize| #[trigger] measure.ensures((limit,), l) && l <= MAX_DATAGRAM;
            let p0 = choose|p: PacketType| #[trigger] is_probe(p, shape, limit as nat) && measures(encoded_len, p, l0);
            assert forall|p: PacketType, l: usize|
                #[trigger] is_probe(p, shape, limit as nat) && #[trigger] measures(encoded_len, p, l)
                implies l <= MAX_DATAGRAM by {
                assert(is_probe(p0, shape, limit as nat) && measures(encoded_len, p0, l0));
            }
        }
        if limit < MAX_DATAGRAM {
            let next = (limit + 1) as usize;
            let l1 = choose|l: usize| #[trigger] measure.ensures((next,), l) && l > MAX_DATAGRAM;
            let p1 = choose|p: PacketType| #[trigger] is_probe(p, shape, next as nat) && measures(encoded_len, p, l1);
            assert forall|n: usize, p: PacketType, l: usize|
                limit < n <= MAX_DATAGRAM && #[trigger] is_probe(p, shape, n as nat) && #[trigger] measures(encoded_len, p, l)
                implies l > MAX_DATAGRAM by {
                assert(is_probe(p1, shape, next as nat) && measures(encoded_len, p1, l1));
            }
        }
    }
    limit
}

/// How many payload bytes a whole reliable part can carry in one datagram.
pub fn reliable_payload_limit<F: Fn(&PacketType) -> usize>(encoded_len: &F) -> (limit: usize)
    requires
        probes_grow(encoded_len, PartShape::Reliable),
    ensures
        is_probe_limit(limit, encoded_len, PartShape::Reliable),
{
    probe_limit(encoded_len, PartShape::Reliable)
}

/// How many payload bytes a reliable fragment can carry in one datagram.
pub fn fragment_payload_limit<F: Fn(&PacketType) -> usize>(encoded_len: &F) -> (limit: usize)
    requires
        probes_grow(encoded_len, PartShape::Fragment),
    ensures
        is_probe_limit(limit, encoded_len, PartShape::Fragment),
{
    probe_limit(encoded_len, PartShape::Fragment)
}

/// How many payload bytes a whole unreliable part can carry in one datagram.
pub fn unreliable_payload_limit<F: Fn(&PacketType) -> usize>(encoded_len: &F) -> (limit: usize)
    requires
        probes_grow(encoded_len, PartShape::Unreliable),
    ensures
        is_probe_limit(limit, encoded_len, PartShape::Unreliable),
{
    probe_limit(encoded_len, PartShape::Unreliable)
}

/// How many payload bytes an unreliable fragment can carry in one datagram.
pub fn unreliable_fragment_limit<F: Fn(&PacketType) -> usize>(encoded_len: &F) -> (limit: usize)
    requires
        probes_grow(encoded_len, PartShape::UnreliableFragment),
    ensures
        is_probe_limit(limit, encoded_len, PartShape::UnreliableFragment),
{
    probe_limit(encoded_len, PartShape::UnreliableFragment)
}

/// `bundle_len(start, k)` measures a bundle of the `k` parts from `start` of
/// `count` parts, and a bundle of more parts from one start never measures
/// shorter.
pub open spec fn bundle_len_grows<F: Fn(usize, usize) -> usize>(bundle_len: F, count: usize) -> bool {
    &&& forall|s: usize, k: usize| s < count && 1 <= k <= count - s ==> #[trigger] bundle_len.requires((s, k))
    &&& forall|s: usize, a: usize, b: usize, la: usize, lb: usize|
        s < count && 1 <= a <= b <= count - s && #[trigger] bundle_len.ensures((s, a), la)
            && #[trigger] bundle_len.ensures((s, b), lb) ==> la <= lb
}

/// Every range of `plan` fits in a datagram and takes as many parts as fit;
/// ranges follow one another in order; a part between two ranges (or before the
/// first, or after the last) does not fit in a datagram by itself.
pub open spec fn good_plan<F: Fn(usize, usize) -> usize>(plan: Seq<(usize, usize)>, bundle_len: F, count: usize, upto: int) -> bool {
    &&& forall|i: int| 0 <= i < plan.len() ==> (#[trigger] plan[i]).0 < plan[i].1 <= upto
    &&& forall|i: int, j: int| 0 <= i < j < plan.len() ==> (#[trigger] plan[i]).1 <= (#[trigger] plan[j]).0
    &&& forall|i: int, l: usize|
        0 <= i < plan.len() && #[trigger] bundle_len.ensures(((#[trigger] plan[i]).0, (plan[i].1 - plan[i].0) as usize), l)
            ==> l <= MAX_DATAGRAM
    &&& forall|i: int, l: usize|
        0 <= i < plan.len() && plan[i].1 < count && #[trigger] bundle_len.ensures(((#[trigger] plan[i]).0, (plan[i].1 + 1 - plan[i].0) as usize), l)
            ==> l > MAX_DATAGRAM
    &&& forall|p: usize, l: usize|
        p < upto && !covered(plan, p as int) && #[trigger] bundle_len.ensures((p, 1usize), l) ==> l > MAX_DATAGRAM
}

/// `bundle_len` was seen to measure the bundle of the `k` parts from `s`
/// within a datagram.
pub open spec fn measured_within<F: Fn(usize, usize) -> usize>(bundle_len: F, s: usize, k: usize) -> bool {
    exists|l: usize| #[trigger] bundle_len.ensures((s, k), l) && l <= MAX_DATAGRAM
}

/// `bundle_len` was seen to measure the bundle of the `k` parts from `s`
/// beyond a datagram.
pub open spec fn measured_beyond<F: Fn(usize, usize) -> usize>(bundle_len: F, s: usize, k: usize) -> bool {
    exists|l: usize| #[trigger] bundle_len.ensures((s, k), l) && l > MAX_DATAGRAM
}

/// The measurements behind `plan`: each range's bundle was measured within a
/// datagram; when a part follows a range, the bundle with that part too was
/// measured beyond one; and each part left out was measured beyond one alone.
pub open spec fn plan_measured<F: Fn(usize, usize) -> usize>(plan: Seq<(usize, usize)>, bundle_len: F, count: usize, upto: int) -> bool {
    &&& forall|i: int|
        0 <= i < plan.len() ==> measured_within(bundle_len, (#[trigger] plan[i]).0, (plan[i].1 - plan[i].0) as usize)
    &&& forall|i: int|
        0 <= i < plan.len() && (#[trigger] plan[i]).1 < count ==> measured_beyond(bundle_len, plan[i].0, (plan[i].1 + 1 - plan[i].0) as usize)
    &&& forall|p: usize| p < upto && !covered(plan, p as int) ==> #[trigger] measured_beyond(bundle_len, p, 1usize)
}

/// Part `p` lies in one of the ranges of `plan`.
pub open spec fn covered(plan: Seq<(usize, usize)>, p: int) -> bool {
    exists|i: int| 0 <= i < plan.len() && #[trigger] plan[i].0 <= p < plan[i].1
}

/// Plans how `count` parts are packed into datagrams, as ranges `start..end` of
/// part indices, one range per datagram: parts are taken in order, each
/// datagram takes as many as fit, and a part too large to fit alone is skipped
/// (see `good_plan`, and `plan_measured` for the measurements the plan rests on).
pub fn bundle_plan<F: Fn(usize, usize) -> usize>(count: usize, bundle_len: F) -> (plan: Vec<(usize, usize)>)
    requires
        count < usize::MAX,
        bundle_len_grows(bundle_len, count),
    ensures
        good_plan(plan@, bundle_len, count, count as int),
        plan_measured(plan@, bundle_len, count, count as int),
{
    let mut plan: Vec<(usize, usize)> = Vec::new();
    let mut start: usize = 0;
    proof {
        assert forall|p: usize, l: usize| p < 0 && !covered(plan@, p as int) && #[trigger] bundle_len.ensures((p, 1usize), l) implies l > MAX_DATAGRAM by {}
    }
    while start < count
        invariant
            bundle_len_grows(bundle_len, count),
            count < usize::MAX,
            start <= count,
            good_plan(plan@, bundle_len, count, start as int),
            plan_measured(plan@, bundle_len, count, start as int),
        decreases count - start,
    {
        let fitted = fit_count(start, count, &bundle_len);
        let ghost before = plan@;
        if fitted == 0 {
            start = start + 1;
            proof {
                assert forall|p: usize, l: usize|
                    p < start && !covered(plan@, p as int) && #[trigger] bundle_len.ensures((p, 1usize), l) implies l > MAX_DATAGRAM by {
                    if p < start - 1 {
                    }
                }
                assert forall|p: usize| p < start && !covered(plan@, p as int) implies #[trigger] measured_beyond(bundle_len, p, 1usize) by {
                    if p == start - 1 {
                        assert(measured_beyond(bundle_len, p, (0 + 1) as usize));
                    }
                }
            }
        } else {
            plan.push((start, start + fitted));
            proof {
                let s0 = start;
                assert forall|i: int| 0 <= i < plan@.len() implies (#[trigger] plan@[i]).0 < plan@[i].1 <= s0 + fitted by {
                    if i < before.len() {
                        assert(plan@[i] == before[i]);
                    }
                }
                assert forall|i: int, j: int| 0 <= i < j < plan@.len() implies (#[trigger] plan@[i]).1 <= (#[trigger] plan@[j]).0 by {
                    assert(plan@[i] == before[i]);
                    if j < before.len() {
                        assert(plan@[j] == before[j]);
                    }
                }
                assert forall|i: int, l: usize|
                    0 <= i < plan@.len() && #[trigger] bundle_len.ensures(((#[trigger] plan@[i]).0, (plan@[i].1 - plan@[i].0) as usize), l)
                    implies l <= MAX_DATAGRAM by {
                    if i < before.len() {
                        assert(plan@[i] == before[i]);
                    }
                }
                assert forall|i: int, l: usize|
                    0 <= i < plan@.len() && plan@[i].1 < count && #[trigger] bundle_len.ensures(((#[trigger] plan@[i]).0, (plan@[i].1 + 1 - plan@[i].0) as usize), l)
                    implies l > MAX_DATAGRAM by {
                    if i < before.len() {
                        assert(plan@[i] == before[i]);
                    } else {
                        assert(fitted < fitted + 1 <= count - s0);
                    }
                }
                assert forall|p: usize, l: usize|
                    p < s0 + fitted && !covered(plan@, p as int) && #[trigger] bundle_len.ensures((p, 1usize), l) implies l > MAX_DATAGRAM by {
                    if p >= s0 {
                        assert(plan@[before.len() as int] == (s0, (s0 + fitted) as usize));
                        assert(covered(plan@, p as int));
                    } else {
                        if covered(before, p as int) {
                            let i = choose|i: int| 0 <= i < before.len() && #[trigger] before[i].0 <= p < before[i].1;
                            assert(plan@[i] == before[i]);
                        }
                    }
                }
            }
            proof {
                let s0 = start;
                let i0 = before.len() as int;
                assert(plan@[i0] == (s0, (s0 + fitted) as usize));
                assert forall|i: int| 0 <= i < plan@.len() implies measured_within(bundle_len, (#[trigger] plan@[i]).0, (plan@[i].1 - plan@[i].0) as usize) by {
                    if i < before.len() {
                        assert(plan@[i] == before[i]);
                    } else {
                        assert(((s0 + fitted) as usize - s0) as usize == fitted);
                    }
                }
                assert forall|i: int|
                    0 <= i < plan@.len() && (#[trigger] plan@[i]).1 < count implies measured_beyond(bundle_len, plan@[i].0, (plan@[i].1 + 1 - plan@[i].0) as usize) by {
                    if i < before.len() {
                        assert(plan@[i] == before[i]);
                    } else {
                        assert(((s0 + fitted) as usize + 1 - s0) as usize == (fitted + 1) as usize);
                    }
                }
                assert forall|p: usize| p < s0 + fitted && !covered(plan@, p as int) implies #[trigger] measured_beyond(bundle_len, p, 1usize) by {
                    if p >= s0 {
                        assert(covered(plan@, p as int));
                    } else {
                        if covered(before, p as int) {
                            let i = choose|i: int| 0 <= i < before.len() && #[trigger] before[i].0 <= p < before[i].1;
                            assert(plan@[i] == before[i]);
                        }
                    }
                }
            }
            start = start + fitted;
        }
    }
    plan
}


/// `encode` gives `bytes` as the encoding of `p`.
pub open spec fn encoded<F: Fn(&PacketType) -> Vec<u8>>(encode: &F, p: PacketType, bytes: Vec<u8>) -> bool {
    (*encode).ensures((&p,), bytes)
}

/// `p` is the bundle with the given acknowledgement state carrying the `k`
/// parts of `parts` from `start`.
pub open spec fn range_bundle(
    p: PacketType,
    session: u64,
    cumulative: u32,
    selective: u32,
    state_cumulative: u32,
    state_selective: u32,
    ack: bool,
    parts: Seq<BundlePart>,
    start: usize,
    k: usize,
) -> bool {
    is_bundle(p, session, cumulative, selective, state_cumulative, state_selective, ack, parts.subrange(start as int, start + k))
}

/// `encode` encodes the bundle without parts (acknowledging) and every bundle
/// of consecutive parts of `parts`, and a bundle from some part never encodes
/// shorter than a bundle of fewer parts from the same part.
pub open spec fn encodes_bundles<F: Fn(&PacketType) -> Vec<u8>>(
    encode: &F,
    session: u64,
    cumulative: u32,
    selective: u32,
    state_cumulative: u32,
    state_selective: u32,
    ack: bool,
    parts: Seq<BundlePart>,
) -> bool {
    &&& forall|p: PacketType|
        #[trigger] is_bundle(p, session, cumulative, selective, state_cumulative, state_selective, true, Seq::empty())
            ==> (*encode).requires((&p,))
    &&& forall|st: usize, k: usize, p: PacketType|
        st < parts.len() && 1 <= k <= parts.len() - st
            && #[trigger] range_bundle(p, session, cumulative, selective, state_cumulative, state_selective, ack, parts, st, k)
            ==> (*encode).requires((&p,))
    &&& forall|st: usize, a: usize, b: usize, pa: PacketType, pb: PacketType, va: Vec<u8>, vb: Vec<u8>|
        st < parts.len() && 1 <= a <= b <= parts.len() - st
            && #[trigger] range_bundle(pa, session, cumulative, selective, state_cumulative, state_selective, ack, parts, st, a)
            && #[trigger] range_bundle(pb, session, cumulative, selective, state_cumulative, state_selective, ack, parts, st, b)
            && #[trigger] encoded(encode, pa, va) && #[trigger] encoded(encode, pb, vb) ==> va@.len() <= vb@.len()
}

/// `bytes` is an encoding, by `encode`, of the bundle with the given
/// acknowledgement state carrying the `k` parts of `parts` from `start`.
pub open spec fn encodes_range<F: Fn(&PacketType) -> Vec<u8>>(
    encode: &F,
    session: u64,
    cumulative: u32,
    selective: u32,
    state_cumulative: u32,
    state_selective: u32,
    ack: bool,
    parts: Seq<BundlePart>,
    start: usize,
    k: usize,
    bytes: Vec<u8>,
) -> bool {
    exists|p: PacketType|
        #[trigger] range_bundle(p, session, cumulative, selective, state_cumulative, state_selective, ack, parts, start, k)
            && encoded(encode, p, bytes)
}

/// `datagrams` are `parts` packed by `plan`: one datagram per range of the plan,
/// the encoding of the bundle of that range's parts, in order; each fits in a
/// datagram, no range could take its next part too, and every part outside the
/// ranges is too large for a datagram by itself.
pub open spec fn packed<F: Fn(&PacketType) -> Vec<u8>>(
    datagrams: Seq<Vec<u8>>,
    plan: Seq<(usize, usize)>,
    encode: &F,
    session: u64,
    cumulative: u32,
    selective: u32,
    state_cumulative: u32,
    state_selective: u32,
    ack: bool,
    parts: Seq<BundlePart>,
) -> bool {
    let n = parts.len();
    &&& datagrams.len() == plan.len()
    &&& forall|i: int| 0 <= i < plan.len() ==> (#[trigger] plan[i]).0 < plan[i].1 <= n
    &&& forall|i: int, j: int| 0 <= i < j < plan.len() ==> (#[trigger] plan[i]).1 <= (#[trigger] plan[j]).0
    &&& forall|i: int|
        0 <= i < plan.len() ==> encodes_range(
            encode,
            session,
            cumulative,
            selective,
            state_cumulative,
            state_selective,
            ack,
            parts,
            plan[i].0,
            (plan[i].1 - plan[i].0) as usize,
            #[trigger] datagrams[i],
        )
    &&& forall|i: int| 0 <= i < datagrams.len() ==> (#[trigger] datagrams[i])@.len() <= MAX_DATAGRAM
    &&& forall|i: int, p: PacketType, v: Vec<u8>|
        #![trigger plan[i], encoded(encode, p, v)]
        0 <= i < plan.len() && plan[i].1 < n
            && range_bundle(p, session, cumulative, selective, state_cumulative, state_selective, ack, parts, plan[i].0, (plan[i].1 + 1 - plan[i].0) as usize)
            && encoded(encode, p, v) ==> v@.len() > MAX_DATAGRAM
    &&& forall|q: usize, p: PacketType, v: Vec<u8>|
        q < n && !covered(plan, q as int)
            && #[trigger] range_bundle(p, session, cumulative, selective, state_cumulative, state_selective, ack, parts, q, 1usize)
            && #[trigger] encoded(encode, p, v) ==> v@.len() > MAX_DATAGRAM
}

/// The parts `start..end` of `parts`.
fn parts_range(parts: &Vec<BundlePart>, start: usize, end: usize) -> (r: Vec<BundlePart>)
    requires
        start <= end <= parts@.len(),
    ensures
        r@ == parts@.subrange(start as int, end as int),
{
    let mut out: Vec<BundlePart> = Vec::new();
    let mut i: usize = start;
    while i < end
        invariant
            start <= i <= end <= parts@.len(),
            out@ == parts@.subrange(start as int, i as int),
        decreases end - i,
    {
        out.push(parts[i].clone());
        i = i + 1;
        proof {
            assert(out@ =~= parts@.subrange(start as int, i as int));
        }
    }
    out
}

/// Packs `parts` into datagrams, each a bundle with the given acknowledgement
/// state encoded by `encode` (see `packed`): parts are taken in order, each
/// datagram takes as many as fit, and a part too large to fit alone is left
/// out. With no parts, a lone bundle acknowledging (with `ack` set) when `ack`
/// is set, and nothing otherwise.
pub fn pack_bundles<F: Fn(&PacketType) -> Vec<u8>>(
    encode: &F,
    session: u64,
    cumulative: u32,
    selective: u32,
    state_cumulative: u32,
    state_selective: u32,
    ack: bool,
    parts: Vec<BundlePart>,
) -> (datagrams: Vec<Vec<u8>>)
    requires
        parts@.len() < usize::MAX,
        encodes_bundles(encode, session, cumulative, selective, state_cumulative, state_selective, ack, parts@),
    ensures
        parts@.len() == 0 && !ack ==> datagrams@.len() == 0,
        parts@.len() == 0 && ack ==> datagrams@.len() == 1 && exists|p: PacketType|
            #[trigger] is_bundle(p, session, cumulative, selective, state_cumulative, state_selective, true, Seq::empty())
                && encoded(encode, p, datagrams@[0]),
        parts@.len() > 0 ==> exists|plan: Seq<(usize, usize)>|
            packed(datagrams@, plan, encode, session, cumulative, selective, state_cumulative, state_selective, ack, parts@),
{
    if parts.len() == 0 {
        if !ack {
            return Vec::new();
        }
        let empty: Vec<BundlePart> = Vec::new();
        let packet = bundle_packet(session, cumulative, selective, state_cumulative, state_selective, true, &empty);
        proof {
            assert(empty@ =~= Seq::<BundlePart>::empty());
        }
        let bytes = encode(&packet);
        let mut out: Vec<Vec<u8>> = Vec::new();
        out.push(bytes);
        return out;
    }
    let n = parts.len();
    let parts_ref = &parts;
    let measure = |st: usize, k: usize| -> (l: usize)
        requires
            st < n,
            1 <= k <= n - st,
            n == parts_ref@.len(),
            encodes_bundles(encode, session, cumulative, selective, state_cumulative, state_selective, ack, parts_ref@),
        ensures
            exists|p: PacketType, v: Vec<u8>|
                #[trigger] range_bundle(p, session, cumulative, selective, state_cumulative, state_selective, ack, parts_ref@, st, k)
                    && #[trigger] encoded(encode, p, v) && l == v@.len(),
        {
            let group = parts_range(parts_ref, st, st + k);
            let p = bundle_packet(session, cumulative, selective, state_cumulative, state_selective, ack, &group);
            proof {
                assert(range_bundle(p, session, cumulative, selective, state_cumulative, state_selective, ack, parts_ref@, st, k));
            }
            let v = encode(&p);
            proof {
                assert(encoded(encode, p, v));
            }
            v.len()
        };
    proof {
        assert forall|st: usize, a: usize, b: usize, la: usize, lb: usize|
            st < n && 1 <= a <= b <= n - st && #[trigger] measure.ensures((st, a), la) && #[trigger] measure.ensures((st, b), lb)
            implies la <= lb by {
            let (pa, va) = choose|p: PacketType, v: Vec<u8>|
                #[trigger] range_bundle(p, session, cumulative, selective, state_cumulative, state_selective, ack, parts@, st, a)
                    && #[trigger] encoded(encode, p, v) && la == v@.len();
            let (pb, vb) = choose|p: PacketType, v: Vec<u8>|
                #[trigger] range_bundle(p, session, cumulative, selective, state_cumulative, state_selective, ack, parts@, st, b)
                    && #[trigger] encoded(encode, p, v) && lb == v@.len();
        }
    }
    let plan = bundle_plan(n, measure);
    let mut datagrams: Vec<Vec<u8>> = Vec::new();
    let ghost mut packets: Seq<PacketType> = Seq::empty();
    let mut j: usize = 0;
    while j < plan.len()
        invariant
            j <= plan@.len(),
            n == parts@.len(),
            good_plan(plan@, measure, n, n as int),
            plan_measured(plan@, measure, n, n as int),
            encodes_bundles(encode, session, cumulative, selective, state_cumulative, state_selective, ack, parts@),
            datagrams@.len() == j,
            packets.len() == j,
            forall|i: int|
                0 <= i < j ==> range_bundle(#[trigger] packets[i], session, cumulative, selective, state_cumulative, state_selective, ack, parts@, plan@[i].0, (plan@[i].1 - plan@[i].0) as usize)
                    && encoded(encode, packets[i], datagrams@[i]),
            forall|i: int| 0 <= i < j ==> (#[trigger] datagrams@[i])@.len() <= MAX_DATAGRAM,
            forall|a: usize, b: usize, l: usize|
                #[trigger] measure.ensures((a, b), l) ==> exists|q: PacketType, w: Vec<u8>|
                    #[trigger] range_bundle(q, session, cumulative, selective, state_cumulative, state_selective, ack, parts@, a, b)
                        && #[trigger] encoded(encode, q, w) && l == w@.len(),
        decreases plan@.len() - j,
    {
        let (st, en) = plan[j];
        let group = parts_range(&parts, st, en);
        let p = bundle_packet(session, cumulative, selective, state_cumulative, state_selective, ack, &group);
        proof {
            let k = (en - st) as usize;
            assert(plan@[j as int].0 < plan@[j as int].1 <= n);
            assert(range_bundle(p, session, cumulative, selective, state_cumulative, state_selective, ack, parts@, st, k));
        }
        let v = encode(&p);
        proof {
            let k = (en - st) as usize;
            assert(measured_within(measure, plan@[j as int].0, (plan@[j as int].1 - plan@[j as int].0) as usize));
            let l = choose|l: usize| #[trigger] measure.ensures((st, k), l) && l <= MAX_DATAGRAM;
            let (p2, v2) = choose|q: PacketType, w: Vec<u8>|
                #[trigger] range_bundle(q, session, cumulative, selective, state_cumulative, state_selective, ack, parts@, st, k)
                    && #[trigger] encoded(encode, q, w) && l == w@.len();
            assert(encoded(encode, p, v));
            assert(v@.len() <= v2@.len());
        }
        datagrams.push(v);
        proof {
            packets = packets.push(p);
        }
        j = j + 1;
    }
    proof {
        let pl = plan@;
        assert forall|i: int|
            0 <= i < pl.len() implies encodes_range(
                encode,
                session,
                cumulative,
                selective,
                state_cumulative,
                state_selective,
                ack,
                parts@,
                pl[i].0,
                (pl[i].1 - pl[i].0) as usize,
                #[trigger] datagrams@[i],
            ) by {
            assert(range_bundle(packets[i], session, cumulative, selective, state_cumulative, state_selective, ack, parts@, pl[i].0, (pl[i].1 - pl[i].0) as usize));
        }
        assert forall|i: int, p: PacketType, v: Vec<u8>|
            #![trigger pl[i], encoded(encode, p, v)]
            0 <= i < pl.len() && pl[i].1 < n
                && range_bundle(p, session, cumulative, selective, state_cumulative, state_selective, ack, parts@, pl[i].0, (pl[i].1 + 1 - pl[i].0) as usize)
                && encoded(encode, p, v) implies v@.len() > MAX_DATAGRAM by {
            let k1 = (pl[i].1 + 1 - pl[i].0) as usize;
            assert(measured_beyond(measure, pl[i].0, k1));
            let l = choose|l: usize| #[trigger] measure.ensures((pl[i].0, k1), l) && l > MAX_DATAGRAM;
            let (p2, v2) = choose|q: PacketType, w: Vec<u8>|
                #[trigger] range_bundle(q, session, cumulative, selective, state_cumulative, state_selective, ack, parts@, pl[i].0, k1)
                    && #[trigger] encoded(encode, q, w) && l == w@.len();
            assert(v2@.len() <= v@.len());
        }
        assert forall|q: usize, p: PacketType, v: Vec<u8>|
            q < n && !covered(pl, q as int)
                && #[trigger] range_bundle(p, session, cumulative, selective, state_cumulative, state_selective, ack, parts@, q, 1usize)
                && #[trigger] encoded(encode, p, v) implies v@.len() > MAX_DATAGRAM by {
            assert(measured_beyond(measure, q, 1usize));
            let l = choose|l: usize| #[trigger] measure.ensures((q, 1usize), l) && l > MAX_DATAGRAM;
            let (p2, v2) = choose|r: PacketType, w: Vec<u8>|
                #[trigger] range_bundle(r, session, cumulative, selective, state_cumulative, state_selective, ack, parts@, q, 1usize)
                    && #[trigger] encoded(encode, r, w) && l == w@.len();
            assert(v2@.len() <= v@.len());
        }
        assert(packed(datagrams@, pl, encode, session, cumulative, selective, state_cumulative, state_selective, ack, parts@));
    }
    datagrams
}

/// Item `p` lies in one of the batches of `plan`.
pub open spec fn in_batch(plan: Seq<(usize, usize, bool)>, p: int) -> bool {
    exists|j: int| 0 <= j < plan.len() && #[trigger] plan[j].0 <= p < plan[j].1
}

/// Groups `count` items into batches that each fit one message, greedily and in
/// order, where `fits(start, end, first)` tells whether the items
/// `start..end` fit, `first` saying whether no batch has been emitted yet.
///
/// Each batch grows until the next item would not fit; that item then starts
/// the next batch, or is dropped when it does not fit even alone. The result
/// lists the batches as `(start, end, first)`: ordered, non-empty, each known
/// to fit, each followed by an item that did not fit with it, and every item
/// outside them one that did not fit alone.
pub fn batch_plan<F: Fn(usize, usize, bool) -> bool>(count: usize, fits: &F) -> (plan: Vec<(usize, usize, bool)>)
    requires
        count < usize::MAX,
        forall|s: usize, e: usize, f: bool| s < e <= count ==> #[trigger] fits.requires((s, e, f)),
    ensures
        forall|j: int| 0 <= j < plan@.len() ==> (#[trigger] plan@[j]).0 < plan@[j].1 <= count,
        forall|j: int, k: int| 0 <= j < k < plan@.len() ==> (#[trigger] plan@[j]).1 <= (#[trigger] plan@[k]).0,
        forall|j: int| 0 <= j < plan@.len() ==> (#[trigger] plan@[j]).2 == (j == 0),
        forall|j: int| 0 <= j < plan@.len() ==> fits.ensures(((#[trigger] plan@[j]).0, plan@[j].1, plan@[j].2), true),
        forall|j: int|
            0 <= j < plan@.len() && (#[trigger] plan@[j]).1 < count ==> fits.ensures(
                (plan@[j].0, (plan@[j].1 + 1) as usize, plan@[j].2),
                false,
            ),
        forall|p: usize| p < count && !in_batch(plan@, p as int) ==> exists|f: bool| #[trigger] fits.ensures((p, (p + 1) as usize, f), false),
{
    let mut plan: Vec<(usize, usize, bool)> = Vec::new();
    let mut start: usize = 0;
    let mut first = true;
    let mut i: usize = 0;
    while i < count
        invariant
            count < usize::MAX,
            forall|s: usize, e: usize, f: bool| s < e <= count ==> #[trigger] fits.requires((s, e, f)),
            start <= i <= count,
            start < i ==> fits.ensures((start, i, first), true),
            first == (plan@.len() == 0),
            forall|j: int| 0 <= j < plan@.len() ==> (#[trigger] plan@[j]).0 < plan@[j].1 <= start,
            forall|j: int, k: int| 0 <= j < k < plan@.len() ==> (#[trigger] plan@[j]).1 <= (#[trigger] plan@[k]).0,
            forall|j: int| 0 <= j < plan@.len() ==> (#[trigger] plan@[j]).2 == (j == 0),
            forall|j: int| 0 <= j < plan@.len() ==> fits.ensures(((#[trigger] plan@[j]).0, plan@[j].1, plan@[j].2), true),
            forall|j: int|
                0 <= j < plan@.len() ==> fits.ensures(((#[trigger] plan@[j]).0, (plan@[j].1 + 1) as usize, plan@[j].2), false),
            forall|p: usize| p < start && !in_batch(plan@, p as int) ==> exists|f: bool| #[trigger] fits.ensures((p, (p + 1) as usize, f), false),
        decreases count - i,
    {
        if fits(start, i + 1, first) {
            i = i + 1;
            continue;
        }
        let ghost before = plan@;
        if start < i {
            plan.push((start, i, first));
            first = false;
            proof {
                assert forall|j: int, k: int| 0 <= j < k < plan@.len() implies (#[trigger] plan@[j]).1 <= (#[trigger] plan@[k]).0 by {
                    assert(plan@[j] == before[j]);
                    if k < before.len() {
                        assert(plan@[k] == before[k]);
                    }
                }
            }
        }
        let ghost old_start = start;
        let ghost pushed = start < i;
        start = i;
        let alone = fits(i, i + 1, first);
        if !alone {
            start = i + 1;
        }
        proof {
            assert forall|p: usize| p < start && !in_batch(plan@, p as int) implies exists|f: bool| #[trigger] fits.ensures((p, (p + 1) as usize, f), false) by {
                if p == i {
                    assert(fits.ensures((i, (i + 1) as usize, first), false));
                } else if p >= old_start {
                    assert(pushed);
                    let j = before.len() as int;
                    assert(plan@[j].0 <= p < plan@[j].1);
                    assert(in_batch(plan@, p as int));
                } else {
                    if in_batch(before, p as int) {
                        let j = choose|j: int| 0 <= j < before.len() && #[trigger] before[j].0 <= p < before[j].1;
                        assert(plan@[j] == before[j]);
                    }
                }
            }
        }
        i = i + 1;
    }
    if start < count {
        let ghost before = plan@;
        plan.push((start, count, first));
        proof {
            assert forall|j: int, k: int| 0 <= j < k < plan@.len() implies (#[trigger] plan@[j]).1 <= (#[trigger] plan@[k]).0 by {
                assert(plan@[j] == before[j]);
                if k < before.len() {
                    assert(plan@[k] == before[k]);
                }
            }
            assert forall|p: usize| p < count && !in_batch(plan@, p as int) implies exists|f: bool| #[trigger] fits.ensures((p, (p + 1) as usize, f), false) by {
                if p >= start {
                    assert(plan@[before.len() as int].0 <= p < plan@[before.len() as int].1);
                    assert(in_batch(plan@, p as int));
                } else if in_batch(before, p as int) {
                    let j = choose|j: int| 0 <= j < before.len() && #[trigger] before[j].0 <= p < before[j].1;
                    assert(plan@[j] == before[j]);
                }
            }
        }
    }
    plan
}
} // verus!
