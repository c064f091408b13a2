use std::sync::Arc;
use base::packet::{BundlePart, PacketType, MAX_DATAGRAM};
use base::sizing::{
    batch_plan, bundle_packet, bundle_plan, bundled_one, fit_count, fragment_payload_limit, payload_limit, reliable_payload_limit,
    unreliable_fragment_limit, unreliable_payload_limit,
};

#[test]
fn payload_limit_is_the_largest_length_that_fits() {
    assert_eq!(payload_limit(|n| n + 54), 1146);
    assert_eq!(payload_limit(|n| n + 60), 1140);
    assert_eq!(payload_limit(|n| n), MAX_DATAGRAM);
    assert_eq!(payload_limit(|n| n + 2000), 0);
    assert_eq!(payload_limit(|n| 2 * n), 600);
}

#[test]
fn fit_count_takes_as_many_parts_as_fit() {
    // A 37-byte header and parts of 100 bytes each: 11 fit in 1200 bytes.
    let len = |_start: usize, k: usize| 37 + 100 * k;
    assert_eq!(fit_count(0, 20, &len), 11);
    assert_eq!(fit_count(5, 20, &len), 11);
    assert_eq!(fit_count(15, 20, &len), 5);
    let too_big = |_start: usize, k: usize| 1300 * k;
    assert_eq!(fit_count(0, 3, &too_big), 0);
}

#[test]
fn bundle_plan_packs_in_order_and_skips_parts_too_large_alone() {
    let sizes = [500usize, 500, 500, 1300, 100, 1100, 50];
    let len = |start: usize, k: usize| 37 + sizes[start..start + k].iter().sum::<usize>();
    let plan = bundle_plan(sizes.len(), len);
    assert_eq!(plan, vec![(0, 2), (2, 3), (4, 5), (5, 7)]);
    assert!(bundle_plan(0, len).is_empty());
}

#[test]
fn batch_plan_groups_greedily() {
    let sizes = [400usize, 400, 400, 2000, 300, 300];
    let fits = |start: usize, end: usize, _first: bool| sizes[start..end].iter().sum::<usize>() <= 1000;
    let plan = batch_plan(sizes.len(), &fits);
    assert_eq!(plan, vec![(0, 2, true), (2, 3, false), (4, 6, false)]);
}

#[test]
fn batch_plan_drops_a_leading_item_that_never_fits() {
    let sizes = [5000usize, 10, 10];
    let fits = |start: usize, end: usize, first: bool| {
        let limit = if first { 100 } else { 50 };
        sizes[start..end].iter().sum::<usize>() <= limit
    };
    let plan = batch_plan(sizes.len(), &fits);
    assert_eq!(plan, vec![(1, 3, true)]);
    assert!(batch_plan(0, &fits).is_empty());
}

#[test]
fn bundle_packet_carries_the_ack_state_and_parts() {
    let parts = vec![
        BundlePart::Reliable { stream: 0, sequence: 1, payload: Arc::new(vec![1]) },
        BundlePart::Unreliable { sequence: 2, payload: Arc::new(vec![2, 2]) },
    ];
    match bundle_packet(7, 3, 1, 4, 2, true, &parts) {
        PacketType::Bundle { session, ack, cumulative, selective, state_cumulative, state_selective, parts } => {
            assert_eq!((session, ack, cumulative, selective, state_cumulative, state_selective), (7, true, 3, 1, 4, 2));
            assert_eq!(parts.len(), 2);
        }
        other => panic!("unexpected {other:?}"),
    }
    match bundled_one(BundlePart::Unreliable { sequence: 9, payload: Arc::new(vec![]) }) {
        PacketType::Bundle { session, ack, cumulative, parts, .. } => {
            assert_eq!((session, ack, cumulative), (0, true, 0));
            assert_eq!(parts.len(), 1);
        }
        other => panic!("unexpected {other:?}"),
    }
}

/// The shape name and payload length of a probe bundle.
fn probe_of(packet: &PacketType) -> (&'static str, usize) {
    match packet {
        PacketType::Bundle { parts, .. } => match &parts[0] {
            BundlePart::Reliable { payload, .. } => ("reliable", payload.len()),
            BundlePart::Fragment { data, .. } => ("fragment", data.len()),
            BundlePart::Unreliable { payload, .. } => ("unreliable", payload.len()),
            BundlePart::UnreliableFragment { data, .. } => ("unreliable_fragment", data.len()),
        },
        _ => ("other", 0),
    }
}

/// Measures probes of `shape` as their payload plus `overhead`, and every
/// other packet as too long for a datagram.
fn measure_as(shape: &'static str, overhead: usize) -> impl Fn(&PacketType) -> usize {
    move |packet: &PacketType| {
        let (kind, len) = probe_of(packet);
        if kind == shape { len + overhead } else { 5000 }
    }
}

#[test]
fn part_limits_measure_their_own_shape() {
    assert_eq!(reliable_payload_limit(&measure_as("reliable", 54)), 1146);
    assert_eq!(fragment_payload_limit(&measure_as("fragment", 60)), 1140);
    assert_eq!(unreliable_payload_limit(&measure_as("unreliable", 53)), 1147);
    assert_eq!(unreliable_fragment_limit(&measure_as("unreliable_fragment", 57)), 1143);
    assert_eq!(reliable_payload_limit(&measure_as("fragment", 60)), 0);
}

#[test]
fn probes_carry_zero_bytes_with_zeroed_numbers() {
    let checked = |packet: &PacketType| match packet {
        PacketType::Bundle { session: 0, ack: true, cumulative: 0, selective: 0, state_cumulative: 0, state_selective: 0, parts } => {
            match &parts[0] {
                BundlePart::Fragment { stream: 0, sequence: 0, packet_id: 0, fragment_idx: 0, total_fragments: 1, data }
                    if data.iter().all(|b| *b == 0) => data.len() + 60,
                _ => 5000,
            }
        }
        _ => 5000,
    };
    assert_eq!(fragment_payload_limit(&checked), 1140);
}
