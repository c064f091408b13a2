use std::sync::Arc;
use base::packet::{
    bundle_part, div_ceil, encoded_packet_count, owned_payload, split_chunks, split_unreliable, stamp,
    unreliable_message_limit, unstamp, BundlePart, PacketType, PayloadLimits, MAX_FRAGMENTS, STREAM_EVENT,
    STREAM_STATE,
};

/// The limits of the default wire encoding: a bundle header takes 37 bytes, and
/// the part framing 17 (reliable), 23 (fragment), 16 (unreliable) or 20
/// (unreliable fragment) bytes of a 1200-byte datagram.
fn limits() -> PayloadLimits {
    PayloadLimits { reliable: 1146, fragment: 1140, unreliable: 1147, unreliable_fragment: 1143 }
}

#[test]
fn unstamp_rejects_a_stale_generation() {
    let bytes = stamp(2, b"spawn");
    assert_eq!(unstamp(2, &bytes).unwrap(), b"spawn");
    assert!(unstamp(1, &bytes).is_none());
}

#[test]
fn stamp_writes_generation_then_length_prefixed_payload() {
    let bytes = stamp(0x0102_0304, &[9, 8]);
    assert_eq!(bytes, vec![4, 3, 2, 1, 2, 0, 0, 0, 0, 0, 0, 0, 9, 8]);
}

#[test]
fn unstamp_refuses_truncated_frames() {
    let bytes = stamp(7, &[1, 2, 3]);
    assert!(unstamp(7, &bytes[..bytes.len() - 1]).is_none());
    assert!(unstamp(7, &bytes[..11]).is_none());
    assert!(unstamp(7, &[]).is_none());
    let mut longer = bytes.clone();
    longer.push(0xee);
    assert_eq!(unstamp(7, &longer).unwrap(), vec![1, 2, 3]);
}

#[test]
fn unstamp_accepts_an_empty_payload() {
    let bytes = stamp(3, &[]);
    assert_eq!(bytes.len(), 12);
    assert_eq!(unstamp(3, &bytes).unwrap(), Vec::<u8>::new());
}

#[test]
fn only_data_packets_become_bundle_parts() {
    let reliable = PacketType::Reliable { session: 9, stream: STREAM_STATE, sequence: 4, payload: Arc::new(vec![1, 2]) };
    match bundle_part(&reliable) {
        Some(BundlePart::Reliable { stream, sequence, payload }) => {
            assert_eq!(stream, STREAM_STATE);
            assert_eq!(sequence, 4);
            assert_eq!(*payload, vec![1, 2]);
        }
        other => panic!("unexpected {other:?}"),
    }
    let fragment = PacketType::Fragment {
        session: 9,
        stream: STREAM_EVENT,
        sequence: 5,
        packet_id: 2,
        fragment_idx: 1,
        total_fragments: 3,
        data: Arc::new(vec![7]),
    };
    match bundle_part(&fragment) {
        Some(BundlePart::Fragment { stream, sequence, packet_id, fragment_idx, total_fragments, data }) => {
            assert_eq!((stream, sequence, packet_id, fragment_idx, total_fragments), (STREAM_EVENT, 5, 2, 1, 3));
            assert_eq!(*data, vec![7]);
        }
        other => panic!("unexpected {other:?}"),
    }
    let unreliable = PacketType::Unreliable { session: 1, sequence: 8, payload: Arc::new(vec![3]) };
    match bundle_part(&unreliable) {
        Some(BundlePart::Unreliable { sequence, payload }) => {
            assert_eq!(sequence, 8);
            assert_eq!(*payload, vec![3]);
        }
        other => panic!("unexpected {other:?}"),
    }
    assert!(bundle_part(&PacketType::KeepAlive { session: 1 }).is_none());
    assert!(bundle_part(&PacketType::Connect { replace: None }).is_none());
    assert!(bundle_part(&PacketType::Ack { session: 1, cumulative: 0, selective: 0, state_cumulative: 0, state_selective: 0 }).is_none());
}

#[test]
fn owned_payload_keeps_the_bytes_whether_shared_or_not() {
    let alone = Arc::new(vec![1, 2, 3]);
    assert_eq!(owned_payload(alone), vec![1, 2, 3]);
    let shared = Arc::new(vec![4, 5]);
    let other = Arc::clone(&shared);
    assert_eq!(owned_payload(shared), vec![4, 5]);
    assert_eq!(*other, vec![4, 5]);
}

#[test]
fn packet_count_follows_the_limits() {
    let l = limits();
    assert_eq!(encoded_packet_count(0, &l), Some(1));
    assert_eq!(encoded_packet_count(1146, &l), Some(1));
    assert_eq!(encoded_packet_count(1147, &l), Some(2));
    assert_eq!(encoded_packet_count(2280, &l), Some(2));
    assert_eq!(encoded_packet_count(2281, &l), Some(3));
    assert_eq!(encoded_packet_count(1140 * 64, &l), Some(64));
    assert_eq!(encoded_packet_count(1140 * 64 + 1, &l), None);
    let no_fragments = PayloadLimits { fragment: 0, ..l };
    assert_eq!(encoded_packet_count(2000, &no_fragments), None);
    assert_eq!(encoded_packet_count(100, &no_fragments), Some(1));
}

#[test]
fn div_ceil_rounds_up() {
    assert_eq!(div_ceil(0, 5), 0);
    assert_eq!(div_ceil(5, 5), 1);
    assert_eq!(div_ceil(6, 5), 2);
    assert_eq!(div_ceil(usize::MAX, 1), usize::MAX);
    assert_eq!(div_ceil(usize::MAX, 2), usize::MAX / 2 + 1);
}

#[test]
fn unreliable_message_limit_saturates() {
    assert_eq!(unreliable_message_limit(&limits()), 1143 * MAX_FRAGMENTS as usize);
    let huge = PayloadLimits { unreliable_fragment: usize::MAX / 2, ..limits() };
    assert_eq!(unreliable_message_limit(&huge), usize::MAX);
}

#[test]
fn chunks_cover_the_payload_in_order() {
    let payload: Vec<u8> = (0..10).collect();
    let chunks = split_chunks(&payload, 4);
    assert_eq!(chunks, vec![vec![0, 1, 2, 3], vec![4, 5, 6, 7], vec![8, 9]]);
    assert!(split_chunks(&[], 4).is_empty());
    assert_eq!(split_chunks(&payload, 10), vec![payload.clone()]);
}

#[test]
fn small_unreliable_message_is_one_part() {
    let parts = split_unreliable(6, vec![1; 1147], &limits());
    assert_eq!(parts.len(), 1);
    match &parts[0] {
        BundlePart::Unreliable { sequence, payload } => {
            assert_eq!(*sequence, 6);
            assert_eq!(payload.len(), 1147);
        }
        other => panic!("unexpected {other:?}"),
    }
}

#[test]
fn large_unreliable_message_is_fragmented_in_order() {
    let payload: Vec<u8> = (0..3000u32).map(|i| (i % 251) as u8).collect();
    let parts = split_unreliable(11, payload.clone(), &limits());
    assert_eq!(parts.len(), 3);
    let mut joined = Vec::new();
    for (idx, part) in parts.iter().enumerate() {
        match part {
            BundlePart::UnreliableFragment { sequence, fragment_idx, total_fragments, data } => {
                assert_eq!(*sequence, 11);
                assert_eq!(*fragment_idx as usize, idx);
                assert_eq!(*total_fragments, 3);
                assert!(data.len() <= 1143);
                joined.extend_from_slice(data);
            }
            other => panic!("unexpected {other:?}"),
        }
    }
    assert_eq!(joined, payload);
}

#[test]
fn oversized_unreliable_message_is_dropped() {
    assert!(split_unreliable(1, vec![0; 1143 * 64 + 1], &limits()).is_empty());
    let no_fragments = PayloadLimits { unreliable_fragment: 0, ..limits() };
    assert!(split_unreliable(1, vec![0; 2000], &no_fragments).is_empty());
}
