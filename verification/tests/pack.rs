use std::sync::Arc;

use base::packet::{BundlePart, PacketType, MAX_DATAGRAM, STREAM_EVENT};
use base::sizing::{pack_bundles, reliable_payload_limit};

/// Writes `packet` in the layout of the default wire configuration: variant
/// tags as four little-endian bytes, integers little-endian at their width, a
/// bool as one byte, and byte strings and lists behind an eight-byte length.
fn encode(packet: &PacketType) -> Vec<u8> {
    fn bytes(out: &mut Vec<u8>, data: &[u8]) {
        out.extend_from_slice(&(data.len() as u64).to_le_bytes());
        out.extend_from_slice(data);
    }
    let mut out = Vec::new();
    match packet {
        PacketType::Bundle { session, ack, cumulative, selective, state_cumulative, state_selective, parts } => {
            out.extend_from_slice(&10u32.to_le_bytes());
            out.extend_from_slice(&session.to_le_bytes());
            out.push(*ack as u8);
            out.extend_from_slice(&cumulative.to_le_bytes());
            out.extend_from_slice(&selective.to_le_bytes());
            out.extend_from_slice(&state_cumulative.to_le_bytes());
            out.extend_from_slice(&state_selective.to_le_bytes());
            out.extend_from_slice(&(parts.len() as u64).to_le_bytes());
            for part in parts {
                match part {
                    BundlePart::Reliable { stream, sequence, payload } => {
                        out.extend_from_slice(&0u32.to_le_bytes());
                        out.push(*stream);
                        out.extend_from_slice(&sequence.to_le_bytes());
                        bytes(&mut out, payload);
                    }
                    BundlePart::Fragment { stream, sequence, packet_id, fragment_idx, total_fragments, data } => {
                        out.extend_from_slice(&1u32.to_le_bytes());
                        out.push(*stream);
                        out.extend_from_slice(&sequence.to_le_bytes());
                        out.extend_from_slice(&packet_id.to_le_bytes());
                        out.extend_from_slice(&fragment_idx.to_le_bytes());
                        out.extend_from_slice(&total_fragments.to_le_bytes());
                        bytes(&mut out, data);
                    }
                    BundlePart::Unreliable { sequence, payload } => {
                        out.extend_from_slice(&2u32.to_le_bytes());
                        out.extend_from_slice(&sequence.to_le_bytes());
                        bytes(&mut out, payload);
                    }
                    BundlePart::UnreliableFragment { sequence, fragment_idx, total_fragments, data } => {
                        out.extend_from_slice(&3u32.to_le_bytes());
                        out.extend_from_slice(&sequence.to_le_bytes());
                        out.extend_from_slice(&fragment_idx.to_le_bytes());
                        out.extend_from_slice(&total_fragments.to_le_bytes());
                        bytes(&mut out, data);
                    }
                }
            }
        }
        _ => out.extend_from_slice(&u32::MAX.to_le_bytes()),
    }
    out
}

/// The header fields of an encoded bundle: tag, session, ack, the four
/// acknowledgement numbers and the part count.
fn header(bytes: &[u8]) -> (u32, u64, bool, u32, u32, u32, u32, u64) {
    let u32_at = |at: usize| u32::from_le_bytes(bytes[at..at + 4].try_into().unwrap());
    let u64_at = |at: usize| u64::from_le_bytes(bytes[at..at + 8].try_into().unwrap());
    (u32_at(0), u64_at(4), bytes[12] != 0, u32_at(13), u32_at(17), u32_at(21), u32_at(25), u64_at(29))
}

fn reliable_limit() -> usize {
    reliable_payload_limit(&|packet: &PacketType| encode(packet).len())
}

#[test]
fn pack_joins_small_parts_and_piggybacks_the_ack() {
    let parts: Vec<BundlePart> = (0..4)
        .map(|idx| BundlePart::Reliable { stream: STREAM_EVENT, sequence: idx, payload: Arc::new(vec![idx as u8; 8]) })
        .collect();
    let datagrams = pack_bundles(&encode, 7, 3, 1, 4, 2, true, parts);
    assert_eq!(datagrams.len(), 1);
    assert!(datagrams[0].len() <= MAX_DATAGRAM);

    let (tag, session, ack, cumulative, selective, state_cumulative, state_selective, parts) = header(&datagrams[0]);
    assert_eq!(tag, 10);
    assert_eq!(session, 7);
    assert!(ack);
    assert_eq!(cumulative, 3);
    assert_eq!(selective, 1);
    assert_eq!(state_cumulative, 4);
    assert_eq!(state_selective, 2);
    assert_eq!(parts, 4);
}

#[test]
fn pack_splits_full_reliable_parts() {
    let limit = reliable_limit();
    let parts = vec![
        BundlePart::Reliable { stream: STREAM_EVENT, sequence: 0, payload: Arc::new(vec![1u8; limit]) },
        BundlePart::Reliable { stream: STREAM_EVENT, sequence: 1, payload: Arc::new(vec![2u8; limit]) },
    ];
    let datagrams = pack_bundles(&encode, 1, 0, 0, 0, 0, true, parts);
    assert_eq!(datagrams.len(), 2);
    assert!(datagrams.iter().all(|bytes| bytes.len() <= MAX_DATAGRAM));
}

#[test]
fn pack_ack_only_when_there_are_no_parts() {
    let datagrams = pack_bundles(&encode, 1, 4, 0, 0, 0, true, Vec::new());
    assert_eq!(datagrams.len(), 1);
    let (tag, _session, ack, cumulative, _selective, _state_cumulative, _state_selective, parts) = header(&datagrams[0]);
    assert_eq!(tag, 10);
    assert!(ack);
    assert_eq!(parts, 0);
    assert_eq!(cumulative, 4);

    assert!(pack_bundles(&encode, 1, 4, 0, 0, 0, false, Vec::new()).is_empty());
}

#[test]
fn reliable_limit_is_one_bundle() {
    let limit = reliable_limit();
    assert_eq!(limit, 1146);
    let fitted = pack_bundles(
        &encode,
        1,
        1,
        0,
        0,
        0,
        true,
        vec![BundlePart::Reliable { stream: STREAM_EVENT, sequence: 1, payload: Arc::new(vec![9u8; limit]) }],
    );
    assert_eq!(fitted.len(), 1);
    assert!(fitted[0].len() <= MAX_DATAGRAM);

    let over = pack_bundles(
        &encode,
        1,
        1,
        0,
        0,
        0,
        true,
        vec![BundlePart::Reliable { stream: STREAM_EVENT, sequence: 1, payload: Arc::new(vec![9u8; limit + 1]) }],
    );
    assert!(over.is_empty());
}

#[test]
fn pack_leaves_out_only_the_part_too_large_alone() {
    let limit = reliable_limit();
    let parts = vec![
        BundlePart::Reliable { stream: STREAM_EVENT, sequence: 0, payload: Arc::new(vec![1u8; 100]) },
        BundlePart::Reliable { stream: STREAM_EVENT, sequence: 1, payload: Arc::new(vec![2u8; limit + 1]) },
        BundlePart::Reliable { stream: STREAM_EVENT, sequence: 2, payload: Arc::new(vec![3u8; 100]) },
    ];
    let datagrams = pack_bundles(&encode, 1, 0, 0, 0, 0, false, parts);
    assert_eq!(datagrams.len(), 2);
    assert_eq!(header(&datagrams[0]).7, 1);
    assert_eq!(header(&datagrams[1]).7, 1);
    assert!(!header(&datagrams[0]).2);
}
