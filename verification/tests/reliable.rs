use base::ingress::FragmentAssembler;
use base::packet::{PacketType, PayloadLimits, MAX_FRAGMENTS, STREAM_EVENT, STREAM_STATE};
use base::reliable::{ack_packet, apply_acks, EnqueueStatus, ReliableChannel, MAX_UNSENT, SEND_WINDOW};

/// The limits of the default wire encoding (see the packet tests).
fn limits() -> PayloadLimits {
    PayloadLimits { reliable: 1146, fragment: 1140, unreliable: 1147, unreliable_fragment: 1143 }
}

fn fragment_payload_limit() -> usize {
    limits().fragment
}

#[test]
fn small_payload_is_one_reliable_packet() {
    let mut channel = ReliableChannel::new(limits());
    let payload = vec![7u8; 32];
    assert_eq!(channel.enqueue(&payload), EnqueueStatus::Queued);

    let sent = channel.pump();
    assert_eq!(sent.len(), 1);

    match &sent[0] {
        PacketType::Reliable { sequence, payload: body, stream, session } => {
            assert_eq!(*sequence, 0);
            assert_eq!(body.as_slice(), payload.as_slice());
            assert_eq!(*stream, STREAM_EVENT);
            assert_eq!(*session, 0);
        }
        other => panic!("unexpected {other:?}"),
    }
}

#[test]
fn large_payload_roundtrips_through_fragments() {
    let mut channel = ReliableChannel::new(limits());
    let payload = vec![9u8; 1200 * 2];
    assert_eq!(channel.enqueue(&payload), EnqueueStatus::Queued);

    let sent = channel.pump();
    assert!(sent.len() > 1);

    let mut recv = ReliableChannel::new(limits());
    let mut assembler = FragmentAssembler::new();
    let mut built = None;
    for packet in &sent {
        let PacketType::Fragment { sequence, packet_id, fragment_idx, total_fragments, data, .. } = packet else {
            panic!("expected fragment");
        };
        assert!(data.len() <= fragment_payload_limit());
        assert!(!recv.is_duplicate_and_track(*sequence));
        if let Some(full) = assembler.insert(*packet_id, *fragment_idx, *total_fragments, data.to_vec()) {
            built = Some(full);
        }
    }

    assert_eq!(built.unwrap(), payload);
}

#[test]
fn send_window_bounds_pending() {
    let mut channel = ReliableChannel::new(limits());
    let payload = vec![1u8; 8];
    let mut queued = 0;
    while channel.enqueue(&payload) == EnqueueStatus::Queued {
        queued += 1;
    }

    assert_eq!(channel.enqueue(&payload), EnqueueStatus::Full);
    assert_eq!(queued, MAX_UNSENT);

    let sent = channel.pump();
    assert_eq!(sent.len(), SEND_WINDOW);
    assert_eq!(channel.pending_count(), SEND_WINDOW);

    let resent = channel.pump().len();
    assert_eq!(resent, 0);
    assert_eq!(channel.pending_count(), SEND_WINDOW);

    channel.handle_ack(0);
    let released = channel.pump().len();
    assert_eq!(released, 1);
    assert_eq!(channel.pending_count(), SEND_WINDOW);
}

#[test]
fn oversized_payload_is_rejected() {
    let mut channel = ReliableChannel::new(limits());
    let payload = vec![0u8; fragment_payload_limit() * (MAX_FRAGMENTS as usize + 1)];
    assert_eq!(channel.enqueue(&payload), EnqueueStatus::TooLarge);
    assert_eq!(channel.unsent_count(), 0);
}

#[test]
fn sequences_follow_one_another_across_messages() {
    let mut channel = ReliableChannel::with_stream(STREAM_STATE, limits());
    channel.set_session(77);
    assert_eq!(channel.enqueue(&[1; 10]), EnqueueStatus::Queued);
    assert_eq!(channel.enqueue(&[2; 1500]), EnqueueStatus::Queued);
    assert_eq!(channel.enqueue(&[3; 10]), EnqueueStatus::Queued);
    let sent = channel.pump_at(0);
    assert_eq!(sent.len(), 4);
    let mut seqs = Vec::new();
    for packet in &sent {
        match packet {
            PacketType::Reliable { session, stream, sequence, .. } => {
                assert_eq!((*session, *stream), (77, STREAM_STATE));
                seqs.push(*sequence);
            }
            PacketType::Fragment { session, stream, sequence, packet_id, total_fragments, .. } => {
                assert_eq!((*session, *stream, *packet_id, *total_fragments), (77, STREAM_STATE, 0, 2));
                seqs.push(*sequence);
            }
            other => panic!("unexpected {other:?}"),
        }
    }
    assert_eq!(seqs, vec![0, 1, 2, 3]);
}

#[test]
fn unacknowledged_packets_are_resent_after_the_timeout() {
    let mut channel = ReliableChannel::new(limits());
    assert_eq!(channel.enqueue(&[5; 4]), EnqueueStatus::Queued);
    assert_eq!(channel.pump_at(1_000).len(), 1);
    assert_eq!(channel.pump_at(1_000).len(), 0);
    assert_eq!(channel.pump_at(150_001_000).len(), 0);
    assert_eq!(channel.pump_at(150_001_001).len(), 1);
    assert_eq!(channel.pump_at(150_001_001).len(), 0);
    channel.handle_ack_at(0, 200_000_000);
    assert_eq!(channel.pending_count(), 0);
    assert_eq!(channel.pump_at(900_000_000).len(), 0);
}

#[test]
fn acknowledgements_update_the_timeout() {
    let mut channel = ReliableChannel::new(limits());
    assert_eq!(channel.enqueue(&[1]), EnqueueStatus::Queued);
    assert_eq!(channel.enqueue(&[2]), EnqueueStatus::Queued);
    assert_eq!(channel.pump_at(0).len(), 2);
    // A 100 ms sample moves the estimate to 56.25 ms and the variation to
    // 31.25 ms, so the timeout becomes 181.25 ms.
    channel.handle_ack_at(0, 100_000_000);
    assert_eq!(channel.pending_count(), 1);
    assert_eq!(channel.pump_at(181_250_000).len(), 0);
    assert_eq!(channel.pump_at(181_250_001).len(), 1);
}

#[test]
fn acknowledging_an_unknown_sequence_changes_nothing() {
    let mut channel = ReliableChannel::new(limits());
    assert_eq!(channel.enqueue(&[1]), EnqueueStatus::Queued);
    assert_eq!(channel.pump_at(0).len(), 1);
    channel.handle_ack_at(42, 1_000_000_000);
    assert_eq!(channel.pending_count(), 1);
    assert_eq!(channel.pump_at(150_000_000).len(), 0);
    assert_eq!(channel.pump_at(150_000_001).len(), 1);
}

#[test]
fn duplicates_are_detected_within_the_window() {
    let mut channel = ReliableChannel::new(limits());
    assert!(!channel.is_duplicate_and_track(5));
    assert!(channel.is_duplicate_and_track(5));
    assert!(!channel.is_duplicate_and_track(3));
    assert!(channel.is_duplicate_and_track(3));
    assert!(!channel.is_duplicate_and_track(3000));
    // 5 and 3 are now more than 1024 below the highest sequence.
    assert!(!channel.is_duplicate_and_track(5));
    assert!(channel.is_duplicate_and_track(3000));
    assert!(!channel.is_duplicate_and_track(1976));
    assert!(channel.is_duplicate_and_track(1976));
}

#[test]
fn window_refills_as_packets_are_acknowledged() {
    let mut channel = ReliableChannel::new(limits());
    for _ in 0..40 {
        assert_eq!(channel.enqueue(&[0; 3]), EnqueueStatus::Queued);
    }
    assert_eq!(channel.pump_at(0).len(), SEND_WINDOW);
    assert_eq!(channel.unsent_count(), 8);
    for seq in 0..5 {
        channel.handle_ack_at(seq, 10);
    }
    assert_eq!(channel.pump_at(10).len(), 5);
    assert_eq!(channel.unsent_count(), 3);
    assert_eq!(channel.pending_count(), SEND_WINDOW);
}

#[test]
fn ack_packet_names_its_stream() {
    match ack_packet(9, STREAM_EVENT, 41) {
        PacketType::Ack { session, cumulative, selective, state_cumulative, state_selective } => {
            assert_eq!((session, cumulative, selective, state_cumulative, state_selective), (9, 41, 1, 0, 0));
        }
        other => panic!("unexpected {other:?}"),
    }
    match ack_packet(9, STREAM_STATE, 42) {
        PacketType::Ack { session, cumulative, selective, state_cumulative, state_selective } => {
            assert_eq!((session, cumulative, selective, state_cumulative, state_selective), (9, 0, 0, 42, 1));
        }
        other => panic!("unexpected {other:?}"),
    }
}

#[test]
fn acks_reach_only_the_flagged_stream() {
    let mut events = ReliableChannel::new(limits());
    let mut state = ReliableChannel::with_stream(STREAM_STATE, limits());
    assert_eq!(events.enqueue(&[1; 8]), EnqueueStatus::Queued);
    assert_eq!(state.enqueue(&[2; 8]), EnqueueStatus::Queued);
    assert_eq!(events.pump().len(), 1);
    assert_eq!(state.pump().len(), 1);

    let PacketType::Ack { cumulative, selective, state_cumulative, state_selective, .. } = ack_packet(0, STREAM_STATE, 0) else {
        panic!("expected an acknowledgement");
    };
    apply_acks(&mut events, &mut state, cumulative, selective, state_cumulative, state_selective);
    assert_eq!(events.pending_count(), 1);
    assert_eq!(state.pending_count(), 0);

    apply_acks(&mut events, &mut state, 0, 1, 0, 0);
    assert_eq!(events.pending_count(), 0);
}
