use std::time::Instant;
use base::packet::{PayloadLimits, STREAM_EVENT, STREAM_STATE};
use base::reliable::EnqueueStatus;
use base::server::{challenge_bucket, challenge_bucket_at, drain_outbound, next_connection_generation, ConnectedClient, ReliableSendError, OUTBOUND_CAP};

fn limits() -> PayloadLimits {
    PayloadLimits { reliable: 1146, fragment: 1140, unreliable: 1147, unreliable_fragment: 1143 }
}

#[test]
fn new_client_starts_with_empty_queues() {
    let client = ConnectedClient::new(99, 3, limits(), Instant::now());
    assert_eq!(client.session, 99);
    assert_eq!(client.generation, 3);
    assert_eq!(client.unreliable_out, 0);
    assert_eq!(client.reliable.unsent_count(), 0);
    assert_eq!(client.state.pending_count(), 0);
    assert!(client.outbound.is_empty());
}

#[test]
fn messages_go_into_the_channel_while_it_has_room() {
    let mut client = ConnectedClient::new(1, 2, limits(), Instant::now());
    assert!(client.enqueue(b"hello", false).is_ok());
    assert_eq!(client.reliable.unsent_count(), 1);
    assert!(client.enqueue(b"world", true).is_ok());
    assert_eq!(client.state.unsent_count(), 1);
    let sent = client.state.pump_at(0);
    match &sent[0] {
        base::packet::PacketType::Reliable { session, stream, payload, .. } => {
            assert_eq!(*session, 1);
            assert_eq!(*stream, STREAM_STATE);
            assert_eq!(base::packet::unstamp(2, payload).unwrap(), b"world");
        }
        other => panic!("unexpected {other:?}"),
    }
    let sent = client.reliable.pump_at(0);
    match &sent[0] {
        base::packet::PacketType::Reliable { stream, .. } => assert_eq!(*stream, STREAM_EVENT),
        other => panic!("unexpected {other:?}"),
    }
}

#[test]
fn messages_wait_outside_a_full_channel_until_the_cap() {
    let mut client = ConnectedClient::new(1, 2, limits(), Instant::now());
    for _ in 0..128 {
        assert!(client.enqueue(&[0; 4], false).is_ok());
    }
    assert_eq!(client.reliable.unsent_count(), 128);
    assert!(client.outbound.is_empty());
    for _ in 0..(OUTBOUND_CAP - 128) {
        assert!(client.enqueue(&[1; 4], false).is_ok());
    }
    assert_eq!(client.outbound.len(), OUTBOUND_CAP - 128);
    assert!(matches!(client.enqueue(&[2; 4], false), Err(ReliableSendError::Full)));
    assert!(client.enqueue(&[2; 4], true).is_ok());
}

#[test]
fn oversized_messages_are_refused() {
    let mut client = ConnectedClient::new(1, 2, limits(), Instant::now());
    assert!(matches!(client.enqueue(&vec![0; 1140 * 64], false), Err(ReliableSendError::TooLarge)));
    assert!(client.enqueue(&vec![0; 1140 * 64 - 12], false).is_ok());
}

#[test]
fn waiting_messages_drain_as_the_channel_empties() {
    let mut client = ConnectedClient::new(1, 6, limits(), Instant::now());
    for _ in 0..130 {
        assert!(client.enqueue(&[7; 2], false).is_ok());
    }
    assert_eq!(client.outbound.len(), 2);
    let dropped = drain_outbound(&mut client.outbound, &mut client.reliable, 6);
    assert!(dropped.is_empty());
    assert_eq!(client.outbound.len(), 2);
    assert_eq!(client.reliable.pump_at(0).len(), 32);
    let dropped = drain_outbound(&mut client.outbound, &mut client.reliable, 6);
    assert!(dropped.is_empty());
    assert!(client.outbound.is_empty());
    assert_eq!(client.reliable.unsent_count(), 98);
    assert_eq!(client.reliable.enqueue(&[1]), EnqueueStatus::Queued);
}

#[test]
fn generations_skip_zero() {
    assert_eq!(next_connection_generation(0), 1);
    assert_eq!(next_connection_generation(41), 42);
    assert_eq!(next_connection_generation(u32::MAX), 1);
}

#[test]
fn challenge_bucket_counts_five_second_windows() {
    let secs = std::time::SystemTime::now().duration_since(std::time::UNIX_EPOCH).unwrap().as_secs();
    let bucket = challenge_bucket();
    assert!(bucket + 1 >= secs / 5 && bucket <= secs / 5 + 1);
}

#[test]
fn challenge_window_of_a_clock_reading() {
    assert_eq!(challenge_bucket_at(Some(0)), 0);
    assert_eq!(challenge_bucket_at(Some(4)), 0);
    assert_eq!(challenge_bucket_at(Some(12)), 2);
    assert_eq!(challenge_bucket_at(Some(1_700_000_003)), 340_000_000);
    assert_eq!(challenge_bucket_at(None), 0);
}

#[test]
fn drain_moves_in_order_and_returns_the_refused() {
    let mut outbound: std::collections::VecDeque<Vec<u8>> = std::collections::VecDeque::new();
    outbound.push_back(vec![1; 3]);
    outbound.push_back(vec![0; 1140 * 64]);
    outbound.push_back(vec![2; 3]);
    let mut channel = base::reliable::ReliableChannel::new(limits());
    let dropped = drain_outbound(&mut outbound, &mut channel, 9);
    assert_eq!(dropped, vec![vec![0; 1140 * 64]]);
    assert!(outbound.is_empty());
    let sent = channel.pump_at(0);
    assert_eq!(sent.len(), 2);
    for (packet, (seq, fill)) in sent.iter().zip([(0u32, 1u8), (1, 2)]) {
        match packet {
            base::packet::PacketType::Reliable { sequence, payload, .. } => {
                assert_eq!(*sequence, seq);
                assert_eq!(base::packet::unstamp(9, payload).unwrap(), vec![fill; 3]);
            }
            other => panic!("unexpected {other:?}"),
        }
    }
}

fn reliable_fill(packet: &base::packet::PacketType, generation: u32) -> (u32, Vec<u8>) {
    match packet {
        base::packet::PacketType::Reliable { sequence, payload, .. } => (*sequence, base::packet::unstamp(generation, payload).unwrap()),
        other => panic!("unexpected {other:?}"),
    }
}

#[test]
fn accepted_messages_reach_the_channel_in_call_order() {
    let mut client = ConnectedClient::new(1, 4, limits(), Instant::now());
    for i in 0..130u32 {
        assert!(client.enqueue(&[i as u8, (i >> 8) as u8], false).is_ok());
    }
    assert_eq!(client.reliable.unsent_count(), 128);
    assert_eq!(client.outbound.len(), 2);
    assert_eq!(client.outbound[0], vec![128, 0]);
    assert_eq!(client.outbound[1], vec![129, 0]);
    let mut next = 0u32;
    let mut now = 0u64;
    while next < 130 {
        let dropped = drain_outbound(&mut client.outbound, &mut client.reliable, 4);
        assert!(dropped.is_empty());
        let sent = client.reliable.pump_at(now);
        assert!(!sent.is_empty());
        for packet in &sent {
            let (seq, body) = reliable_fill(packet, 4);
            assert_eq!(seq, next);
            assert_eq!(body, vec![next as u8, (next >> 8) as u8]);
            client.reliable.handle_ack_at(seq, now);
            next += 1;
        }
        now += 1;
    }
    assert!(client.outbound.is_empty());
    assert_eq!(client.reliable.unsent_count(), 0);
}
