use base::ingress::{receive_reliable, ReliableBody};
use base::packet::{PayloadLimits, STREAM_EVENT, STREAM_STATE};
use base::reliable::ReliableChannel;
use base::ingress::FragmentAssembler;
use base::ingress::{SnapshotIngress, TickIngress};

#[test]
fn tick_is_delivered_when_every_part_arrived() {
    let mut ingress = TickIngress::new();
    assert_eq!(ingress.push(10, 0, 2, vec![1, 2]), None);
    assert_eq!(ingress.push(10, 1, 2, vec![3]), Some(vec![1, 2, 3]));
}

#[test]
fn parts_are_joined_in_part_order() {
    let mut ingress = TickIngress::new();
    assert_eq!(ingress.push(4, 2, 3, vec![30]), None);
    assert_eq!(ingress.push(4, 0, 3, vec![10]), None);
    assert_eq!(ingress.push(4, 1, 3, vec![20, 21]), Some(vec![10, 20, 21, 30]));
}

#[test]
fn delivered_and_older_ticks_are_ignored() {
    let mut ingress = TickIngress::new();
    assert_eq!(ingress.push(7, 0, 1, vec![1]), Some(vec![1]));
    assert_eq!(ingress.push(7, 0, 1, vec![2]), None);
    assert_eq!(ingress.push(6, 0, 1, vec![3]), None);
    assert_eq!(ingress.push(8, 0, 2, vec![4]), None);
    assert_eq!(ingress.push(7, 1, 2, vec![5]), None);
    assert_eq!(ingress.push(8, 1, 2, vec![6]), Some(vec![4, 6]));
}

#[test]
fn a_newer_tick_starts_over() {
    let mut ingress = TickIngress::new();
    assert_eq!(ingress.push(1, 0, 2, vec![1]), None);
    assert_eq!(ingress.push(2, 1, 2, vec![2]), None);
    assert_eq!(ingress.push(2, 0, 2, vec![3]), Some(vec![3, 2]));
}

#[test]
fn a_repeated_part_keeps_the_first_copy() {
    let mut ingress = TickIngress::new();
    assert_eq!(ingress.push(3, 0, 2, vec![1]), None);
    assert_eq!(ingress.push(3, 0, 2, vec![9]), None);
    assert_eq!(ingress.push(3, 1, 2, vec![2]), Some(vec![1, 2]));
}

#[test]
fn malformed_parts_are_refused() {
    let mut ingress: TickIngress<u8> = TickIngress::new();
    assert_eq!(ingress.push(1, 0, 0, vec![1]), None);
    assert_eq!(ingress.push(1, 2, 2, vec![1]), None);
    assert_eq!(ingress.push(1, 0, 1025, vec![1]), None);
    assert_eq!(ingress.push(1, 0, 1, vec![1]), Some(vec![1]));
}

#[test]
fn snapshot_takes_reset_from_its_first_part() {
    let mut ingress = SnapshotIngress::new();
    assert!(ingress.push(5, false, 1, 2, vec![20]).is_none());
    let built = ingress.push(5, true, 0, 2, vec![10]).unwrap();
    assert!(built.reset);
    assert_eq!(built.entities, vec![10, 20]);
}

#[test]
fn snapshot_of_another_generation_starts_over() {
    let mut ingress = SnapshotIngress::new();
    assert!(ingress.push(1, true, 0, 2, vec![1]).is_none());
    assert!(ingress.push(2, false, 1, 2, vec![2]).is_none());
    let built = ingress.push(2, false, 0, 2, vec![3]).unwrap();
    assert!(!built.reset);
    assert_eq!(built.entities, vec![3, 2]);
    let single = ingress.push(2, true, 0, 1, vec![4]).unwrap();
    assert!(single.reset);
    assert_eq!(single.entities, vec![4]);
    assert!(ingress.push(2, true, 3, 3, vec![5]).is_none());
}

#[test]
fn fragments_are_joined_in_fragment_order() {
    let mut assembler = FragmentAssembler::new();
    assert_eq!(assembler.insert(4, 2, 3, vec![5, 6]), None);
    assert_eq!(assembler.insert(4, 0, 3, vec![1, 2]), None);
    assert_eq!(assembler.insert(4, 0, 3, vec![9, 9]), None);
    assert_eq!(assembler.insert(4, 1, 3, vec![3, 4]), Some(vec![1, 2, 3, 4, 5, 6]));
}

#[test]
fn a_fragment_of_another_message_starts_over() {
    let mut assembler = FragmentAssembler::new();
    assert_eq!(assembler.insert(1, 0, 2, vec![1]), None);
    assert_eq!(assembler.insert(2, 0, 2, vec![7]), None);
    assert_eq!(assembler.insert(1, 1, 2, vec![2]), None);
    assert_eq!(assembler.insert(1, 0, 2, vec![1]), Some(vec![1, 2]));
    assert_eq!(assembler.insert(3, 0, 1, vec![8, 8]), Some(vec![8, 8]));
    assert_eq!(assembler.insert(3, 1, 1, vec![8]), None);
}

#[test]
fn receive_reliable_tracks_acks_duplicates_and_fragments() {
    let limits = PayloadLimits { reliable: 1146, fragment: 1140, unreliable: 1147, unreliable_fragment: 1143 };
    let mut events = ReliableChannel::new(limits);
    let mut state = ReliableChannel::with_stream(STREAM_STATE, limits);
    let mut assembler = FragmentAssembler::new();
    let mut acks = Vec::new();

    let whole = receive_reliable(&mut events, &mut state, &mut assembler, &mut acks, STREAM_EVENT, 3, ReliableBody::Complete(vec![1, 2]));
    assert_eq!(whole, Some(vec![1, 2]));
    let again = receive_reliable(&mut events, &mut state, &mut assembler, &mut acks, STREAM_EVENT, 3, ReliableBody::Complete(vec![1, 2]));
    assert_eq!(again, None);
    // The same sequence on the other stream is new there.
    let other = receive_reliable(&mut events, &mut state, &mut assembler, &mut acks, STREAM_STATE, 3, ReliableBody::Complete(vec![9]));
    assert_eq!(other, Some(vec![9]));

    let first = ReliableBody::Fragment { packet_id: 5, fragment_idx: 0, total_fragments: 2, data: vec![7] };
    assert_eq!(receive_reliable(&mut events, &mut state, &mut assembler, &mut acks, STREAM_EVENT, 4, first), None);
    let second = ReliableBody::Fragment { packet_id: 5, fragment_idx: 1, total_fragments: 2, data: vec![8] };
    assert_eq!(receive_reliable(&mut events, &mut state, &mut assembler, &mut acks, STREAM_EVENT, 5, second), Some(vec![7, 8]));

    assert_eq!(acks, vec![(STREAM_EVENT, 3), (STREAM_EVENT, 3), (STREAM_STATE, 3), (STREAM_EVENT, 4), (STREAM_EVENT, 5)]);
}

#[test]
fn snapshot_series_in_any_order_completes_with_the_last_new_part() {
    let mut ingress: SnapshotIngress<u8> = SnapshotIngress::new();
    assert!(ingress.push(4, false, 2, 3, vec![30]).is_none());
    assert!(ingress.push(4, true, 0, 3, vec![10]).is_none());
    assert!(ingress.push(4, false, 2, 3, vec![99]).is_none());
    assert!(ingress.push(4, false, 0, 3, vec![88]).is_none());
    let built = ingress.push(4, true, 1, 3, vec![20]).expect("every part arrived");
    assert_eq!(built.entities, vec![10, 20, 30]);
    assert!(!built.reset);
    assert!(ingress.push(4, true, 0, 3, vec![1]).is_none());
}
