use std::collections::VecDeque;

use base::outbound::{queue_reliable, reclaim_reliable};
use base::packet::PayloadLimits;
use base::reliable::{EnqueueStatus, ReliableChannel};
use base::server::OUTBOUND_CAP;

fn limits() -> PayloadLimits {
    PayloadLimits { reliable: 1146, fragment: 1140, unreliable: 1147, unreliable_fragment: 1143 }
}

#[test]
fn queue_reliable_counts_channel_packets_toward_the_cap() {
    let mut channel = ReliableChannel::new(limits());
    for _ in 0..10 {
        assert_eq!(channel.enqueue(&[1; 4]), EnqueueStatus::Queued);
    }
    let mut local: VecDeque<Vec<u8>> = (0..OUTBOUND_CAP - 11).map(|i| vec![i as u8]).collect();
    assert!(queue_reliable(&mut local, &channel, vec![42]));
    assert_eq!(local.len(), OUTBOUND_CAP - 10);
    assert_eq!(local.back(), Some(&vec![42]));
    assert!(!queue_reliable(&mut local, &channel, vec![43]));
    assert_eq!(local.len(), OUTBOUND_CAP - 10);
}

#[test]
fn reclaimed_messages_go_in_front_and_newest_local_ones_drop() {
    let mut local: VecDeque<Vec<u8>> = VecDeque::from(vec![vec![10], vec![11]]);
    reclaim_reliable(vec![vec![1], vec![2]], &mut local);
    assert_eq!(Vec::from(local), vec![vec![1], vec![2], vec![10], vec![11]]);

    let mut full: VecDeque<Vec<u8>> = (0..OUTBOUND_CAP).map(|i| vec![(i % 250) as u8, 7]).collect();
    reclaim_reliable(vec![vec![1], vec![2], vec![3]], &mut full);
    assert_eq!(full.len(), OUTBOUND_CAP);
    assert_eq!(full[0], vec![1]);
    assert_eq!(full[3], vec![0, 7]);
    assert_eq!(full[OUTBOUND_CAP - 1], vec![((OUTBOUND_CAP - 4) % 250) as u8, 7]);

    let mut some: VecDeque<Vec<u8>> = VecDeque::from(vec![vec![9]]);
    let many: Vec<Vec<u8>> = (0..OUTBOUND_CAP + 5).map(|i| vec![(i % 250) as u8]).collect();
    reclaim_reliable(many, &mut some);
    assert_eq!(some.len(), OUTBOUND_CAP);
    assert_eq!(some[OUTBOUND_CAP - 1], vec![((OUTBOUND_CAP - 1) % 250) as u8]);
}
