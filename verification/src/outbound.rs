use std::collections::VecDeque;
use vstd::prelude::*;
use crate::reliable::ReliableChannel;
use crate::server::OUTBOUND_CAP;

verus! {

broadcast use vstd::std_specs::vecdeque::group_vec_dequeue_axioms;

/// Queues the reliable message `payload` behind those waiting for `channel`,
/// unless `OUTBOUND_CAP` messages and packets already wait (those in `local`
/// plus the packets queued in the channel); returns whether it was queued.
pub fn queue_reliable(local: &mut VecDeque<Vec<u8>>, channel: &ReliableChannel, payload: Vec<u8>) -> (queued: bool)
    requires
        channel.wf(),
    ensures
        queued == (old(local)@.len() + channel.unsent_view().len() < OUTBOUND_CAP),
        queued ==> final(local)@ == old(local)@.push(payload),
        !queued ==> final(local)@ == old(local)@,
{
    proof {
        channel.lemma_window_bounds();
    }
    if local.len() >= OUTBOUND_CAP - channel.unsent_count() {
        return false;
    }
    local.push_back(payload);
    true
}

/// How many of `local` messages are kept when `restored` messages go in front:
/// as many as fit under `OUTBOUND_CAP` behind them.
pub open spec fn kept_local(restored: nat, local: nat) -> nat {
    if restored >= OUTBOUND_CAP {
        0
    } else if local <= OUTBOUND_CAP - restored {
        local
    } else {
        (OUTBOUND_CAP - restored) as nat
    }
}

/// Puts the messages `restored` (unacknowledged ones of a connection that
/// ended) in front of the local queue: the newest local messages are dropped
/// until both fit under `OUTBOUND_CAP`, and of `restored` at most the oldest
/// `OUTBOUND_CAP` are kept.
pub fn reclaim_reliable(restored: Vec<Vec<u8>>, local: &mut VecDeque<Vec<u8>>)
    ensures
        final(local)@ == restored@.take(if restored@.len() <= OUTBOUND_CAP {
            restored@.len() as int
        } else {
            OUTBOUND_CAP as int
        }) + old(local)@.take(kept_local(restored@.len(), old(local)@.len()) as int),
{
    let ghost old_local = local@;
    let keep: usize = if restored.len() >= OUTBOUND_CAP {
        0
    } else if local.len() <= OUTBOUND_CAP - restored.len() {
        local.len()
    } else {
        OUTBOUND_CAP - restored.len()
    };
    while local.len() > keep
        invariant
            keep <= old_local.len(),
            keep <= local@.len() <= old_local.len(),
            local@ == old_local.take(local@.len() as int),
        decreases local@.len(),
    {
        local.pop_back();
        proof {
            assert(local@ =~= old_local.take(local@.len() as int));
        }
    }
    let take = if restored.len() <= OUTBOUND_CAP {
        restored.len()
    } else {
        OUTBOUND_CAP
    };
    let ghost all = restored@;
    let mut rest = restored;
    while rest.len() > take
        invariant
            take <= all.len(),
            take <= rest@.len() <= all.len(),
            rest@ == all.take(rest@.len() as int),
        decreases rest@.len(),
    {
        rest.pop();
        proof {
            assert(rest@ =~= all.take(rest@.len() as int));
        }
    }
    let mut merged: VecDeque<Vec<u8>> = VecDeque::new();
    let ghost head = rest@;
    while rest.len() > 0
        invariant
            merged@ + rest@ == head,
        decreases rest@.len(),
    {
        let m = rest.remove(0);
        merged.push_back(m);
        proof {
            assert(merged@ + rest@ =~= head);
        }
    }
    proof {
        assert(merged@ =~= head);
    }
    let ghost front = merged@;
    let ghost kept = local@;
    while local.len() > 0
        invariant
            merged@ + local@ == front + kept,
        decreases local@.len(),
    {
        let ghost before = local@;
        match local.pop_front() {
            Some(m) => {
                merged.push_back(m);
                proof {
                    assert(merged@ + local@ =~= front + kept);
                }
            },
            None => {},
        }
    }
    proof {
        assert(merged@ =~= front + kept);
    }
    std::mem::swap(local, &mut merged);
}

} // verus!
