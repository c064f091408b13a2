use vstd::prelude::*;
use crate::ingress::{BuiltSnapshot, SnapshotIngress, snapshot_pushed};

verus! {

/// `s` holds no part of any snapshot, as a new ingress does.
pub open spec fn fresh_ingress<T>(s: SnapshotIngress<T>) -> bool {
    &&& s.wf()
    &&& s.generation_view() == 0
    &&& !s.reset_view()
    &&& s.part_count_view() == 0
    &&& s.parts_view().len() == 0
}

/// Keeps the client's world in step with the server's connection generation:
/// after the server hands out a new generation, the client's world waits for
/// that generation's snapshot, and every other message received meanwhile is
/// held back until the snapshot is in, then released in arrival order.
pub struct WorldSync<T, M> {
    generation: u32,
    holding: bool,
    held: Vec<M>,
    snapshots: SnapshotIngress<T>,
}

impl<T, M> WorldSync<T, M> {
    pub closed spec fn generation_view(&self) -> u32 {
        self.generation
    }

    pub closed spec fn holding_view(&self) -> bool {
        self.holding
    }

    pub closed spec fn held_view(&self) -> Seq<M> {
        self.held@
    }

    pub closed spec fn snapshots_view(&self) -> SnapshotIngress<T> {
        self.snapshots
    }

    pub closed spec fn wf(&self) -> bool {
        self.snapshots.wf()
    }

    /// In step with generation 0, holding nothing back.
    pub fn new() -> (w: Self)
        ensures
            w.wf(),
            w.generation_view() == 0,
            !w.holding_view(),
            w.held_view().len() == 0,
            fresh_ingress(w.snapshots_view()),
    {
        WorldSync { generation: 0, holding: false, held: Vec::new(), snapshots: SnapshotIngress::new() }
    }

    /// The connection came up in `generation`. When it is another generation
    /// than the world's, the world must be rebuilt: this returns true, drops
    /// what was held and what was gathered of a snapshot, and holds messages back
    /// until the new generation's snapshot is in. Otherwise nothing changes.
    pub fn on_connected(&mut self, generation: u32) -> (restart: bool)
        requires
            old(self).wf(),
        ensures
            final(self).wf(),
            restart == (old(self).generation_view() != generation),
            restart ==> {
                &&& final(self).generation_view() == generation
                &&& final(self).holding_view()
                &&& final(self).held_view().len() == 0
                &&& fresh_ingress(final(self).snapshots_view())
            },
            !restart ==> {
                &&& final(self).generation_view() == old(self).generation_view()
                &&& final(self).holding_view() == old(self).holding_view()
                &&& final(self).held_view() == old(self).held_view()
                &&& final(self).snapshots_view() == old(self).snapshots_view()
            },
    {
        if self.generation == generation {
            return false;
        }
        self.generation = generation;
        self.holding = true;
        self.held = Vec::new();
        self.snapshots = SnapshotIngress::new();
        true
    }

    /// A part of the world snapshot of `generation`. Parts of another generation
    /// are dropped. A part that completes the snapshot gives it back together
    /// with the messages held meanwhile, in arrival order, and stops holding
    /// messages back; any other part starts holding them back.
    pub fn on_snapshot(&mut self, generation: u32, reset: bool, part: u16, parts: u16, entities: Vec<T>) -> (r: Option<
        (BuiltSnapshot<T>, Vec<M>),
    >)
        requires
            old(self).wf(),
        ensures
            final(self).wf(),
            final(self).generation_view() == old(self).generation_view(),
            generation != old(self).generation_view() ==> {
                &&& r is None
                &&& final(self).holding_view() == old(self).holding_view()
                &&& final(self).held_view() == old(self).held_view()
                &&& final(self).snapshots_view() == old(self).snapshots_view()
            },
            generation == old(self).generation_view() ==> match r {
                Some((built, released)) => {
                    &&& snapshot_pushed(old(self).snapshots_view(), final(self).snapshots_view(), generation, reset, part, parts, entities, Some(built))
                    &&& released@ == old(self).held_view()
                    &&& !final(self).holding_view()
                    &&& final(self).held_view().len() == 0
                },
                None => {
                    &&& snapshot_pushed(old(self).snapshots_view(), final(self).snapshots_view(), generation, reset, part, parts, entities, None)
                    &&& final(self).holding_view()
                    &&& final(self).held_view() == old(self).held_view()
                },
            },
    {
        if generation != self.generation {
            return None;
        }
        match self.snapshots.push(generation, reset, part, parts, entities) {
            Some(built) => {
                self.holding = false;
                let mut released: Vec<M> = Vec::new();
                std::mem::swap(&mut released, &mut self.held);
                Some((built, released))
            },
            None => {
                self.holding = true;
                None
            },
        }
    }

    /// Any other message: held back, behind those already held, while the
    /// world waits for its snapshot; otherwise handed back to be applied now.
    pub fn on_message(&mut self, message: M) -> (now: Option<M>)
        requires
            old(self).wf(),
        ensures
            final(self).wf(),
            final(self).generation_view() == old(self).generation_view(),
            final(self).holding_view() == old(self).holding_view(),
            final(self).snapshots_view() == old(self).snapshots_view(),
            old(self).holding_view() ==> now is None && final(self).held_view() == old(self).held_view().push(message),
            !old(self).holding_view() ==> now == Some(message) && final(self).held_view() == old(self).held_view(),
    {
        if self.holding {
            self.held.push(message);
            None
        } else {
            Some(message)
        }
    }
}

} // verus!
