use std::collections::VecDeque;
use vstd::prelude::*;
use crate::handle::{EntityHandle, handle_bits, spec_next_generation, INDEX_MASK, lemma_handle_fields};

verus! {

broadcast use vstd::std_specs::vecdeque::group_vec_dequeue_axioms;

/// Free slots kept back before reuse starts, so that a freed slot is not
/// handed out again at once.
pub const MIN_FREE_SLOTS: usize = 64;

/// Marks a slot whose entity is not in the think list.
pub const NOT_THINKING: u32 = 0xffff_ffff;

/// The slot limit of a list made with `new`.
pub const DEFAULT_MAX_ENTITIES: usize = 102400;

/// How many slots hold an entity.
pub open spec fn occupied<E>(entities: Seq<Option<E>>) -> nat
    decreases entities.len(),
{
    if entities.len() == 0 {
        0
    } else {
        occupied(entities.drop_last()) + if entities.last() is Some {
            1nat
        } else {
            0nat
        }
    }
}

proof fn lemma_occupied_bound<E>(entities: Seq<Option<E>>)
    ensures
        occupied(entities) <= entities.len(),
    decreases entities.len(),
{
    if entities.len() > 0 {
        lemma_occupied_bound(entities.drop_last());
    }
}

proof fn lemma_occupied_update<E>(entities: Seq<Option<E>>, i: int, v: Option<E>)
    requires
        0 <= i < entities.len(),
    ensures
        occupied(entities.update(i, v)) + (if entities[i] is Some { 1nat } else { 0nat }) == occupied(entities)
            + (if v is Some { 1nat } else { 0nat }),
    decreases entities.len(),
{
    let u = entities.update(i, v);
    if i == entities.len() - 1 {
        assert(u.drop_last() =~= entities.drop_last());
    } else {
        lemma_occupied_update(entities.drop_last(), i, v);
        assert(u.drop_last() =~= entities.drop_last().update(i, v));
    }
}

proof fn lemma_occupied_push_none<E>(entities: Seq<Option<E>>)
    ensures
        occupied(entities.push(None)) == occupied(entities),
{
    assert(entities.push(None).drop_last() =~= entities);
}

proof fn lemma_all_occupied<E>(entities: Seq<Option<E>>)
    requires
        forall|i: int| 0 <= i < entities.len() ==> #[trigger] entities[i] is Some,
    ensures
        occupied(entities) == entities.len(),
    decreases entities.len(),
{
    if entities.len() > 0 {
        let rest = entities.drop_last();
        assert forall|i: int| 0 <= i < rest.len() implies #[trigger] rest[i] is Some by {
            assert(rest[i] == entities[i]);
        }
        lemma_all_occupied(rest);
    }
}

proof fn lemma_earliest_empty<E>(free: Seq<u32>, entities: Seq<Option<E>>, k: int)
    requires
        0 <= k < free.len(),
        entities[free[k] as int] is None,
    ensures
        exists|c: int|
            0 <= c < free.len() && #[trigger] entities[free[c] as int] is None && forall|j: int|
                0 <= j < c ==> #[trigger] entities[free[j] as int] is Some,
    decreases k,
{
    if exists|j: int| 0 <= j < k && #[trigger] entities[free[j] as int] is None {
        let j = choose|j: int| 0 <= j < k && #[trigger] entities[free[j] as int] is None;
        lemma_earliest_empty(free, entities, j);
    } else {
        assert(forall|j: int| 0 <= j < k ==> #[trigger] entities[free[j] as int] is Some);
    }
}

proof fn lemma_first_empty_free<E>(free: Seq<u32>, entities: Seq<Option<E>>)
    ensures
        first_empty_free(free, entities) matches Some(k) ==> {
            &&& 0 <= k < free.len()
            &&& entities[free[k] as int] is None
            &&& forall|j: int| 0 <= j < k ==> #[trigger] entities[free[j] as int] is Some
        },
        first_empty_free(free, entities) is None ==> forall|j: int|
            0 <= j < free.len() ==> #[trigger] entities[free[j] as int] is Some,
{
    if exists|k: int| 0 <= k < free.len() && #[trigger] entities[free[k] as int] is None {
        let k = choose|k: int| 0 <= k < free.len() && #[trigger] entities[free[k] as int] is None;
        lemma_earliest_empty(free, entities, k);
    }
}

/// The index of the first entry of `free` whose slot is empty, if any.
pub open spec fn first_empty_free<E>(free: Seq<u32>, entities: Seq<Option<E>>) -> Option<int> {
    if exists|k: int| 0 <= k < free.len() && #[trigger] entities[free[k] as int] is None {
        Some(choose|k: int| 0 <= k < free.len() && #[trigger] entities[free[k] as int] is None
            && forall|j: int| 0 <= j < k ==> #[trigger] entities[free[j] as int] is Some)
    } else {
        None
    }
}

/// The slot the allocator picks and the free queue it leaves (see `allocate_index`).
pub open spec fn alloc_result<E>(l: EntityList<E>) -> (Option<u32>, Seq<u32>) {
    let at_capacity = l.slot_count() >= l.max_view();
    let scan = at_capacity || l.free_view().len() > MIN_FREE_SLOTS;
    let found = first_empty_free(l.free_view(), l.entities_view());
    if scan && found is Some {
        (Some(l.free_view()[found->0]), l.free_view().skip(found->0 + 1))
    } else {
        (
            if at_capacity {
                None
            } else {
                Some(l.slot_count() as u32)
            },
            if scan {
                Seq::empty()
            } else {
                l.free_view()
            },
        )
    }
}

/// `seq` with `value` appended when the allocator added a new slot.
pub open spec fn after_alloc<E, T>(l: EntityList<E>, seq: Seq<T>, value: T) -> Seq<T> {
    if alloc_result(l).0 == Some(l.slot_count() as u32) {
        seq.push(value)
    } else {
        seq
    }
}

/// `seq` padded with `value` up to `len` entries.
pub open spec fn padded<T>(seq: Seq<T>, len: nat, value: T) -> Seq<T> {
    if seq.len() >= len {
        seq
    } else {
        seq + Seq::new((len - seq.len()) as nat, |i: int| value)
    }
}

/// The handles of the occupied slots among the first `n`, in slot order.
pub open spec fn live_handles<E>(generations: Seq<u16>, entities: Seq<Option<E>>, n: nat) -> Seq<EntityHandle>
    decreases n,
{
    if n == 0 {
        Seq::empty()
    } else {
        let rest = live_handles(generations, entities, (n - 1) as nat);
        if entities[n - 1] is Some {
            rest.push(EntityHandle(handle_bits((n - 1) as u32, generations[n - 1])))
        } else {
            rest
        }
    }
}

/// The slots of entities, each with a generation that advances whenever its
/// entity is removed, and the list of entities that think every tick.
pub struct EntityList<E> {
    generations: Vec<u16>,
    think_idx: Vec<u32>,
    entities: Vec<Option<E>>,
    free: VecDeque<u32>,
    think_list: Vec<EntityHandle>,
    max_entities: usize,
    count: usize,
}

impl<E> EntityList<E> {
    pub closed spec fn generations_view(&self) -> Seq<u16> {
        self.generations@
    }

    pub closed spec fn think_idx_view(&self) -> Seq<u32> {
        self.think_idx@
    }

    pub closed spec fn entities_view(&self) -> Seq<Option<E>> {
        self.entities@
    }

    pub closed spec fn free_view(&self) -> Seq<u32> {
        self.free@
    }

    pub closed spec fn think_view(&self) -> Seq<EntityHandle> {
        self.think_list@
    }

    pub closed spec fn max_view(&self) -> nat {
        self.max_entities as nat
    }

    pub closed spec fn count_view(&self) -> nat {
        self.count as nat
    }

    /// The slot count.
    pub open spec fn slot_count(&self) -> nat {
        self.entities_view().len()
    }

    /// The slot vectors agree in length and stay within the limit; the think
    /// list and the slots' think positions point at each other; free entries
    /// name existing slots; the count never exceeds the occupied slots.
    pub closed spec fn wf(&self) -> bool {
        &&& self.generations@.len() == self.entities@.len()
        &&& self.think_idx@.len() == self.entities@.len()
        &&& self.entities@.len() <= self.max_entities
        &&& 1 <= self.max_entities <= EntityHandle::MAX_ENTITIES
        &&& forall|i: int|
            0 <= i < self.think_list@.len() ==> {
                let s = (#[trigger] self.think_list@[i]).spec_index() as int;
                &&& s < self.entities@.len()
                &&& self.think_idx@[s] == i
            }
        &&& forall|s: int|
            0 <= s < self.entities@.len() && #[trigger] self.think_idx@[s] != NOT_THINKING ==> {
                &&& (self.think_idx@[s] as int) < self.think_list@.len()
                &&& self.think_list@[self.think_idx@[s] as int].spec_index() == s
            }
        &&& forall|j: int| 0 <= j < self.free@.len() ==> (#[trigger] self.free@[j] as int) < self.entities@.len()
        &&& self.count <= occupied(self.entities@)
        &&& forall|i: int| 0 <= i < self.generations@.len() ==> #[trigger] self.generations@[i] <= 0x7ff
    }

    /// A handle names a slot whose generation it carries and that holds an entity.
    pub open spec fn spec_is_valid(&self, handle: EntityHandle) -> bool {
        &&& handle.0 != 0
        &&& (handle.spec_index() as int) < self.slot_count()
        &&& self.generations_view()[handle.spec_index() as int] == handle.spec_generation()
        &&& self.entities_view()[handle.spec_index() as int] is Some
    }

    /// Every empty slot waits in the free queue.
    pub open spec fn empties_queued(&self) -> bool {
        forall|s: int|
            0 <= s < self.slot_count() && #[trigger] self.entities_view()[s] is None ==> self.free_view().contains(
                s as u32,
            )
    }

    /// An empty list whose slots may number up to `max_entities`, kept between 1
    /// and `EntityHandle::MAX_ENTITIES`.
    pub fn with_max_entities(max_entities: usize) -> (l: Self)
        ensures
            l.wf(),
            l.empties_queued(),
            l.slot_count() == 0,
            l.free_view().len() == 0,
            l.think_view().len() == 0,
            l.count_view() == 0,
            l.max_view() == if max_entities < 1 {
                1
            } else if max_entities > EntityHandle::MAX_ENTITIES {
                EntityHandle::MAX_ENTITIES as nat
            } else {
                max_entities as nat
            },
    {
        let max = if max_entities < 1 {
            1
        } else if max_entities > EntityHandle::MAX_ENTITIES {
            EntityHandle::MAX_ENTITIES
        } else {
            max_entities
        };
        EntityList {
            generations: Vec::new(),
            think_idx: Vec::new(),
            entities: Vec::new(),
            free: VecDeque::new(),
            think_list: Vec::new(),
            max_entities: max,
            count: 0,
        }
    }

    /// An empty list with room for `DEFAULT_MAX_ENTITIES` slots.
    pub fn new() -> (l: Self)
        ensures
            l.wf(),
            l.empties_queued(),
            l.slot_count() == 0,
            l.free_view().len() == 0,
            l.think_view().len() == 0,
            l.count_view() == 0,
            l.max_view() == DEFAULT_MAX_ENTITIES,
    {
        Self::with_max_entities(DEFAULT_MAX_ENTITIES)
    }

    /// The entity count.
    pub fn len(&self) -> (n: usize)
        ensures
            n == self.count_view(),
    {
        self.count
    }

    pub fn is_empty(&self) -> (r: bool)
        ensures
            r == (self.count_view() == 0),
    {
        self.count == 0
    }

    /// How many entities think every tick.
    pub fn think_count(&self) -> (n: usize)
        ensures
            n == self.think_view().len(),
    {
        self.think_list.len()
    }

    /// The handle at position `i` of the think list.
    pub fn think_handle(&self, i: usize) -> (h: EntityHandle)
        requires
            i < self.think_view().len(),
        ensures
            h == self.think_view()[i as int],
    {
        self.think_list[i]
    }

    pub fn max_entities(&self) -> (n: usize)
        ensures
            n == self.max_view(),
    {
        self.max_entities
    }

    /// True when `handle` names a live entity.
    pub fn is_valid(&self, handle: EntityHandle) -> (r: bool)
        requires
            self.wf(),
        ensures
            r == self.spec_is_valid(handle),
    {
        if handle.is_null() {
            return false;
        }
        let idx = handle.index() as usize;
        if idx < self.entities.len() {
            self.generations[idx] == handle.generation() && self.entities[idx].is_some()
        } else {
            false
        }
    }

    /// The entity `handle` names, when its slot carries the handle's generation.
    pub fn get(&self, handle: EntityHandle) -> (r: Option<&E>)
        requires
            self.wf(),
        ensures
            match r {
                Some(e) => (handle.spec_index() as int) < self.slot_count()
                    && self.generations_view()[handle.spec_index() as int] == handle.spec_generation()
                    && self.entities_view()[handle.spec_index() as int] == Some(*e),
                None => (handle.spec_index() as int) >= self.slot_count()
                    || self.generations_view()[handle.spec_index() as int] != handle.spec_generation()
                    || self.entities_view()[handle.spec_index() as int] is None,
            },
    {
        let idx = handle.index() as usize;
        if idx >= self.entities.len() {
            return None;
        }
        if self.generations[idx] != handle.generation() {
            return None;
        }
        match &self.entities[idx] {
            Some(e) => Some(e),
            None => None,
        }
    }

    /// Puts `handle` on the think list unless its slot is missing or already
    /// thinking.
    fn add_think(&mut self, handle: EntityHandle)
        requires
            old(self).wf(),
        ensures
            final(self).wf(),
            final(self).generations@ == old(self).generations@,
            final(self).entities@ == old(self).entities@,
            final(self).free@ == old(self).free@,
            final(self).max_entities == old(self).max_entities,
            final(self).count == old(self).count,
            ({
                let s = handle.spec_index() as int;
                if s < old(self).entities@.len() && old(self).think_idx@[s] == NOT_THINKING {
                    &&& final(self).think_list@ == old(self).think_list@.push(handle)
                    &&& final(self).think_idx@ == old(self).think_idx@.update(s, old(self).think_list@.len() as u32)
                } else {
                    &&& final(self).think_list@ == old(self).think_list@
                    &&& final(self).think_idx@ == old(self).think_idx@
                }
            }),
    {
        let idx = handle.index() as usize;
        proof {
            self.lemma_think_bound();
        }
        let think_idx = self.think_list.len() as u32;
        if idx < self.think_idx.len() && self.think_idx[idx] == NOT_THINKING {
            let ghost before_list = self.think_list@;
            let ghost before_idx = self.think_idx@;
            self.think_idx.set(idx, think_idx);
            self.think_list.push(handle);
            proof {
                assert forall|i: int| 0 <= i < self.think_list@.len() implies {
                    let s = (#[trigger] self.think_list@[i]).spec_index() as int;
                    &&& s < self.entities@.len()
                    &&& self.think_idx@[s] == i
                } by {
                    if i < before_list.len() {
                        let s = before_list[i].spec_index() as int;
                        assert(self.think_list@[i] == before_list[i]);
                        assert(before_idx[s] == i);
                        assert(s != idx);
                    }
                }
                assert forall|s: int|
                    0 <= s < self.entities@.len() && #[trigger] self.think_idx@[s] != NOT_THINKING implies {
                    &&& (self.think_idx@[s] as int) < self.think_list@.len()
                    &&& self.think_list@[self.think_idx@[s] as int].spec_index() == s
                } by {
                    if s != idx {
                        assert(self.think_idx@[s] == before_idx[s]);
                    }
                }
            }
        }
    }

    /// The think list is no longer than the slot count.
    proof fn lemma_think_bound(&self)
        requires
            self.wf(),
        ensures
            self.think_list@.len() <= self.entities@.len(),
            self.think_list@.len() < NOT_THINKING,
    {
        let n = self.think_list@.len();
        let f = |i: int| self.think_list@[i].spec_index() as int;
        assert forall|a: int, b: int| 0 <= a < n && 0 <= b < n && a != b implies #[trigger] f(a) != #[trigger] f(b) by {
            assert(self.think_idx@[f(a)] == a);
            assert(self.think_idx@[f(b)] == b);
        }
        lemma_injective_bound(f, n, self.entities@.len());
    }

    /// Takes the slot of `handle` off the think list, moving the last entry into
    /// its place.
    fn remove_think(&mut self, handle: EntityHandle)
        requires
            old(self).wf(),
        ensures
            final(self).wf(),
            final(self).generations@ == old(self).generations@,
            final(self).entities@ == old(self).entities@,
            final(self).free@ == old(self).free@,
            final(self).max_entities == old(self).max_entities,
            final(self).count == old(self).count,
            ({
                let s = handle.spec_index() as int;
                if s < old(self).entities@.len() && old(self).think_idx@[s] != NOT_THINKING {
                    let t = old(self).think_idx@[s] as int;
                    let last = old(self).think_list@.len() - 1;
                    &&& final(self).think_list@ == old(self).think_list@.update(t, old(self).think_list@[last]).drop_last()
                    &&& final(self).think_idx@[s] == NOT_THINKING
                } else {
                    &&& final(self).think_list@ == old(self).think_list@
                    &&& final(self).think_idx@ == old(self).think_idx@
                }
            }),
    {
        let idx = handle.index() as usize;
        if idx >= self.think_idx.len() || self.think_idx[idx] == NOT_THINKING {
            return;
        }
        let found = self.think_idx[idx];
        let ghost before_list = self.think_list@;
        let ghost before_idx = self.think_idx@;
        self.think_idx.set(idx, NOT_THINKING);
        let last = self.think_list.len() - 1;
        self.think_list.swap_remove(found as usize);
        if (found as usize) < last {
            let moved = self.think_list[found as usize];
            let m = moved.index() as usize;
            proof {
                assert(moved == before_list[last as int]);
                assert(before_idx[m as int] == last);
                assert(m != idx);
            }
            self.think_idx.set(m, found);
        }
        proof {
            assert forall|i: int| 0 <= i < self.think_list@.len() implies {
                let s = (#[trigger] self.think_list@[i]).spec_index() as int;
                &&& s < self.entities@.len()
                &&& self.think_idx@[s] == i
            } by {
                if i != found {
                    assert(self.think_list@[i] == before_list[i]);
                    let s = before_list[i].spec_index() as int;
                    assert(before_idx[s] == i);
                }
            }
            assert forall|s: int|
                0 <= s < self.entities@.len() && #[trigger] self.think_idx@[s] != NOT_THINKING implies {
                &&& (self.think_idx@[s] as int) < self.think_list@.len()
                &&& self.think_list@[self.think_idx@[s] as int].spec_index() == s
            } by {
                let t = before_idx[s];
                if s != idx && t != last {
                    assert(self.think_idx@[s] == t);
                    assert(t != found);
                    assert(self.think_list@[t as int] == before_list[t as int]);
                }
            }
        }
    }

    /// Finds a slot for a new entity. When the list is at its slot limit, or more
    /// than `MIN_FREE_SLOTS` slots wait in the free queue, free entries are taken
    /// oldest first until one names an empty slot. Otherwise, or when none does,
    /// a new empty slot is added unless the limit is reached.
    fn allocate_index(&mut self) -> (r: Option<u32>)
        requires
            old(self).wf(),
        ensures
            final(self).wf(),
            final(self).think_list@ == old(self).think_list@,
            final(self).max_entities == old(self).max_entities,
            final(self).count == old(self).count,
            ({
                let at_capacity = old(self).entities@.len() >= old(self).max_entities;
                let scan = at_capacity || old(self).free@.len() > MIN_FREE_SLOTS;
                let found = first_empty_free(old(self).free@, old(self).entities@);
                if scan && found is Some {
                    let k = found->0;
                    &&& r == Some(old(self).free@[k])
                    &&& final(self).free@ == old(self).free@.skip(k + 1)
                    &&& final(self).entities@ == old(self).entities@
                    &&& final(self).generations@ == old(self).generations@
                    &&& final(self).think_idx@ == old(self).think_idx@
                } else {
                    &&& final(self).free@ == if scan {
                        Seq::<u32>::empty()
                    } else {
                        old(self).free@
                    }
                    &&& if at_capacity {
                        &&& r is None
                        &&& final(self).entities@ == old(self).entities@
                        &&& final(self).generations@ == old(self).generations@
                        &&& final(self).think_idx@ == old(self).think_idx@
                    } else {
                        &&& r == Some(old(self).entities@.len() as u32)
                        &&& final(self).entities@ == old(self).entities@.push(None)
                        &&& final(self).generations@ == old(self).generations@.push(0)
                        &&& final(self).think_idx@ == old(self).think_idx@.push(NOT_THINKING)
                    }
                }
            }),
            r matches Some(i) ==> (i as int) < final(self).entities@.len() && final(self).entities@[i as int] is None,
    {
        let at_capacity = self.entities.len() >= self.max_entities;
        let ghost free0 = self.free@;
        let ghost found = first_empty_free(free0, self.entities@);
        if at_capacity || self.free.len() > MIN_FREE_SLOTS {
            let n = self.free.len();
            let mut popped: usize = 0;
            loop
                invariant_except_break
                    self.wf(),
                    self.think_list@ == old(self).think_list@,
                    self.entities@ == old(self).entities@,
                    self.generations@ == old(self).generations@,
                    self.think_idx@ == old(self).think_idx@,
                    self.max_entities == old(self).max_entities,
                    self.count == old(self).count,
                    free0 == old(self).free@,
                    found == first_empty_free(free0, old(self).entities@),
                    at_capacity == (old(self).entities@.len() >= old(self).max_entities),
                    at_capacity || free0.len() > MIN_FREE_SLOTS,
                    n == free0.len(),
                    popped <= free0.len(),
                    self.free@ == free0.skip(popped as int),
                    forall|j: int| 0 <= j < popped ==> #[trigger] self.entities@[free0[j] as int] is Some,
                ensures
                    self.wf(),
                    self.think_list@ == old(self).think_list@,
                    self.entities@ == old(self).entities@,
                    self.generations@ == old(self).generations@,
                    self.think_idx@ == old(self).think_idx@,
                    self.max_entities == old(self).max_entities,
                    self.count == old(self).count,
                    found is None,
                    self.free@.len() == 0,
                decreases self.free@.len(),
            {
                let next = self.free.pop_front();
                match next {
                    None => {
                        proof {
                            assert(free0.skip(popped as int).len() == 0);
                            assert(popped == free0.len());
                            if found is Some {
                                assert(exists|k: int| 0 <= k < free0.len() && #[trigger] old(self).entities@[free0[k] as int] is None);
                                let k = choose|k: int| 0 <= k < free0.len() && #[trigger] old(self).entities@[free0[k] as int] is None;
                                assert(self.entities@[free0[k] as int] is Some);
                                assert(false);
                            }
                        }
                        break;
                    },
                    Some(idx) => {
                        proof {
                            assert(idx == free0[popped as int]);
                            assert(self.free@ =~= free0.skip(popped + 1));
                        }
                        if self.entities[idx as usize].is_none() {
                            proof {
                                let k = popped as int;
                                let ents = old(self).entities@;
                                assert(ents[free0[k] as int] is None);
                                assert(exists|j: int| 0 <= j < free0.len() && #[trigger] ents[free0[j] as int] is None);
                                assert(forall|j: int| 0 <= j < k ==> #[trigger] ents[free0[j] as int] is Some);
                                let c = choose|c: int| 0 <= c < free0.len() && #[trigger] ents[free0[c] as int] is None
                                    && forall|j: int| 0 <= j < c ==> #[trigger] ents[free0[j] as int] is Some;
                                assert(0 <= k < free0.len() && ents[free0[k] as int] is None
                                    && forall|j: int| 0 <= j < k ==> #[trigger] ents[free0[j] as int] is Some);
                                if c < k {
                                    assert(ents[free0[c] as int] is Some);
                                } else if c > k {
                                    assert(ents[free0[k] as int] is Some);
                                }
                                assert(c == k);
                                assert(found == Some(k));
                            }
                            return Some(idx);
                        }
                        popped = popped + 1;
                    },
                }
            }
        }
        if at_capacity {
            return None;
        }
        let idx = self.entities.len() as u32;
        proof {
            lemma_occupied_push_none(self.entities@);
        }
        self.generations.push(0);
        self.think_idx.push(NOT_THINKING);
        self.entities.push(None);
        proof {
            assert forall|i: int| 0 <= i < self.think_list@.len() implies {
                let s = (#[trigger] self.think_list@[i]).spec_index() as int;
                &&& s < self.entities@.len()
                &&& self.think_idx@[s] == i
            } by {
                let s = self.think_list@[i].spec_index() as int;
                assert(s < old(self).entities@.len());
            }
            assert forall|j: int| 0 <= j < self.free@.len() implies (#[trigger] self.free@[j] as int) < self.entities@.len() by {
                if !(at_capacity || free0.len() > MIN_FREE_SLOTS) {
                    assert(self.free@[j] == free0[j]);
                }
            }
        }
        Some(idx)
    }
}

proof fn lemma_injective_bound(f: spec_fn(int) -> int, n: nat, m: nat)
    requires
        forall|i: int| 0 <= i < n ==> 0 <= #[trigger] f(i) < m,
        forall|a: int, b: int| 0 <= a < n && 0 <= b < n && a != b ==> #[trigger] f(a) != #[trigger] f(b),
    ensures
        n <= m,
{
    let dom = vstd::set_lib::set_int_range(0, n as int);
    let range = vstd::set_lib::set_int_range(0, m as int);
    vstd::set_lib::lemma_int_range(0, n as int);
    vstd::set_lib::lemma_int_range(0, m as int);
    let image = dom.map(f);
    assert(vstd::relations::injective_on(f, dom));
    vstd::set_lib::lemma_map_size(dom, image, f);
    assert forall|x: int| image.contains(x) implies range.contains(x) by {
        let a = choose|a: int| dom.contains(a) && f(a) == x;
    }
    vstd::set_lib::lemma_len_subset(image, range);
}


impl<E> EntityList<E> {
    /// Stores `entity` in a fresh slot (see `allocate_index`) under the slot's
    /// next generation, and puts it on the think list when `wants_think`.
    /// Returns its handle, or `None` when the list is full.
    pub fn spawn(&mut self, entity: E, wants_think: bool) -> (r: Option<EntityHandle>)
        requires
            old(self).wf(),
        ensures
            final(self).wf(),
            final(self).max_view() == old(self).max_view(),
            final(self).free_view() == alloc_result(*old(self)).1,
            old(self).empties_queued() ==> final(self).empties_queued(),
            ({
                let (slot, _) = alloc_result(*old(self));
                let gens = after_alloc(*old(self), old(self).generations_view(), 0u16);
                let tidx = after_alloc(*old(self), old(self).think_idx_view(), NOT_THINKING);
                let ents = after_alloc(*old(self), old(self).entities_view(), None::<E>);
                match slot {
                    None => {
                        &&& r is None
                        &&& final(self).generations_view() == old(self).generations_view()
                        &&& final(self).think_idx_view() == old(self).think_idx_view()
                        &&& final(self).entities_view() == old(self).entities_view()
                        &&& final(self).think_view() == old(self).think_view()
                        &&& final(self).count_view() == old(self).count_view()
                    },
                    Some(i) => {
                        let generation = spec_next_generation(gens[i as int]);
                        let handle = EntityHandle(handle_bits(i, generation));
                        &&& r == Some(handle)
                        &&& final(self).spec_is_valid(handle)
                        &&& final(self).generations_view() == gens.update(i as int, generation)
                        &&& final(self).entities_view() == ents.update(i as int, Some(entity))
                        &&& final(self).count_view() == old(self).count_view() + 1
                        &&& if wants_think && tidx[i as int] == NOT_THINKING {
                            &&& final(self).think_view() == old(self).think_view().push(handle)
                            &&& final(self).think_idx_view() == tidx.update(i as int, old(self).think_view().len() as u32)
                        } else {
                            &&& final(self).think_view() == old(self).think_view()
                            &&& final(self).think_idx_view() == tidx
                        }
                    },
                }
            }),
    {
        let ghost before = *self;
        let slot = self.allocate_index();
        let idx = match slot {
            Some(idx) => idx,
            None => {
                proof {
                    if before.empties_queued() {
                        lemma_alloc_keeps_empties_queued(before, self.entities_view());
                    }
                }
                return None;
            },
        };
        proof {
            assert(self.entities@ == after_alloc(before, before.entities_view(), None::<E>));
            assert(self.generations@ == after_alloc(before, before.generations_view(), 0u16));
            assert(self.think_idx@ == after_alloc(before, before.think_idx_view(), NOT_THINKING));
        }
        let generation = EntityHandle::next_generation(self.generations[idx as usize]);
        let handle = EntityHandle::new(idx, generation);
        proof {
            lemma_occupied_update(self.entities@, idx as int, Some(entity));
            lemma_occupied_bound(self.entities@);
            assert(idx & INDEX_MASK == idx) by (bit_vector)
                requires idx < 0x20_0000u32;
            lemma_handle_fields(idx, generation);
            crate::handle::lemma_next_generation(self.generations@[idx as int]);
            assert(generation & 0x7ff == generation) by (bit_vector)
                requires 1 <= generation <= 0x7ff;
            assert(handle_bits(idx, generation) != 0) by (bit_vector)
                requires 1 <= generation <= 0x7ff, handle_bits(idx, generation) == (((generation as u32) & 0x7ff) << 21) | (idx & 0x1f_ffff);
        }
        self.generations.set(idx as usize, generation);
        self.entities.set(idx as usize, Some(entity));
        self.count = self.count + 1;
        if wants_think {
            self.add_think(handle);
        }
        proof {
            if before.empties_queued() {
                lemma_alloc_keeps_empties_queued(before, self.entities_view());
            }
        }
        Some(handle)
    }

    /// Stores `entity` under exactly `handle`: its slot is created when missing,
    /// and takes the handle's generation. Refused (returning false) for the null
    /// handle, a slot index at or above the limit, or an occupied slot; a
    /// missing slot is still created in the last case.
    pub fn insert_at(&mut self, handle: EntityHandle, entity: E, wants_think: bool) -> (r: bool)
        requires
            old(self).wf(),
        ensures
            final(self).wf(),
            final(self).max_view() == old(self).max_view(),
            final(self).free_view() == old(self).free_view(),
            ({
                let i = handle.spec_index() as int;
                let n = if i + 1 > old(self).slot_count() { (i + 1) as nat } else { old(self).slot_count() };
                let gens = padded(old(self).generations_view(), n, 0u16);
                let tidx = padded(old(self).think_idx_view(), n, NOT_THINKING);
                let ents = padded(old(self).entities_view(), n, None::<E>);
                if handle.0 == 0 || i >= old(self).max_view() {
                    &&& !r
                    &&& final(self).generations_view() == old(self).generations_view()
                    &&& final(self).think_idx_view() == old(self).think_idx_view()
                    &&& final(self).entities_view() == old(self).entities_view()
                    &&& final(self).think_view() == old(self).think_view()
                    &&& final(self).count_view() == old(self).count_view()
                } else if ents[i] is Some {
                    &&& !r
                    &&& final(self).generations_view() == gens
                    &&& final(self).think_idx_view() == tidx
                    &&& final(self).entities_view() == ents
                    &&& final(self).think_view() == old(self).think_view()
                    &&& final(self).count_view() == old(self).count_view()
                } else {
                    &&& r
                    &&& final(self).spec_is_valid(handle)
                    &&& final(self).generations_view() == gens.update(i, handle.spec_generation())
                    &&& final(self).entities_view() == ents.update(i, Some(entity))
                    &&& final(self).count_view() == old(self).count_view() + 1
                    &&& if wants_think && tidx[i] == NOT_THINKING {
                        &&& final(self).think_view() == old(self).think_view().push(handle)
                        &&& final(self).think_idx_view() == tidx.update(i, old(self).think_view().len() as u32)
                    } else {
                        &&& final(self).think_view() == old(self).think_view()
                        &&& final(self).think_idx_view() == tidx
                    }
                }
            }),
    {
        if handle.is_null() {
            return false;
        }
        let idx = handle.index() as usize;
        if idx >= self.max_entities {
            return false;
        }
        let ghost n = if idx + 1 > self.entities@.len() { (idx + 1) as nat } else { self.entities@.len() };
        let ghost g0 = self.generations@;
        let ghost t0 = self.think_idx@;
        let ghost e0 = self.entities@;
        let ghost c0 = self.count;
        while self.entities.len() <= idx
            invariant
                self.wf(),
                idx < self.max_entities,
                n == (if idx + 1 > e0.len() { (idx + 1) as nat } else { e0.len() }),
                self.entities@.len() <= n,
                self.entities@.len() >= e0.len(),
                self.generations@ == padded(g0, self.entities@.len(), 0u16),
                self.think_idx@ == padded(t0, self.entities@.len(), NOT_THINKING),
                self.entities@ == padded(e0, self.entities@.len(), None::<E>),
                self.think_list@ == old(self).think_list@,
                self.free@ == old(self).free@,
                self.max_entities == old(self).max_entities,
                self.count == c0,
                c0 == old(self).count,
                g0 == old(self).generations@,
                t0 == old(self).think_idx@,
                e0 == old(self).entities@,
            decreases idx + 1 - self.entities@.len(),
        {
            let ghost before = *self;
            proof {
                lemma_occupied_push_none(self.entities@);
            }
            self.generations.push(0);
            self.think_idx.push(NOT_THINKING);
            self.entities.push(None);
            proof {
                let m = self.entities@.len();
                assert(self.generations@ =~= padded(g0, m, 0u16));
                assert(self.think_idx@ =~= padded(t0, m, NOT_THINKING));
                assert(self.entities@ =~= padded(e0, m, None::<E>));
                assert forall|i: int| 0 <= i < self.think_list@.len() implies {
                    let s = (#[trigger] self.think_list@[i]).spec_index() as int;
                    &&& s < self.entities@.len()
                    &&& self.think_idx@[s] == i
                } by {
                    let s = self.think_list@[i].spec_index() as int;
                    assert(s < before.entities@.len());
                }
                assert forall|j: int| 0 <= j < self.free@.len() implies (#[trigger] self.free@[j] as int) < self.entities@.len() by {
                    assert(before.free@[j] < before.entities@.len());
                }
            }
        }
        proof {
            assert(self.entities@.len() == n);
        }
        if self.entities[idx].is_some() {
            return false;
        }
        proof {
            lemma_occupied_update(self.entities@, idx as int, Some(entity));
            lemma_occupied_bound(self.entities@);
            let x = handle.0;
            assert(((x >> 21) & 0x7ff) as u16 <= 0x7ff) by (bit_vector);
        }
        self.generations.set(idx, handle.generation());
        self.entities.set(idx, Some(entity));
        self.count = self.count + 1;
        if wants_think {
            self.add_think(handle);
        }
        true
    }

    /// Removes the entity `handle` names when the handle's generation matches its
    /// slot: the slot leaves the think list, empties, moves to its next
    /// generation (so the old handle no longer matches) and joins the free queue.
    /// Returns whether that happened.
    pub fn remove(&mut self, handle: EntityHandle) -> (r: bool)
        requires
            old(self).wf(),
            handle.0 != 0 && (handle.spec_index() as int) < old(self).slot_count()
                && old(self).generations_view()[handle.spec_index() as int] == handle.spec_generation()
                ==> old(self).count_view() > 0,
        ensures
            final(self).wf(),
            final(self).max_view() == old(self).max_view(),
            old(self).empties_queued() ==> final(self).empties_queued(),
            ({
                let i = handle.spec_index() as int;
                if handle.0 == 0 || i >= old(self).slot_count() || old(self).generations_view()[i] != handle.spec_generation() {
                    &&& !r
                    &&& final(self).generations_view() == old(self).generations_view()
                    &&& final(self).think_idx_view() == old(self).think_idx_view()
                    &&& final(self).entities_view() == old(self).entities_view()
                    &&& final(self).think_view() == old(self).think_view()
                    &&& final(self).free_view() == old(self).free_view()
                    &&& final(self).count_view() == old(self).count_view()
                } else {
                    &&& r
                    &&& !final(self).spec_is_valid(handle)
                    &&& final(self).entities_view() == old(self).entities_view().update(i, None)
                    &&& final(self).generations_view() == old(self).generations_view().update(
                        i,
                        spec_next_generation(old(self).generations_view()[i]),
                    )
                    &&& final(self).free_view() == old(self).free_view().push(i as u32)
                    &&& final(self).count_view() == old(self).count_view() - 1
                    &&& final(self).think_idx_view()[i] == NOT_THINKING
                    &&& if old(self).think_idx_view()[i] != NOT_THINKING {
                        let t = old(self).think_idx_view()[i] as int;
                        let last = old(self).think_view().len() - 1;
                        final(self).think_view() == old(self).think_view().update(t, old(self).think_view()[last]).drop_last()
                    } else {
                        final(self).think_view() == old(self).think_view()
                    }
                }
            }),
    {
        if handle.is_null() {
            return false;
        }
        let idx = handle.index() as usize;
        if idx >= self.entities.len() || self.generations[idx] != handle.generation() {
            return false;
        }
        self.remove_think(handle);
        proof {
            lemma_occupied_update(self.entities@, idx as int, None);
        }
        let ghost tidx = self.think_idx@;
        self.entities.set(idx, None);
        let next = EntityHandle::next_generation(self.generations[idx]);
        self.generations.set(idx, next);
        self.free.push_back(idx as u32);
        self.count = self.count - 1;
        proof {
            assert forall|j: int| 0 <= j < self.free@.len() implies (#[trigger] self.free@[j] as int) < self.entities@.len() by {
                if j < self.free@.len() - 1 {
                    assert(self.free@[j] == old(self).free@[j]);
                }
            }
            if old(self).empties_queued() {
                assert forall|s: int| 0 <= s < self.slot_count() && #[trigger] self.entities_view()[s] is None
                    implies self.free_view().contains(s as u32) by {
                    if s == idx as int {
                        assert(self.free@[self.free@.len() - 1] == s as u32);
                    } else {
                        assert(old(self).entities@[s] is None);
                        assert(old(self).free@.contains(s as u32));
                        let j = choose|j: int| 0 <= j < old(self).free@.len() && old(self).free@[j] == s as u32;
                        assert(self.free@[j] == s as u32);
                    }
                }
            }
        }
        true
    }

    /// Puts the slot of `handle` on the think list (`enabled`) or takes it off.
    pub fn set_think(&mut self, handle: EntityHandle, enabled: bool)
        requires
            old(self).wf(),
        ensures
            final(self).wf(),
            final(self).generations_view() == old(self).generations_view(),
            final(self).entities_view() == old(self).entities_view(),
            final(self).free_view() == old(self).free_view(),
            final(self).max_view() == old(self).max_view(),
            final(self).count_view() == old(self).count_view(),
            ({
                let s = handle.spec_index() as int;
                if enabled {
                    if s < old(self).slot_count() && old(self).think_idx_view()[s] == NOT_THINKING {
                        &&& final(self).think_view() == old(self).think_view().push(handle)
                        &&& final(self).think_idx_view() == old(self).think_idx_view().update(s, old(self).think_view().len() as u32)
                    } else {
                        &&& final(self).think_view() == old(self).think_view()
                        &&& final(self).think_idx_view() == old(self).think_idx_view()
                    }
                } else {
                    if s < old(self).slot_count() && old(self).think_idx_view()[s] != NOT_THINKING {
                        let t = old(self).think_idx_view()[s] as int;
                        let last = old(self).think_view().len() - 1;
                        &&& final(self).think_view() == old(self).think_view().update(t, old(self).think_view()[last]).drop_last()
                        &&& final(self).think_idx_view()[s] == NOT_THINKING
                    } else {
                        &&& final(self).think_view() == old(self).think_view()
                        &&& final(self).think_idx_view() == old(self).think_idx_view()
                    }
                }
            }),
    {
        if enabled {
            self.add_think(handle);
        } else {
            self.remove_think(handle);
        }
    }

    /// The handles of all live entities, in slot order.
    pub fn handles(&self) -> (r: Vec<EntityHandle>)
        requires
            self.wf(),
        ensures
            r@ == live_handles(self.generations_view(), self.entities_view(), self.slot_count()),
    {
        let mut out: Vec<EntityHandle> = Vec::new();
        let mut i: usize = 0;
        while i < self.entities.len()
            invariant
                self.wf(),
                i <= self.entities@.len(),
                out@ == live_handles(self.generations@, self.entities@, i as nat),
            decreases self.entities@.len() - i,
        {
            if self.entities[i].is_some() {
                proof {
                    assert(i < 0x20_0000);
                }
                out.push(EntityHandle::new(i as u32, self.generations[i]));
            }
            i = i + 1;
        }
        out
    }
}

proof fn lemma_alloc_keeps_empties_queued<E>(l: EntityList<E>, after: Seq<Option<E>>)
    requires
        l.wf(),
        l.empties_queued(),
        alloc_result(l).0 is None ==> after == l.entities_view(),
        alloc_result(l).0 matches Some(i) ==> {
            &&& after == after_alloc(l, l.entities_view(), None::<E>).update(i as int, after[i as int])
            &&& after[i as int] is Some
        },
    ensures
        forall|s: int| 0 <= s < after.len() && #[trigger] after[s] is None ==> alloc_result(l).1.contains(s as u32),
{
    let free = l.free_view();
    let ents = l.entities_view();
    let n = l.slot_count();
    let at_capacity = n >= l.max_view();
    let scan = at_capacity || free.len() > MIN_FREE_SLOTS;
    let found = first_empty_free(free, ents);
    lemma_first_empty_free(free, ents);
    assert forall|s: int| 0 <= s < after.len() && #[trigger] after[s] is None implies alloc_result(l).1.contains(
        s as u32,
    ) by {
        assert(s < n) by {
            if s >= n {
                assert(alloc_result(l).0 == Some(n as u32));
            }
        }
        assert(ents[s] is None) by {
            if alloc_result(l).0 is Some {
                assert(after_alloc(l, ents, None::<E>)[s] == ents[s]);
            }
        }
        assert(free.contains(s as u32));
        let j = choose|j: int| 0 <= j < free.len() && free[j] == s as u32;
        assert(ents[free[j] as int] is None);
        if scan && found is Some {
            let k = found->0;
            if j < k {
                assert(ents[free[j] as int] is Some);
            } else if j == k {
                assert(alloc_result(l).0 == Some(free[k]));
                assert(after[s] is Some);
            }
            assert(alloc_result(l).1[j - k - 1] == s as u32);
        } else if scan {
            assert(ents[free[j] as int] is Some);
        } else {
            assert(alloc_result(l).1[j] == s as u32);
        }
    }
}

impl<E> EntityList<E> {
    /// A spawn finds a slot whenever fewer slots than the limit hold an entity,
    /// as long as every empty slot waits in the free queue. `new`, `spawn` and
    /// `remove` keep that so, so over any history of those calls a spawn
    /// succeeds below the limit.
    pub proof fn lemma_spawn_finds_slot(&self)
        requires
            self.wf(),
            self.empties_queued(),
            occupied(self.entities_view()) < self.max_view(),
        ensures
            alloc_result(*self).0 is Some,
    {
        let free = self.free_view();
        let ents = self.entities_view();
        lemma_first_empty_free(free, ents);
        if self.slot_count() >= self.max_view() {
            if forall|i: int| 0 <= i < ents.len() ==> #[trigger] ents[i] is Some {
                lemma_all_occupied(ents);
            }
            let s = choose|i: int| 0 <= i < ents.len() && !(#[trigger] ents[i] is Some);
            assert(free.contains(s as u32));
            let j = choose|j: int| 0 <= j < free.len() && free[j] == s as u32;
            assert(ents[free[j] as int] is None);
        }
    }
}

impl<E> EntityList<E> {
    /// The think list and the slots agree: entry `i` of the think list names a
    /// slot that records position `i`, and a slot that records a position is
    /// named by the entry there. Every operation keeps this.
    pub proof fn lemma_think_list_consistent(&self)
        requires
            self.wf(),
        ensures
            forall|i: int|
                0 <= i < self.think_view().len() ==> {
                    let s = (#[trigger] self.think_view()[i]).spec_index() as int;
                    &&& s < self.slot_count()
                    &&& self.think_idx_view()[s] == i
                },
            forall|s: int|
                0 <= s < self.slot_count() && #[trigger] self.think_idx_view()[s] != NOT_THINKING ==> {
                    &&& (self.think_idx_view()[s] as int) < self.think_view().len()
                    &&& self.think_view()[self.think_idx_view()[s] as int].spec_index() == s
                },
            self.think_view().len() <= self.slot_count(),
            self.count_view() <= self.slot_count(),
            self.slot_count() <= self.max_view() <= EntityHandle::MAX_ENTITIES,
    {
        self.lemma_think_bound();
        lemma_occupied_bound(self.entities@);
    }
}
} // verus!
