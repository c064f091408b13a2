use base::entities::EntityList;
use base::handle::EntityHandle;

#[test]
fn spawned_entities_are_valid_until_removed() {
    let mut list: EntityList<&str> = EntityList::new();
    let a = list.spawn("a", true).unwrap();
    let b = list.spawn("b", false).unwrap();
    assert_eq!(a, EntityHandle::new(0, 1));
    assert_eq!(b, EntityHandle::new(1, 1));
    assert!(list.is_valid(a) && list.is_valid(b));
    assert_eq!(list.get(a), Some(&"a"));
    assert_eq!(list.len(), 2);
    assert_eq!(list.think_count(), 1);
    assert!(list.remove(a));
    assert!(!list.is_valid(a));
    assert!(list.get(a).is_none());
    assert!(!list.remove(a));
    assert_eq!(list.len(), 1);
    assert_eq!(list.think_count(), 0);
    assert_eq!(list.handles(), vec![b]);
}

#[test]
fn a_full_list_reuses_freed_slots_with_a_new_generation() {
    let mut list: EntityList<u32> = EntityList::with_max_entities(1);
    assert_eq!(list.max_entities(), 1);
    let first = list.spawn(1, false).unwrap();
    assert!(list.spawn(2, false).is_none());
    assert!(list.remove(first));
    let second = list.spawn(3, false).unwrap();
    assert_eq!(second.index(), first.index());
    assert_eq!(second.generation(), 3);
    assert!(!list.is_valid(first));
    assert_eq!(list.get(second), Some(&3));
}

#[test]
fn limits_are_clamped() {
    let tiny: EntityList<u8> = EntityList::with_max_entities(0);
    assert_eq!(tiny.max_entities(), 1);
    let huge: EntityList<u8> = EntityList::with_max_entities(usize::MAX);
    assert_eq!(huge.max_entities(), EntityHandle::MAX_ENTITIES);
    let default: EntityList<u8> = EntityList::new();
    assert_eq!(default.max_entities(), 102400);
    assert!(default.is_empty());
}

#[test]
fn insert_at_places_an_entity_under_a_given_handle() {
    let mut list: EntityList<u8> = EntityList::with_max_entities(16);
    let h = EntityHandle::new(5, 9);
    assert!(list.insert_at(h, 1, true));
    assert!(list.is_valid(h));
    assert!(!list.is_valid(EntityHandle::new(5, 8)));
    assert!(!list.insert_at(EntityHandle::new(5, 3), 2, false));
    assert!(!list.insert_at(EntityHandle::null(), 2, false));
    assert!(!list.insert_at(EntityHandle::new(16, 1), 2, false));
    assert_eq!(list.handles(), vec![h]);
    assert_eq!(list.think_count(), 1);
    assert_eq!(list.think_handle(0), h);
    let next = list.spawn(4, false).unwrap();
    assert_eq!(next.index(), 6);
}

#[test]
fn think_list_stays_consistent_through_removals() {
    let mut list: EntityList<u8> = EntityList::new();
    let a = list.spawn(1, true).unwrap();
    let b = list.spawn(2, true).unwrap();
    let c = list.spawn(3, true).unwrap();
    assert_eq!(list.think_count(), 3);
    assert!(list.remove(a));
    assert_eq!(list.think_count(), 2);
    assert_eq!(list.think_handle(0), c);
    assert_eq!(list.think_handle(1), b);
    list.set_think(b, false);
    assert_eq!(list.think_count(), 1);
    assert_eq!(list.think_handle(0), c);
    list.set_think(b, true);
    list.set_think(b, true);
    assert_eq!(list.think_count(), 2);
    assert_eq!(list.think_handle(1), b);
}

#[test]
fn spawns_succeed_below_the_limit_after_any_removals() {
    let mut list: EntityList<u32> = EntityList::with_max_entities(4);
    let mut live = Vec::new();
    for i in 0..4u32 {
        live.push(list.spawn(i, i % 2 == 0).unwrap());
    }
    assert!(list.spawn(9, false).is_none());
    assert!(list.remove(live[2]));
    assert!(list.remove(live[0]));
    let a = list.spawn(10, false).unwrap();
    let b = list.spawn(11, true).unwrap();
    assert_eq!(a.index(), live[2].index());
    assert_eq!(b.index(), live[0].index());
    assert!(list.spawn(12, false).is_none());
    assert_eq!(list.len(), 4);
}

#[test]
fn slots_padded_by_insert_at_are_not_reused_by_spawn() {
    let mut list: EntityList<u32> = EntityList::with_max_entities(3);
    assert!(list.insert_at(EntityHandle::new(2, 1), 7, false));
    assert_eq!(list.len(), 1);
    assert!(list.spawn(8, false).is_none());
}
