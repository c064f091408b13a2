use base::world::WorldSync;

#[test]
fn messages_pass_while_in_step() {
    let mut world: WorldSync<u32, &str> = WorldSync::new();
    assert_eq!(world.on_message("hello"), Some("hello"));
    assert!(!world.on_connected(0));
    assert_eq!(world.on_message("again"), Some("again"));
}

#[test]
fn new_generation_holds_messages_until_its_snapshot() {
    let mut world: WorldSync<u32, &str> = WorldSync::new();
    assert!(world.on_connected(3));
    assert_eq!(world.on_message("first"), None);
    assert_eq!(world.on_message("second"), None);

    // A part of another generation is dropped.
    assert!(world.on_snapshot(2, true, 0, 1, vec![99]).is_none());

    assert!(world.on_snapshot(3, true, 0, 2, vec![1, 2]).is_none());
    assert_eq!(world.on_message("third"), None);

    let (built, released) = world.on_snapshot(3, false, 1, 2, vec![3]).expect("snapshot complete");
    assert!(built.reset);
    assert_eq!(built.entities, vec![1, 2, 3]);
    assert_eq!(released, vec!["first", "second", "third"]);

    assert_eq!(world.on_message("after"), Some("after"));
}

#[test]
fn reconnecting_in_the_same_generation_keeps_the_world() {
    let mut world: WorldSync<u32, &str> = WorldSync::new();
    assert!(world.on_connected(7));
    let (built, released) = world.on_snapshot(7, true, 0, 1, vec![5]).expect("single part");
    assert_eq!(built.entities, vec![5]);
    assert!(released.is_empty());

    assert!(!world.on_connected(7));
    assert_eq!(world.on_message("still here"), Some("still here"));
}

#[test]
fn another_generation_drops_what_was_held() {
    let mut world: WorldSync<u32, &str> = WorldSync::new();
    assert!(world.on_connected(1));
    assert_eq!(world.on_message("stale"), None);
    assert!(world.on_snapshot(1, true, 0, 2, vec![1]).is_none());

    assert!(world.on_connected(2));
    assert_eq!(world.on_message("fresh"), None);
    // The part gathered for generation 1 is gone: generation 2 needs both parts.
    assert!(world.on_snapshot(2, true, 1, 2, vec![20]).is_none());
    let (built, released) = world.on_snapshot(2, true, 0, 2, vec![10]).expect("complete");
    assert_eq!(built.entities, vec![10, 20]);
    assert_eq!(released, vec!["fresh"]);
}
