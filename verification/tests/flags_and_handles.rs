use base::flags::{EntityFlags, InputButtons};
use base::handle::EntityHandle;

#[test]
fn buttons_contain_their_subsets() {
    let held = InputButtons::in_attack() | InputButtons::in_jump();
    assert!(held.contains(InputButtons::in_attack()));
    assert!(held.contains(InputButtons::in_jump()));
    assert!(held.contains(InputButtons::in_attack() | InputButtons::in_jump()));
    assert!(!held.contains(InputButtons::in_duck()));
    assert!(held.contains(InputButtons::none()));
    assert!(held.has_buttons(InputButtons::in_attack()));
    assert!(!held.has_buttons(InputButtons::in_attack() | InputButtons::in_use()));
}

#[test]
fn buttons_intersect_when_sharing_a_bit() {
    let held = InputButtons::in_attack() | InputButtons::in_jump();
    assert!(held.intersects(InputButtons::in_jump() | InputButtons::in_duck()));
    assert!(!held.intersects(InputButtons::in_duck()));
    assert!(!held.intersects(InputButtons::none()));
}

#[test]
fn button_bits_have_their_values() {
    assert_eq!(InputButtons::in_attack().0, 1);
    assert_eq!(InputButtons::in_attack2().0, 2);
    assert_eq!(InputButtons::in_use().0, 4);
    assert_eq!(InputButtons::in_sprint().0, 8);
    assert_eq!(InputButtons::in_walk().0, 16);
    assert_eq!(InputButtons::in_duck().0, 32);
    assert_eq!(InputButtons::in_jump().0, 64);
    assert_eq!(InputButtons::in_reload().0, 128);
    assert_eq!(InputButtons::none().0, 0);
}

#[test]
fn button_operators_combine_bits() {
    let mut held = InputButtons::in_walk();
    held |= InputButtons::in_reload();
    assert_eq!(held.0, 16 | 128);
    assert_eq!((held & InputButtons::in_reload()).0, 128);
    assert_eq!((held & InputButtons::in_use()).0, 0);
}

#[test]
fn entity_flags_behave_like_sets() {
    let mut flags = EntityFlags::fl_onground();
    assert!(!flags.contains(EntityFlags::fl_onfire()));
    flags |= EntityFlags::fl_onfire();
    assert!(flags.contains(EntityFlags::fl_onground() | EntityFlags::fl_onfire()));
    assert!(flags.has_buttons(EntityFlags::fl_onfire()));
    assert!(flags.intersects(EntityFlags::fl_onfire()));
    assert_eq!((flags & EntityFlags::fl_onground()).0, 1);
    assert!(!EntityFlags::none().intersects(flags));
    assert_eq!(EntityFlags::fl_onfire().0, 2);
}

#[test]
fn handle_packs_index_and_generation() {
    let h = EntityHandle::new(5, 3);
    assert_eq!(h.0, (3 << 21) | 5);
    assert_eq!(h.index(), 5);
    assert_eq!(h.generation(), 3);
    assert!(!h.is_null());
    assert!(EntityHandle::null().is_null());
    assert_eq!(EntityHandle::null().0, 0);
}

#[test]
fn handle_fields_are_cut_to_their_width() {
    let h = EntityHandle::new(0x20_0005, 0x0803);
    assert_eq!(h.index(), 5);
    assert_eq!(h.generation(), 3);
    let top = EntityHandle::new(0x1f_ffff, 0x7ff);
    assert_eq!(top.0, u32::MAX);
    assert_eq!(top.index(), 0x1f_ffff);
    assert_eq!(top.generation(), 0x7ff);
    assert_eq!(EntityHandle::MAX_ENTITIES, 1 << 21);
    assert_eq!(EntityHandle::MAX_GENERATION, 2047);
}

#[test]
fn next_generation_skips_zero_and_wraps() {
    assert_eq!(EntityHandle::next_generation(0), 1);
    assert_eq!(EntityHandle::next_generation(5), 6);
    assert_eq!(EntityHandle::next_generation(2046), 2047);
    assert_eq!(EntityHandle::next_generation(2047), 1);
    assert_eq!(EntityHandle::next_generation(0x0800), 1);
    assert_eq!(EntityHandle::next_generation(0xffff), 1);
}

#[test]
fn rebuilding_a_handle_from_its_fields_gives_it_back() {
    for raw in [0u32, 1, 0x20_0000, 0x1234_5678, u32::MAX] {
        let h = EntityHandle(raw);
        assert_eq!(EntityHandle::new(h.index(), h.generation()), h);
    }
}
