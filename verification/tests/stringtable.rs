use base::stringtable::StringTable;

#[test]
fn names_get_ids_in_order_of_first_registration() {
    let mut t = StringTable::new();
    assert_eq!(t.register("alpha".to_string()), 0);
    assert_eq!(t.register("beta".to_string()), 1);
    assert_eq!(t.register("alpha".to_string()), 0);
    assert_eq!(t.register("gamma".to_string()), 2);
    assert_eq!(t.get_name(1).map(|s| s.as_str()), Some("beta"));
    assert_eq!(t.get_name(2).map(|s| s.as_str()), Some("gamma"));
    assert!(t.get_name(3).is_none());
}

#[test]
fn default_table_is_empty() {
    let t = StringTable::default();
    assert!(t.get_name(0).is_none());
}
