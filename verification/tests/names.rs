use sourcemap_writer::name_mapper::NameMapper;

#[test]
fn new_mapper_has_no_names() {
    assert!(NameMapper::new().into_names().is_empty());
}

#[test]
fn names_get_indices_in_order_of_first_use() {
    let mut m = NameMapper::new();
    assert_eq!(m.map_name("a"), 0);
    assert_eq!(m.map_name("b"), 1);
    assert_eq!(m.map_name("c"), 2);
    assert_eq!(m.into_names(), vec!["a", "b", "c"]);
}

#[test]
fn same_name_gets_the_same_index() {
    let mut m = NameMapper::new();
    assert_eq!(m.map_name("foo"), 0);
    assert_eq!(m.map_name("foo"), 0);
    assert_eq!(m.map_name("bar"), 1);
    assert_eq!(m.map_name("foo"), 0);
    assert_eq!(m.map_name("bar"), 1);
    assert_eq!(m.into_names(), vec!["foo", "bar"]);
}

#[test]
fn names_are_compared_exactly() {
    let mut m = NameMapper::new();
    assert_eq!(m.map_name("foo"), 0);
    assert_eq!(m.map_name("Foo"), 1);
    assert_eq!(m.map_name("foo "), 2);
    assert_eq!(m.map_name(""), 3);
    assert_eq!(m.map_name("fo"), 4);
    assert_eq!(m.map_name(""), 3);
    assert_eq!(m.map_name("é"), 5);
    assert_eq!(m.map_name("e\u{301}"), 6);
    assert_eq!(m.into_names(), vec!["foo", "Foo", "foo ", "", "fo", "é", "e\u{301}"]);
}
