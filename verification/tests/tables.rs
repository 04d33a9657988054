use tapegen::symbols::Table;

#[test]
fn lookup_finds_what_was_inserted() {
    let mut t = Table::new();
    assert_eq!(t.len(), 0);
    assert_eq!(t.get("a"), None);
    t.insert("a", 3);
    t.insert("b", 5);
    assert_eq!(t.len(), 2);
    assert_eq!(t.get("a"), Some(3));
    assert_eq!(t.get("b"), Some(5));
    assert_eq!(t.get("c"), None);
}

#[test]
fn remove_takes_the_binding_out() {
    let mut t = Table::new();
    t.insert("a", 3);
    t.insert("b", 5);
    assert_eq!(t.remove("a"), Some(3));
    assert_eq!(t.remove("a"), None);
    assert_eq!(t.get("b"), Some(5));
    assert_eq!(t.len(), 1);
}

#[test]
fn oldest_binding_of_a_name_wins() {
    let mut t = Table::new();
    t.insert("a", 1);
    t.insert("a", 2);
    assert_eq!(t.get("a"), Some(1));
    assert_eq!(t.remove("a"), Some(1));
    assert_eq!(t.get("a"), Some(2));
}

#[test]
fn byte_length_of_the_newest_name_at_a_cell() {
    let mut t = Table::new();
    t.insert("ab", 0);
    t.insert("\u{e9}", 3);
    t.insert("xyz", 0);
    assert_eq!(t.byte_len_at(0), Some(3));
    assert_eq!(t.byte_len_at(3), Some(2));
    assert_eq!(t.byte_len_at(1), None);
}
