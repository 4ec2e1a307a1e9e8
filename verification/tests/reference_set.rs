use trace_unify::reference::ReferenceSet;

#[test]
fn load_reads_one_address_per_line() {
    let set = ReferenceSet::load(b"1000\n2000\nabc\n");
    assert_eq!(set.len(), 3);
    assert!(set.contains(0x1000));
    assert!(set.contains(0x2000));
    assert!(set.contains(0xabc));
    assert!(!set.contains(1000));
}

#[test]
fn load_passes_over_lines_that_are_no_address() {
    let set = ReferenceSet::load(b"1000\nnot an address\n\n0x2000\n 3000\n4000\n");
    assert_eq!(set.len(), 2);
    assert!(set.contains(0x1000));
    assert!(set.contains(0x4000));
    assert!(!set.contains(0x2000));
    assert!(!set.contains(0x3000));
}

#[test]
fn load_collapses_duplicates() {
    let set = ReferenceSet::load(b"1000\n1000\n001000\n");
    assert_eq!(set.len(), 1);
    assert!(set.contains(0x1000));
}

#[test]
fn load_of_empty_text_is_empty() {
    let set = ReferenceSet::load(b"");
    assert_eq!(set.len(), 0);
    assert!(!set.contains(0));
}

#[test]
fn load_takes_last_line_without_line_feed() {
    let set = ReferenceSet::load(b"10\r\n20");
    assert_eq!(set.len(), 2);
    assert!(set.contains(0x10));
    assert!(set.contains(0x20));
}

#[test]
fn insert_and_contains() {
    let mut set = ReferenceSet::new();
    assert!(!set.contains(7));
    set.insert(7);
    set.insert(7);
    assert!(set.contains(7));
    assert_eq!(set.len(), 1);
}

#[test]
fn from_addresses_holds_each_address() {
    let set = ReferenceSet::from_addresses(&[3, 1, 3, 2]);
    assert_eq!(set.len(), 3);
    assert!(set.contains(1) && set.contains(2) && set.contains(3));
    assert!(!set.contains(4));
}
