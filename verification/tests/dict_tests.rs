use masking_tool::dict::Entries;

fn keys_of(e: Entries<i32>) -> Vec<(Vec<u8>, i32)> {
    e.into_vec()
}

#[test]
fn new_entries_are_empty() {
    let e: Entries<i32> = Entries::new();
    assert_eq!(e.len(), 0);
    assert_eq!(e.find(b"Font"), None);
    assert!(!e.contains(b"Font"));
}

#[test]
fn set_appends_new_keys_in_order() {
    let mut e = Entries::new();
    e.set(b"A".to_vec(), 1);
    e.set(b"B".to_vec(), 2);
    e.set(b"C".to_vec(), 3);
    assert_eq!(e.len(), 3);
    assert_eq!(e.find(b"B"), Some(1));
    assert_eq!(*e.value_at(2), 3);
    assert_eq!(
        keys_of(e),
        vec![(b"A".to_vec(), 1), (b"B".to_vec(), 2), (b"C".to_vec(), 3)]
    );
}

#[test]
fn set_on_existing_key_moves_it_last() {
    let mut e = Entries::new();
    e.set(b"A".to_vec(), 1);
    e.set(b"B".to_vec(), 2);
    e.set(b"A".to_vec(), 10);
    assert_eq!(e.len(), 2);
    assert_eq!(keys_of(e), vec![(b"B".to_vec(), 2), (b"A".to_vec(), 10)]);
}

#[test]
fn remove_takes_out_the_value() {
    let mut e = Entries::new();
    e.set(b"A".to_vec(), 1);
    e.set(b"B".to_vec(), 2);
    assert_eq!(e.remove(b"A"), Some(1));
    assert_eq!(e.remove(b"A"), None);
    assert!(!e.contains(b"A"));
    assert!(e.contains(b"B"));
    assert_eq!(keys_of(e), vec![(b"B".to_vec(), 2)]);
}

#[test]
fn keys_compare_by_all_bytes() {
    let mut e = Entries::new();
    e.set(b"F1".to_vec(), 1);
    assert!(!e.contains(b"F"));
    assert!(!e.contains(b"F10"));
    assert!(e.contains(b"F1"));
}
