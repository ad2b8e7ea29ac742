use lopdf::{Dictionary, Object};

use masking_tool::resources::{xmask_name_bytes, ResourceState};

fn xobjects(pairs: &[(&str, (u32, u16))]) -> Dictionary {
    let mut x = Dictionary::new();
    for (k, id) in pairs {
        x.set(k.as_bytes().to_vec(), Object::Reference(*id));
    }
    let mut d = Dictionary::new();
    d.set("XObject", x);
    d
}

fn xobject_keys(d: &Dictionary) -> Vec<Vec<u8>> {
    d.get(b"XObject")
        .unwrap()
        .as_dict()
        .unwrap()
        .iter()
        .map(|(k, _)| k.clone())
        .collect()
}

#[test]
fn xmask_names_are_decimal() {
    assert_eq!(xmask_name_bytes(0), b"XMask0".to_vec());
    assert_eq!(xmask_name_bytes(7), b"XMask7".to_vec());
    assert_eq!(xmask_name_bytes(42), b"XMask42".to_vec());
    assert_eq!(xmask_name_bytes(1000), b"XMask1000".to_vec());
    assert_eq!(xmask_name_bytes(u32::MAX), b"XMask4294967295".to_vec());
}

#[test]
fn xmask_names_are_distinct() {
    let names: Vec<Vec<u8>> = (0u32..300).map(xmask_name_bytes).collect();
    for i in 0..names.len() {
        for j in (i + 1)..names.len() {
            assert_ne!(names[i], names[j]);
        }
    }
}

#[test]
fn first_new_xobject_is_xmask1() {
    let mut rs = ResourceState::new(Dictionary::new());
    let name = rs.try_add_xobject((9, 0)).unwrap();
    assert_eq!(name, b"XMask1".to_vec());
    let d = rs.into_dict();
    let x = d.get(b"XObject").unwrap().as_dict().unwrap();
    assert_eq!(x.get(b"XMask1").unwrap().as_reference().unwrap(), (9, 0));
}

#[test]
fn names_in_use_are_skipped() {
    let d = xobjects(&[("XMask1", (1, 0)), ("Im0", (2, 0)), ("XMask2", (3, 0))]);
    let mut rs = ResourceState::new(d);
    let name = rs.try_add_xobject((9, 0)).unwrap();
    assert_eq!(name, b"XMask3".to_vec());
    let next = rs.try_add_xobject((10, 0)).unwrap();
    assert_eq!(next, b"XMask4".to_vec());
    let d = rs.into_dict();
    assert_eq!(
        xobject_keys(&d),
        vec![
            b"XMask1".to_vec(),
            b"Im0".to_vec(),
            b"XMask2".to_vec(),
            b"XMask3".to_vec(),
            b"XMask4".to_vec()
        ]
    );
    let x = d.get(b"XObject").unwrap().as_dict().unwrap();
    assert_eq!(x.get(b"XMask4").unwrap().as_reference().unwrap(), (10, 0));
    assert_eq!(x.get(b"Im0").unwrap().as_reference().unwrap(), (2, 0));
}

#[test]
fn names_are_not_reused_after_a_gap() {
    let d = xobjects(&[("XMask2", (1, 0))]);
    let mut rs = ResourceState::new(d);
    assert_eq!(rs.next_xobject_name(), b"XMask1".to_vec());
    assert_eq!(rs.next_xobject_name(), b"XMask3".to_vec());
    assert_eq!(rs.next_xobject_name(), b"XMask4".to_vec());
}

#[test]
fn other_resource_entries_are_kept() {
    let mut d = xobjects(&[]);
    d.set("ProcSet", Object::Integer(5));
    let mut rs = ResourceState::new(d);
    let name = rs.add_xobject((4, 2));
    assert_eq!(name, b"XMask1".to_vec());
    let d = rs.dict();
    assert_eq!(d.get(b"ProcSet").unwrap().as_i64().unwrap(), 5);
    assert_eq!(xobject_keys(d), vec![b"XMask1".to_vec()]);
}

#[test]
fn xobject_entry_that_is_not_a_dictionary_is_left_alone() {
    let mut d = Dictionary::new();
    d.set("XObject", Object::Integer(3));
    let mut rs = ResourceState::new(d);
    let name = rs.try_add_xobject((9, 0)).unwrap();
    assert_eq!(name, b"XMask1".to_vec());
    let d = rs.into_dict();
    assert_eq!(d.get(b"XObject").unwrap().as_i64().unwrap(), 3);
}

#[test]
fn missing_xobject_category_is_added_last() {
    let mut d = Dictionary::new();
    d.set("ProcSet", Object::Integer(5));
    d.set("Font", Object::Integer(6));
    let mut rs = ResourceState::new(d);
    rs.add_xobject((4, 0));
    let keys: Vec<Vec<u8>> = rs.dict().iter().map(|(k, _)| k.clone()).collect();
    assert_eq!(keys, vec![b"ProcSet".to_vec(), b"Font".to_vec(), b"XObject".to_vec()]);
}
