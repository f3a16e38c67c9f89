use std::str::from_utf8;

use tobdd::codec::{push_word, read_word};
use tobdd::readable::is_readable;
use tobdd::{Bdd, BddIO, BddManager, BddOp, DecodeError, Manager, PrintSet};

fn shown(manager: &Manager, bdd: Bdd) -> String {
    let mut buf = Vec::new();
    manager.print(bdd, &mut buf);
    from_utf8(&buf).unwrap().to_string()
}

fn stream(words: &[u64]) -> Vec<u8> {
    let mut bytes = Vec::new();
    for &word in words {
        push_word(&mut bytes, word);
    }
    bytes
}

#[test]
fn words_are_big_endian() {
    let mut bytes = vec![9];
    push_word(&mut bytes, 0x0102030405060708);
    assert_eq!(bytes, [9, 1, 2, 3, 4, 5, 6, 7, 8]);
    assert_eq!(read_word(&bytes, 1), 0x0102030405060708);
    push_word(&mut bytes, u64::MAX);
    assert_eq!(read_word(&bytes, 9), u64::MAX);
    assert_eq!(bytes[1..9], 0x0102030405060708u64.to_be_bytes());
}

#[test]
fn serialized_node_comes_after_its_children() {
    let mut manager = Manager::init(64, 64, 2);
    let (a, b) = (manager.get_var(0), manager.get_var(1));
    let ab = manager.and(a, b);
    let (t, f) = (manager.get_true() as u64, manager.get_false() as u64);
    let mut bytes = Vec::new();
    manager.serialize(ab, &mut bytes);
    assert_eq!(
        bytes,
        stream(&[f, t, b as u64, 1, f, t, ab as u64, 0, f, b as u64])
    );
}

#[test]
fn serialized_terminal_is_its_own_child() {
    let manager = Manager::init(64, 64, 2);
    let (t, f) = (manager.get_true() as u64, manager.get_false() as u64);
    let mut bytes = Vec::new();
    manager.serialize(manager.get_true(), &mut bytes);
    assert_eq!(bytes, stream(&[f, t, t, 0, t, t]));
}

#[test]
fn terminals_are_carried_to_another_manager() {
    let manager = Manager::init(8, 8, 3);
    let mut other = Manager::init(8, 8, 3);
    let mut bytes = Vec::new();
    manager.serialize(manager.get_true(), &mut bytes);
    assert!(other.accepts(&bytes));
    assert_eq!(other.deserialize(&bytes), Ok(other.get_true()));
    bytes.clear();
    manager.serialize(manager.get_false(), &mut bytes);
    assert!(other.accepts(&bytes));
    assert_eq!(other.deserialize(&bytes), Ok(other.get_false()));
    assert_eq!(other.get_node_num(), 8);
    assert_eq!(other.gc(), 8);
}

#[test]
fn terminal_is_carried_without_variables() {
    let manager = Manager::init(8, 8, 0);
    let mut other = Manager::init(8, 8, 0);
    let mut bytes = Vec::new();
    manager.serialize(manager.get_false(), &mut bytes);
    assert!(other.accepts(&bytes));
    assert_eq!(other.deserialize(&bytes), Ok(other.get_false()));
}

#[test]
fn shared_node_is_serialized_each_time() {
    let mut manager = Manager::init(64, 64, 3);
    let (a, b, c) = (manager.get_var(0), manager.get_var(1), manager.get_nvar(2));
    let ab = manager.or(a, b);
    let f = manager.and(ab, c);
    let mut bytes = Vec::new();
    manager.serialize(f, &mut bytes);
    // The node of the last variable is reached over both branches.
    assert_eq!(bytes.len(), 16 + 4 * 32);
    let mut other = Manager::init(64, 64, 3);
    let g = other.deserialize(&bytes).unwrap();
    assert_eq!(shown(&other, g), shown(&manager, f));
}

#[test]
fn round_trip_in_the_same_manager_is_the_same_node() {
    let mut manager = Manager::init(64, 64, 4);
    let (a, b, d) = (manager.get_var(0), manager.get_nvar(1), manager.get_var(3));
    let ab = manager.or(a, b);
    let f = manager.comp(ab, d);
    let mut bytes = Vec::new();
    manager.serialize(f, &mut bytes);
    assert!(is_readable(&bytes, 4));
    assert_eq!(manager.deserialize(&bytes), Ok(f));
}

#[test]
fn round_trip_into_a_wider_manager() {
    let mut manager = Manager::init(64, 64, 2);
    let (a, b) = (manager.get_var(0), manager.get_nvar(1));
    let f = manager.and(a, b);
    let mut bytes = Vec::new();
    manager.serialize(f, &mut bytes);
    let mut wider = Manager::init(8, 8, 4);
    assert!(is_readable(&bytes, 4));
    let g = wider.deserialize(&bytes).unwrap();
    assert_eq!(shown(&wider, g), "10**\n");
    assert!(!is_readable(&bytes, 1));
}

#[test]
fn stream_that_ends_in_its_header_is_refused() {
    let mut manager = Manager::init(64, 64, 2);
    assert_eq!(manager.deserialize(&[]), Err(DecodeError::UnexpectedEof));
    assert_eq!(manager.deserialize(&[0; 15]), Err(DecodeError::UnexpectedEof));
    assert_eq!(manager.get_node_num(), 6);
    let a = manager.get_var(0);
    assert_eq!(manager.not(a), manager.get_nvar(0));
}

#[test]
fn trailing_part_of_a_record_is_ignored() {
    let mut manager = Manager::init(64, 64, 2);
    let a = manager.get_var(0);
    let mut bytes = Vec::new();
    manager.serialize(a, &mut bytes);
    bytes.extend_from_slice(&[7; 31]);
    assert!(is_readable(&bytes, 2));
    assert_eq!(manager.deserialize(&bytes), Ok(a));
}

#[test]
fn handles_of_a_stream_are_its_own() {
    let mut manager = Manager::init(64, 64, 3);
    // Variable 2 or not variable 0, under made-up handles.
    let bytes = stream(&[100, 200, 7, 2, 100, 200, 3, 0, 200, 7]);
    assert!(is_readable(&bytes, 3));
    let f = manager.deserialize(&bytes).unwrap();
    assert_eq!(shown(&manager, f), "0**\n1*1\n");
}

#[test]
fn record_with_equal_children_is_no_node() {
    let mut manager = Manager::init(64, 64, 4);
    // The first record asks for variable 1 in vain, so the second may ask for variable 3.
    let bytes = stream(&[1, 2, 10, 1, 2, 2, 11, 3, 1, 10]);
    assert!(is_readable(&bytes, 4));
    assert_eq!(manager.deserialize(&bytes), Ok(manager.get_var(3)));
    // Whatever variable such a record asks for.
    let bytes = stream(&[1, 2, 10, 3, 1, 2, 11, 9, 10, 10]);
    assert!(is_readable(&bytes, 4));
    assert_eq!(manager.deserialize(&bytes), Ok(manager.get_var(3)));
}

#[test]
fn records_out_of_order_cannot_be_read() {
    // A child that was not recorded.
    assert!(!is_readable(&stream(&[1, 2, 10, 0, 1, 3]), 4));
    // A child that asks for an earlier variable, or for the same one.
    assert!(!is_readable(&stream(&[1, 2, 10, 1, 1, 2, 11, 2, 1, 10]), 4));
    assert!(!is_readable(&stream(&[1, 2, 10, 1, 1, 2, 11, 1, 1, 10]), 4));
    assert!(is_readable(&stream(&[1, 2, 10, 1, 1, 2, 11, 0, 1, 10]), 4));
    // A variable past the last one.
    assert!(!is_readable(&stream(&[1, 2, 10, 4, 1, 2]), 4));
    assert!(is_readable(&stream(&[1, 2, 10, 3, 1, 2]), 4));
    // No record at all.
    assert!(!is_readable(&stream(&[1, 2]), 4));
    assert!(!is_readable(&[], 4));
    // The same tree recorded twice under two handles is one tree.
    let twice = [1, 2, 10, 3, 1, 2, 11, 3, 1, 2, 12, 0, 10, 11, 13, 3, 12, 1];
    assert!(!is_readable(&stream(&twice), 4));
    let once = [1, 2, 10, 3, 1, 2, 11, 3, 1, 2, 12, 0, 10, 11, 13, 2, 12, 1];
    assert!(is_readable(&stream(&once), 4));
}

#[test]
fn result_is_referenced_once_and_its_parts_are_not() {
    let mut manager = Manager::init(64, 64, 3);
    let bytes = stream(&[1, 2, 10, 2, 2, 1, 11, 1, 10, 1, 12, 0, 11, 1]);
    let f = manager.deserialize(&bytes).unwrap();
    assert_eq!(manager.get_node_num(), 10);
    manager.gc();
    assert_eq!(manager.get_node_num(), 10);
    assert_eq!(shown(&manager, f), "000\n");
    manager.deref_bdd(f);
    manager.gc();
    assert_eq!(manager.get_node_num(), 8);
}

#[test]
fn repeated_record_leaves_no_references_behind() {
    let mut manager = Manager::init(64, 64, 3);
    // Three records under one handle, and two of its child.
    let bytes = stream(&[1, 2, 10, 2, 2, 1, 10, 2, 2, 1, 11, 0, 10, 1, 11, 0, 10, 1, 11, 0, 10, 1]);
    let f = manager.deserialize(&bytes).unwrap();
    assert_eq!(manager.gc(), 9);
    manager.deref_bdd(f);
    assert_eq!(manager.gc(), 8);
}

#[test]
fn each_reading_takes_one_reference_to_its_result() {
    let mut manager = Manager::init(64, 64, 3);
    let (a, b) = (manager.get_var(0), manager.get_var(1));
    let ab = manager.and(a, b);
    let mut bytes = Vec::new();
    manager.serialize(ab, &mut bytes);
    for _ in 0..3 {
        assert_eq!(manager.deserialize(&bytes), Ok(ab));
    }
    for _ in 0..4 {
        assert_eq!(manager.gc(), 9);
        manager.deref_bdd(ab);
    }
    assert_eq!(manager.gc(), 8);
    assert!(manager.is_grounded());
}

#[test]
fn carried_terminal_leaves_the_other_one_alive() {
    let manager = Manager::init(8, 8, 0);
    let mut other = Manager::init(8, 8, 0);
    let mut bytes = Vec::new();
    manager.serialize(manager.get_false(), &mut bytes);
    assert_eq!(other.deserialize(&bytes), Ok(other.get_false()));
    assert!(other.is_grounded());
    // Each has one reference, and what was read has another one.
    let (t, f) = (other.get_true(), other.get_false());
    other.deref_bdd(f);
    assert!(other.is_grounded());
    assert_eq!(other.gc(), 2);
    other.deref_bdd(t);
    assert!(!other.is_grounded());
}

#[test]
fn record_of_equal_terminals_returns_a_referenced_terminal() {
    let mut manager = Manager::init(8, 8, 0);
    // Another handle than that of the terminal.
    let bytes = stream(&[1, 2, 10, 0, 2, 2]);
    assert!(manager.accepts(&bytes));
    let t = manager.get_true();
    assert_eq!(manager.deserialize(&bytes), Ok(t));
    manager.deref_bdd(t);
    assert!(manager.is_grounded());
    manager.deref_bdd(t);
    assert!(!manager.is_grounded());
}
