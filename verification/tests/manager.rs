use std::io::{Read, Write};
use std::str::from_utf8;

use flate2::Compression;
use tobdd::{Bdd, BddIO, BddManager, BddOp, Manager, PrintSet};

#[test]
fn test_and() {
    let mut manager: Manager = Manager::init(1024, 1024, 3);
    let a = manager.get_nvar(0);
    let b = manager.get_nvar(1);
    let c = manager.get_nvar(2);

    let mut buf = Vec::new();

    let and_ab = manager.and(a, b);
    let and_abc = manager.and(and_ab, c);

    manager.print(and_abc, &mut buf);
    assert_eq!(from_utf8(&buf).unwrap(), "000\n");

    manager.deref_bdd(and_ab);
    manager.deref_bdd(and_abc);
}

#[test]
fn test_comp() {
    let mut manager: Manager = Manager::init(1024, 1024, 3);
    let a = manager.get_var(0);
    let nb = manager.get_nvar(1);
    let _c = manager.get_var(2);

    let mut buf = Vec::new();

    let a_and_nb = manager.and(a, nb);
    let comp = manager.comp(a, a_and_nb);

    manager.print(comp, &mut buf);
    assert_eq!(from_utf8(&buf).unwrap(), "11*\n");

    manager.deref_bdd(a_and_nb);
    manager.deref_bdd(comp);
}

#[test]
fn test_gc() {
    let mut manager = Manager::init(8, 8, 3);
    let a = manager.get_var(0);
    let b = manager.get_var(1);
    let c = manager.get_var(2);

    let ab = manager.and(a, b);
    let bc = manager.and(b, c);
    manager.gc();

    assert_eq!(manager.get_node_num(), 10);

    manager.deref_bdd(ab);
    manager.deref_bdd(bc);
    manager.gc();
    assert_eq!(manager.get_node_num(), 8);
}

#[test]
fn test_print_set() {
    let mut manager: Manager = Manager::init(1024, 1024, 3);
    let a = manager.get_var(0);
    let b = manager.get_var(1);
    let c = manager.get_var(2);

    let ab = manager.and(a, b);
    let bc = manager.and(b, c);
    let abc = manager.or(ab, bc);

    let mut buf = Vec::new();

    PrintSet::print(&manager, manager.get_true(), &mut buf);
    assert_eq!(from_utf8(&buf).unwrap(), "TRUE\n");
    buf.clear();
    PrintSet::print(&manager, manager.get_false(), &mut buf);
    assert_eq!(from_utf8(&buf).unwrap(), "FALSE\n");
    buf.clear();
    PrintSet::print(&manager, abc, &mut buf);
    assert_eq!(from_utf8(&buf).unwrap(), "011\n11*\n");

    buf.clear();
    PrintSet::print(&manager, ab, &mut buf);
    assert_eq!(from_utf8(&buf).unwrap(), "11*\n");

    manager.deref_bdd(ab);
    manager.deref_bdd(bc);
    manager.deref_bdd(abc);
}

#[test]
fn test_ruddy_io() {
    let mut manager: Manager = Manager::init(1024, 1024, 3);
    let a = manager.get_var(0);
    let b = manager.get_var(1);
    let c = manager.get_var(2);

    let ab = manager.and(a, b);
    let bc = manager.and(b, c);
    let abc = manager.and(ab, bc);

    let mut buffer = Vec::new();
    BddIO::serialize(&manager, abc, &mut buffer);
    manager.deref_bdd(ab);
    manager.deref_bdd(bc);
    manager.deref_bdd(abc);

    let mut another_manager: Manager = Manager::init(1024, 1024, 3);
    let a = another_manager.get_var(0);
    let b = another_manager.get_var(1);
    let c = another_manager.get_var(2);

    let ab = another_manager.and(a, b);
    let bc = another_manager.and(b, c);
    let abc = another_manager.and(ab, bc);
    let another_abc = BddIO::deserialize(&mut another_manager, &buffer[..]).unwrap();

    assert_eq!(abc, another_abc);

    another_manager.deref_bdd(ab);
    another_manager.deref_bdd(bc);
    another_manager.deref_bdd(abc);
    another_manager.deref_bdd(another_abc);
}

#[test]
fn test_ruddy_io_compressed() {
    const VAR_NUM: usize = 32;

    let mut manager: Manager = Manager::init(1024, 1024, VAR_NUM);
    let mut and_all = manager.get_true();
    let mut tmp: Bdd;
    for i in 0..VAR_NUM {
        let var = manager.get_var(i);
        tmp = manager.and(and_all, var);
        manager.deref_bdd(and_all);
        and_all = tmp;
    }

    let mut buffer_uncomp = Vec::new();
    BddIO::serialize(&manager, and_all, &mut buffer_uncomp);
    println!("Uncompressed size: {}", buffer_uncomp.len());
    assert_eq!(buffer_uncomp.len(), 16 + 32 * VAR_NUM);

    let mut encoder = flate2::write::DeflateEncoder::new(Vec::new(), Compression::fast());
    encoder.write_all(&buffer_uncomp).unwrap();
    encoder.flush().unwrap();
    let buffer = encoder.finish().unwrap();
    println!("Compressed size: {}", buffer.len());
    println!(
        "Compression ratio: {}",
        1f64 - (buffer.len() as f64 / buffer_uncomp.len() as f64)
    );

    let mut another_manager: Manager = Manager::init(1024, 1024, VAR_NUM);
    let mut decoder = flate2::read::DeflateDecoder::new(&buffer[..]);
    let mut bytes = Vec::new();
    decoder.read_to_end(&mut bytes).unwrap();
    let another_and_all = BddIO::deserialize(&mut another_manager, &bytes).unwrap();

    let mut printed = Vec::new();
    another_manager.print(another_and_all, &mut printed);
    assert_eq!(from_utf8(&printed).unwrap(), "1".repeat(VAR_NUM) + "\n");
    manager.deref_bdd(and_all);
    another_manager.deref_bdd(another_and_all);
}
