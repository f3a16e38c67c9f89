use tobdd::node::{Node, NULL};
use tobdd::set::{LockFreeSet, NodeSet, TableStat};
use tobdd::Bdd;

fn put(set: &mut LockFreeSet, level: usize, low: Bdd, high: Bdd) -> (Bdd, bool) {
    let id = set.new_node(Node::from(level, low, high));
    set.get_or_insert(id)
}

#[test]
fn bucket_number_is_the_next_power_of_two() {
    assert_eq!(LockFreeSet::with_capacity(1).bucket_size(), 2);
    assert_eq!(LockFreeSet::with_capacity(7).bucket_size(), 8);
    assert_eq!(LockFreeSet::with_capacity(8).bucket_size(), 16);
    assert_eq!(LockFreeSet::with_capacity(1000).bucket_size(), 1024);
    assert_eq!(LockFreeSet::with_capacity(8).size_exp(), 4);
}

#[test]
fn equal_keys_are_stored_once() {
    let mut set = LockFreeSet::with_capacity(8);
    let (a, fresh) = put(&mut set, 3, NULL, NULL);
    assert!(fresh);
    let (b, fresh) = put(&mut set, 3, NULL, NULL);
    assert!(!fresh);
    assert_eq!(a, b);
    let (c, fresh) = put(&mut set, 3, a, NULL);
    assert!(fresh);
    assert_ne!(a, c);
    assert_eq!(set.entry_num(), 2);
    assert_eq!(set.vertex(c), (3, a, NULL));
    assert!(set.contains(a) && set.contains(c));
    assert!(!set.contains(NULL));
    let outside = set.new_node(Node::new(9));
    assert!(!set.contains(outside));
    set.refill(outside, 3, a, NULL);
    assert_eq!(set.get_or_insert(outside), (c, false));
    assert!(set.sanity_check());
}

#[test]
fn full_set_asks_for_a_collection() {
    let mut set = LockFreeSet::with_capacity(1);
    put(&mut set, 0, NULL, NULL);
    assert!(!set.needs_gc());
    put(&mut set, 1, NULL, NULL);
    assert!(set.needs_gc());
    set.clear_needs_gc();
    assert!(!set.needs_gc());
}

#[test]
fn collection_keeps_what_a_referenced_node_reaches() {
    let mut set = LockFreeSet::with_capacity(4);
    let mut ids = Vec::new();
    for level in 0..20 {
        ids.push(put(&mut set, level, NULL, NULL).0);
    }
    let (top, _) = put(&mut set, 0, ids[3], ids[7]);
    let (upper, _) = put(&mut set, 1, top, ids[7]);
    set.ref_node(upper);
    set.ref_node(ids[19]);
    assert_eq!(set.ref_cnt(upper), 1);
    assert_eq!(set.entry_num(), 22);
    assert_eq!(set.mark_nodes(), 5);
    assert!(set.is_marked(top) && set.is_marked(ids[3]) && !set.is_marked(ids[4]));
    set.gc_unmarked();
    set.unmark_nodes();
    assert_eq!(set.entry_num(), 5);
    assert!(!set.needs_gc());
    assert!(set.contains(top) && set.contains(ids[19]) && !set.contains(ids[0]));
    assert_eq!(set.vertex(top), (0, ids[3], ids[7]));
    assert!(set.sanity_check());
    set.deref_node(upper);
    set.deref_node(ids[19]);
    assert_eq!(set.mark_nodes(), 0);
    set.gc_unmarked();
    assert_eq!(set.entry_num(), 0);
}

#[test]
fn reference_counts_wrap_around() {
    let mut set = LockFreeSet::with_capacity(4);
    let (a, _) = put(&mut set, 0, NULL, NULL);
    set.deref_node(a);
    assert_eq!(set.ref_cnt(a), usize::MAX);
    set.ref_node(a);
    assert_eq!(set.ref_cnt(a), 0);
}

#[test]
fn growth_keeps_the_nodes() {
    let mut set = LockFreeSet::with_capacity(1);
    let mut ids = Vec::new();
    for level in 0..50 {
        ids.push(put(&mut set, level, NULL, NULL).0);
    }
    for exp in 2..8 {
        set.grow();
        assert_eq!(set.size_exp(), exp);
        assert!(set.sanity_check());
    }
    assert!(!set.needs_gc());
    assert_eq!(set.entry_num(), 50);
    for (level, &id) in ids.iter().enumerate() {
        assert_eq!(set.vertex(id), (level, NULL, NULL));
        assert_eq!(put(&mut set, level, NULL, NULL), (id, false));
    }
}

#[test]
fn report_of_an_empty_set() {
    let r = LockFreeSet::with_capacity(4).table_stat_report();
    assert_eq!(r.table_size, 8);
    assert_eq!(r.node_count, 0);
    assert_eq!(r.empty_buckets, 8);
    assert_eq!(r.non_empty_buckets, 0);
    assert_eq!(r.min_chain_len, 0);
    assert_eq!(r.max_chain_len, 0);
    assert_eq!(r.histogram, [8, 0, 0, 0, 0, 0, 0, 0, 0]);
}

#[test]
fn report_counts_every_bucket() {
    let mut set = LockFreeSet::with_capacity(1);
    for level in 0..40 {
        put(&mut set, level, NULL, NULL);
    }
    let r = set.table_stat_report();
    assert_eq!(r.table_size, 2);
    assert_eq!(r.node_count, 40);
    assert_eq!(r.empty_buckets + r.non_empty_buckets, 2);
    assert_eq!(r.histogram.iter().sum::<usize>(), 2);
    assert_eq!(r.min_chain_len + r.max_chain_len, 40);
    assert_eq!(r.histogram[0], 0);
    assert_eq!(r.histogram[4] + r.histogram[5], 2);
}

#[test]
fn table_counts_as_text() {
    assert_eq!(
        TableStat::default().to_text(),
        "unique_access: 0, unique_chain: 0, unique_hit: 0, unique_miss: 0"
    );
    let stat = TableStat { unique_access: 12, unique_chain: 345, unique_hit: 6, unique_miss: 78 };
    assert_eq!(
        stat.to_text(),
        "unique_access: 12, unique_chain: 345, unique_hit: 6, unique_miss: 78"
    );
}
