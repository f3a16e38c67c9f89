use tobdd::node::{key_less, key_same, Node, NodePtr, NULL};
use tobdd::store::{Allocator, NodeStore};

#[test]
fn new_node_has_no_children() {
    let node = Node::new(5);
    assert_eq!(node.key(), (5, NULL, NULL));
    assert_eq!(node.ref_cnt, 0);
    assert_eq!(node.next, NULL);
    assert_eq!(Node::new(0).hash, 0x6ba9816940891bf5);
    assert_eq!(Node::new(1).hash, 0x19e611279c9c53a0);
}

#[test]
fn node_from_children_has_their_hash() {
    let node = Node::from(1, 2, 3);
    assert_eq!(node.key(), (1, 2, 3));
    assert_eq!(node.hash, 0x9819321d8a9baa63);
    assert_eq!(Node::from(3, 2, 1).hash, 0xba958d6460c043a5);
}

#[test]
fn default_node_is_blank() {
    let node = Node::default();
    assert_eq!(node.key(), (0, NULL, NULL));
    assert_eq!(node.hash, 0);
}

#[test]
fn keys_are_ordered_by_level_then_children() {
    assert!(key_less((0, 9, 9), (1, 0, 0)));
    assert!(key_less((1, 0, 9), (1, 1, 0)));
    assert!(key_less((1, 1, 0), (1, 1, 1)));
    assert!(!key_less((1, 1, 1), (1, 1, 1)));
    assert!(key_same((1, 1, 1), (1, 1, 1)));
    assert!(!key_same((1, 1, 1), (1, 1, 2)));
}

#[test]
fn store_reuses_freed_places() {
    let mut store = NodeStore::new();
    assert!(!store.contains(NULL));
    let a = store.allocate(Node::new(1));
    let b = store.allocate(Node::from(2, a, NULL));
    assert_ne!(a, NULL);
    assert_ne!(a, b);
    assert!(store.contains(a) && store.contains(b));
    assert_eq!(store.index(b).low, a);
    store.free(a);
    assert!(!store.contains(a));
    let c = store.allocate(Node::new(3));
    assert_eq!(c, a);
    store.index_mut(c).ref_cnt = 7;
    assert_eq!(store.index(c).ref_cnt, 7);
}

#[test]
fn handle_reads_its_node_and_rehashes() {
    let mut store = NodeStore::new();
    let id = store.allocate(Node::new(0));
    store.index_mut(id).level = 1;
    store.index_mut(id).low = 2;
    store.index_mut(id).high = 3;
    store.index_mut(id).next = 4;
    assert_eq!(id.node_hash(&store), 0x6ba9816940891bf5);
    id.rehash(&mut store);
    assert_eq!(id.node_hash(&store), 0x9819321d8a9baa63);
    assert_eq!(id.level(&store), 1);
    assert_eq!(id.low(&store), 2);
    assert_eq!(id.high(&store), 3);
    assert_eq!(id.next(&store), 4);
    assert_eq!(id.ref_cnt(&store), 0);
}
