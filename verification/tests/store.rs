use feap::heap::consolidate::degree_table_size;
use feap::store::Store;

#[test]
fn allocated_nodes_stand_alone() {
    let mut store = Store::new();
    assert_eq!(store.len(), 0);
    assert_eq!(store.slots(), 0);
    let (a, ha) = store.allocate(7);
    let (b, hb) = store.allocate(9);
    assert_ne!(a, b);
    assert_ne!(ha, hb);
    assert_eq!(store.len(), 2);
    assert_eq!(store.slots(), 2);
    assert_eq!(store.value(a), &7);
    assert_eq!(store.value(b), &9);
    assert_eq!(store.parent(a), None);
    assert_eq!(store.degree(a), 0);
    assert!(!store.is_marked(a));
    assert_eq!(store.last_child(a), None);
    assert_eq!(store.resolve(ha), Some(a));
    assert_eq!(store.resolve(hb), Some(b));
}

#[test]
fn link_and_detach() {
    let mut store = Store::new();
    let (a, _) = store.allocate('a');
    let (b, _) = store.allocate('b');
    let (c, _) = store.allocate('c');
    store.link(b, a);
    store.link(c, a);
    assert_eq!(store.parent(b), Some(a));
    assert_eq!(store.parent(c), Some(a));
    assert_eq!(store.degree(a), 2);
    assert_eq!(store.last_child(a), Some(c));
    store.set_marked(b, true);
    assert!(store.is_marked(b));
    store.detach(b);
    assert_eq!(store.parent(b), None);
    assert!(!store.is_marked(b));
    assert_eq!(store.degree(a), 1);
    assert_eq!(store.last_child(a), Some(c));
    assert_eq!(store.parent(c), Some(a));
    store.detach(c);
    assert_eq!(store.degree(a), 0);
    assert_eq!(store.last_child(a), None);
}

#[test]
fn set_value_replaces_the_value() {
    let mut store = Store::new();
    let (a, h) = store.allocate(String::from("old"));
    store.set_value(a, String::from("new"));
    assert_eq!(store.value(a), "new");
    assert_eq!(store.resolve(h), Some(a));
}

#[test]
fn released_slot_is_used_again_under_a_new_handle() {
    let mut store = Store::new();
    let (a, old) = store.allocate(1);
    assert_eq!(store.release(a), 1);
    assert_eq!(store.len(), 0);
    assert_eq!(store.slots(), 1);
    assert_eq!(store.resolve(old), None);
    let (b, new) = store.allocate(2);
    assert_eq!(a, b);
    assert_eq!(store.len(), 1);
    assert_eq!(store.slots(), 1);
    assert_ne!(old, new);
    assert_eq!(store.resolve(old), None);
    assert_eq!(store.resolve(new), Some(b));
    assert_eq!(store.value(b), &2);
}

#[test]
fn release_subtree_takes_the_tree_and_no_more() {
    let mut store = Store::new();
    let (a, ha) = store.allocate(0);
    let (b, hb) = store.allocate(1);
    let (c, hc) = store.allocate(2);
    let (d, hd) = store.allocate(3);
    let (e, he) = store.allocate(4);
    store.link(b, a);
    store.link(c, b);
    store.link(d, a);
    // e stands alone.
    store.release_subtree(a);
    assert_eq!(store.len(), 1);
    for h in [ha, hb, hc, hd] {
        assert_eq!(store.resolve(h), None);
    }
    assert_eq!(store.resolve(he), Some(e));
    assert_eq!(store.value(e), &4);
    // The four slots are free again.
    for v in 10..14 {
        store.allocate(v);
    }
    assert_eq!(store.len(), 5);
    assert_eq!(store.slots(), 5);
    for h in [ha, hb, hc, hd] {
        assert_eq!(store.resolve(h), None);
    }
}

#[test]
fn table_sizes() {
    assert_eq!(degree_table_size(0), 1);
    assert_eq!(degree_table_size(1), 2);
    assert_eq!(degree_table_size(2), 4);
    assert_eq!(degree_table_size(3), 5);
    assert_eq!(degree_table_size(4), 6);
    assert_eq!(degree_table_size(5), 6);
    assert_eq!(degree_table_size(6), 7);
    assert_eq!(degree_table_size(8), 7);
    assert_eq!(degree_table_size(9), 8);
    assert_eq!(degree_table_size(4097), 20);
    assert_eq!(degree_table_size(4181), 20);
    assert_eq!(degree_table_size(4182), 21);
    assert_eq!(degree_table_size(u32::MAX as usize), 49);
    if usize::BITS == 64 {
        assert_eq!(degree_table_size(usize::MAX), 95);
    }
}
