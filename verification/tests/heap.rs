use feap::{FibHeap, Handle, HeapError};

#[test]
fn insert_none() {
    let mut feap = FibHeap::<i32>::new();
    assert_eq!(feap.get_min(), None);
    assert_eq!(feap.extract_min(), None);
}

#[test]
fn lib_insert_one() {
    let mut feap = FibHeap::new();
    feap.insert(10);
    assert_eq!(feap.get_min(), Some(&10));
    assert_eq!(feap.extract_min(), Some(10));
    assert_eq!(feap.extract_min(), None);
}

#[test]
fn insert_min_first() {
    let mut feap = FibHeap::new();
    feap.insert(10);
    feap.insert(11);
    assert_eq!(feap.get_min(), Some(&10));
}

#[test]
fn insert_min_last() {
    let mut feap = FibHeap::new();
    feap.insert(11);
    feap.insert(10);
    assert_eq!(feap.get_min(), Some(&10));
}

#[test]
fn insert_min() {
    let mut feap = FibHeap::new();
    feap.insert(11);
    feap.insert(10);
    assert_eq!(feap.get_min(), Some(&10));
    feap.insert(4);
    assert_eq!(feap.get_min(), Some(&4));
}

#[test]
fn get_min() {
    let mut feap = FibHeap::new();
    feap.insert(11);
    feap.insert(10);
    feap.insert(4);
    assert_eq!(feap.get_min(), Some(&4));
    assert_eq!(feap.extract_min(), Some(4));
    assert_eq!(feap.get_min(), Some(&10));
    assert_eq!(feap.extract_min(), Some(10));
    assert_eq!(feap.get_min(), Some(&11));
    assert_eq!(feap.extract_min(), Some(11));
    assert_eq!(feap.get_min(), None);
    assert_eq!(feap.extract_min(), None);
}

#[test]
fn cleanup() {
    let mut feap = FibHeap::new();
    feap.insert(0);
    feap.insert(1);
    feap.insert(2);
    feap.insert(3);
    feap.insert(4);
    feap.insert(5);
    assert_eq!(feap.extract_min(), Some(0));
    assert_eq!(feap.root_count(), 2);
}

#[test]
fn clear() {
    let mut feap = FibHeap::new();
    feap.insert(0);
    feap.insert(1);
    feap.insert(2);
    feap.insert(3);
    feap.insert(4);
    feap.clear();
    assert_eq!(feap.get_min(), None);
    assert_eq!(feap.root_count(), 0);
}

#[test]
fn simple() {
    let mut feap = FibHeap::<i32>::new();
    assert_eq!(feap.get_min(), None);
    assert_eq!(feap.extract_min(), None);
}

#[test]
fn tests_insert_one() {
    let mut feap = FibHeap::new();
    feap.insert(10);
    assert_eq!(feap.get_min(), Some(&10));
}

#[test]
fn insert_multiple() {
    let mut feap = FibHeap::new();
    feap.insert(10);
    feap.insert(11);
    assert_eq!(feap.get_min(), Some(&10));
}

#[test]
fn default_is_empty() {
    let mut feap: FibHeap<u8> = FibHeap::default();
    assert_eq!(feap.get_min(), None);
    assert_eq!(feap.root_count(), 0);
    feap.insert(7);
    assert_eq!(feap.extract_min(), Some(7));
}

#[test]
fn decrease_key_makes_new_minimum() {
    let mut feap = FibHeap::new();
    feap.insert(5);
    let ten = feap.insert(10);
    assert_eq!(feap.get_min(), Some(&5));
    assert_eq!(feap.decrease_key(ten, 3), Ok(()));
    assert_eq!(feap.get_min(), Some(&3));
}

#[test]
fn decrease_key_to_equal_value_is_accepted() {
    let mut feap = FibHeap::new();
    let a = feap.insert(5);
    assert_eq!(feap.decrease_key(a, 5), Ok(()));
    assert_eq!(feap.extract_min(), Some(5));
    assert_eq!(feap.extract_min(), None);
}

#[test]
fn decrease_key_keeps_first_minimum_on_tie() {
    let mut feap = FibHeap::new();
    feap.insert((1, "first"));
    let other = feap.insert((4, "other"));
    // Pairs are compared by number, then by name: "first" < "other".
    assert_eq!(feap.decrease_key(other, (1, "other")), Ok(()));
    assert_eq!(feap.get_min(), Some(&(1, "first")));
}

#[test]
fn peek_after_decrease_is_not_above_new_value() {
    let mut feap = FibHeap::new();
    let mut handles = Vec::new();
    for v in [40u32, 10, 30, 20, 50, 60, 70] {
        handles.push(feap.insert(v));
    }
    assert_eq!(feap.extract_min(), Some(10));
    for (k, new) in [(0usize, 35u32), (4, 12), (6, 11), (5, 60)] {
        assert_eq!(feap.decrease_key(handles[k], new), Ok(()));
        assert!(*feap.get_min().unwrap() <= new);
    }
    assert_eq!(feap.get_min(), Some(&11));
}

#[test]
fn increase_is_rejected_and_changes_nothing() {
    let mut feap = FibHeap::new();
    let mut handles = Vec::new();
    for v in [8, 3, 9, 1, 7, 2] {
        handles.push(feap.insert(v));
    }
    assert_eq!(feap.extract_min(), Some(1));
    let roots = feap.root_count();
    assert_eq!(feap.decrease_key(handles[1], 4), Err(HeapError::InvalidOperation));
    assert_eq!(feap.decrease_key(handles[2], 10), Err(HeapError::InvalidOperation));
    assert_eq!(feap.root_count(), roots);
    assert_eq!(feap.get_min(), Some(&2));
    let mut rest = Vec::new();
    while let Some(v) = feap.extract_min() {
        rest.push(v);
    }
    assert_eq!(rest, vec![2, 3, 7, 8, 9]);
}

#[test]
fn stale_handle_is_rejected() {
    let mut feap = FibHeap::new();
    let one = feap.insert(1);
    let two = feap.insert(2);
    assert_eq!(feap.extract_min(), Some(1));
    assert_eq!(feap.decrease_key(one, 0), Err(HeapError::InvalidHandle));
    assert_eq!(feap.get_min(), Some(&2));
    assert_eq!(feap.decrease_key(two, 0), Ok(()));
    assert_eq!(feap.get_min(), Some(&0));
}

#[test]
fn stale_handle_stays_stale_when_its_slot_is_used_again() {
    let mut feap = FibHeap::new();
    let old = feap.insert(1);
    assert_eq!(feap.extract_min(), Some(1));
    let new = feap.insert(5);
    assert_ne!(old, new);
    assert_eq!(feap.decrease_key(old, 0), Err(HeapError::InvalidHandle));
    assert_eq!(feap.get_min(), Some(&5));
    assert_eq!(feap.decrease_key(new, 4), Ok(()));
    assert_eq!(feap.extract_min(), Some(4));
}

#[test]
fn handle_that_was_never_given_out_is_rejected() {
    let mut a = FibHeap::new();
    let mut b = FibHeap::new();
    a.insert(1);
    a.insert(2);
    let third: Handle = a.insert(3);
    // The second heap has given out one handle only, so the third handle of
    // the first names nothing in it.
    b.insert(10);
    assert_eq!(b.decrease_key(third, 0), Err(HeapError::InvalidHandle));
    assert_eq!(b.get_min(), Some(&10));
}

#[test]
fn handles_are_dead_after_clear() {
    let mut feap = FibHeap::new();
    let a = feap.insert(1);
    let b = feap.insert(2);
    feap.clear();
    let c = feap.insert(9);
    assert_eq!(feap.decrease_key(a, 0), Err(HeapError::InvalidHandle));
    assert_eq!(feap.decrease_key(b, 0), Err(HeapError::InvalidHandle));
    assert_eq!(feap.decrease_key(c, 8), Ok(()));
    assert_eq!(feap.extract_min(), Some(8));
    assert_eq!(feap.extract_min(), None);
}

#[test]
fn cleared_heap_behaves_like_a_new_one() {
    let mut used = FibHeap::new();
    for v in [5, 1, 4, 2, 3] {
        used.insert(v);
    }
    assert_eq!(used.extract_min(), Some(1));
    used.clear();
    assert_eq!(used.get_min(), None);
    assert_eq!(used.extract_min(), None);
    let mut fresh = FibHeap::new();
    for v in [11, 10, 4] {
        used.insert(v);
        fresh.insert(v);
        assert_eq!(used.get_min(), fresh.get_min());
        assert_eq!(used.root_count(), fresh.root_count());
    }
    loop {
        let a = used.extract_min();
        let b = fresh.extract_min();
        assert_eq!(a, b);
        assert_eq!(used.root_count(), fresh.root_count());
        if a.is_none() {
            break;
        }
    }
}

#[test]
fn clear_of_empty_heap_does_nothing() {
    let mut feap = FibHeap::<i64>::new();
    feap.clear();
    assert_eq!(feap.get_min(), None);
    assert_eq!(feap.root_count(), 0);
}

#[test]
fn peek_is_idempotent() {
    let mut feap = FibHeap::new();
    for v in [3, 1, 2] {
        feap.insert(v);
    }
    assert_eq!(feap.get_min(), Some(&1));
    assert_eq!(feap.get_min(), Some(&1));
    assert_eq!(feap.root_count(), 3);
    assert_eq!(feap.extract_min(), Some(1));
    assert_eq!(feap.get_min(), Some(&2));
    assert_eq!(feap.get_min(), Some(&2));
}

#[test]
fn roots_after_extraction_are_few() {
    let mut feap = FibHeap::new();
    for v in 0..6 {
        feap.insert(v);
    }
    assert_eq!(feap.root_count(), 6);
    assert_eq!(feap.extract_min(), Some(0));
    // No more than the ceiling of log2(6), plus one.
    assert!(feap.root_count() <= 4);
}

#[test]
fn drain_is_sorted() {
    let mut feap = FibHeap::new();
    let values = [17u64, 3, 99, 3, 0, 42, 8, 8, 8, 61, 5, 23, 1, 77, 12];
    for v in values {
        feap.insert(v);
    }
    let mut out = Vec::new();
    while let Some(v) = feap.extract_min() {
        out.push(v);
    }
    let mut sorted = values.to_vec();
    sorted.sort();
    assert_eq!(out, sorted);
}

#[test]
fn extract_matches_a_sorted_reference() {
    let mut feap = FibHeap::new();
    let mut reference: Vec<u32> = Vec::new();
    let mut state: u32 = 12345;
    for _ in 0..3000 {
        state = state.wrapping_mul(1664525).wrapping_add(1013904223);
        let value = (state >> 16) % 500;
        if (state >> 8) % 3 == 0 {
            let expected = if reference.is_empty() { None } else { Some(reference.remove(0)) };
            assert_eq!(feap.extract_min(), expected);
        } else {
            feap.insert(value);
            let at = reference.partition_point(|&r| r <= value);
            reference.insert(at, value);
        }
        assert_eq!(feap.get_min(), reference.first());
    }
}

#[test]
fn decrease_keys_match_a_reference() {
    let mut feap = FibHeap::new();
    let mut live: Vec<(Handle, u32)> = Vec::new();
    let mut state: u32 = 987;
    for round in 0..4000u32 {
        state = state.wrapping_mul(1103515245).wrapping_add(12345);
        let pick = (state >> 16) as usize;
        match round % 4 {
            0 | 1 => {
                let value = 1000 + (pick as u32 % 9000);
                live.push((feap.insert(value), value));
            }
            2 => {
                if !live.is_empty() {
                    let k = pick % live.len();
                    let new = live[k].1 - (pick as u32 % 7).min(live[k].1);
                    assert_eq!(feap.decrease_key(live[k].0, new), Ok(()));
                    live[k].1 = new;
                }
            }
            _ => {
                let least = live.iter().map(|e| e.1).min();
                let got = feap.extract_min();
                assert_eq!(got, least);
                if let Some(v) = got {
                    let at = live.iter().position(|e| e.1 == v).unwrap();
                    // Which of several equal values left cannot be told
                    // from the value; find out by asking for each.
                    let gone = live
                        .iter()
                        .position(|e| e.1 == v && feap.decrease_key(e.0, e.1) == Err(HeapError::InvalidHandle))
                        .unwrap_or(at);
                    live.remove(gone);
                }
            }
        }
        assert_eq!(feap.get_min().copied(), live.iter().map(|e| e.1).min());
    }
    for e in &live {
        assert_eq!(feap.decrease_key(e.0, e.1), Ok(()));
    }
}

#[test]
fn cascading_cut_keeps_the_order() {
    let mut feap = FibHeap::new();
    let mut handles = Vec::new();
    for v in 0..33u32 {
        handles.push(feap.insert(v * 10));
    }
    assert_eq!(feap.extract_min(), Some(0));
    // 32 nodes in one tree. Lower values deep in the tree, some of them
    // twice under one parent, so that marked parents are cut as well.
    for k in [32usize, 31, 30, 28, 24, 27, 26, 22, 20, 16] {
        let new = k as u32;
        assert_eq!(feap.decrease_key(handles[k], new), Ok(()));
    }
    assert_eq!(feap.get_min(), Some(&10));
    let mut out = Vec::new();
    while let Some(v) = feap.extract_min() {
        out.push(v);
    }
    let mut expected: Vec<u32> = (1..33u32)
        .map(|k| if [32, 31, 30, 28, 24, 27, 26, 22, 20, 16].contains(&k) { k } else { k * 10 })
        .collect();
    expected.sort();
    assert_eq!(out, expected);
}

#[test]
fn cut_moves_the_node_to_the_roots() {
    let mut feap = FibHeap::new();
    let mut handles = Vec::new();
    for v in [0, 10, 20, 30, 40] {
        handles.push(feap.insert(v));
    }
    assert_eq!(feap.extract_min(), Some(0));
    // Four nodes are left, in one tree.
    assert_eq!(feap.root_count(), 1);
    // 40 is under 30 or 30 is under 10; lowering a node that is not a root
    // below its parent adds a root.
    assert_eq!(feap.decrease_key(handles[4], 5), Ok(()));
    assert_eq!(feap.root_count(), 2);
    assert_eq!(feap.get_min(), Some(&5));
    // Lowering a root adds none.
    assert_eq!(feap.decrease_key(handles[4], 4), Ok(()));
    assert_eq!(feap.root_count(), 2);
    assert_eq!(feap.extract_min(), Some(4));
    assert_eq!(feap.extract_min(), Some(10));
    assert_eq!(feap.extract_min(), Some(20));
    assert_eq!(feap.extract_min(), Some(30));
    assert_eq!(feap.extract_min(), None);
}

#[test]
fn equal_values_all_come_out() {
    let mut feap = FibHeap::new();
    for _ in 0..9 {
        feap.insert(7);
    }
    feap.insert(6);
    assert_eq!(feap.extract_min(), Some(6));
    for _ in 0..9 {
        assert_eq!(feap.extract_min(), Some(7));
    }
    assert_eq!(feap.extract_min(), None);
}

#[test]
fn ties_keep_the_minimum_that_was_there() {
    let mut feap = FibHeap::new();
    let first = feap.insert(3);
    let second = feap.insert(3);
    // The minimum is still the first: taking it out kills the first handle.
    assert_eq!(feap.extract_min(), Some(3));
    assert_eq!(feap.decrease_key(first, 3), Err(HeapError::InvalidHandle));
    assert_eq!(feap.decrease_key(second, 3), Ok(()));
}

#[test]
fn eager_threshold_keeps_the_roots_few() {
    let mut feap = FibHeap::with_eager_threshold(4);
    for v in 0..4 {
        feap.insert(v);
    }
    assert_eq!(feap.root_count(), 4);
    feap.insert(4);
    // Five roots are more than four: consolidated into trees of 4 and 1.
    assert_eq!(feap.root_count(), 2);
    for v in 5..100 {
        feap.insert(v);
        assert!(feap.root_count() <= 7);
    }
    for v in 0..100 {
        assert_eq!(feap.extract_min(), Some(v));
    }
    assert_eq!(feap.extract_min(), None);
}

#[test]
fn without_threshold_insert_never_links() {
    let mut feap = FibHeap::new();
    for v in 0..500 {
        feap.insert(v);
    }
    assert_eq!(feap.root_count(), 500);
    assert_eq!(feap.extract_min(), Some(0));
    // 499 = 0b111110011: one tree for each bit that is set.
    assert_eq!(feap.root_count(), 7);
}

#[test]
fn many_values_in_descending_order() {
    let mut feap = FibHeap::new();
    for v in (0..2000i64).rev() {
        feap.insert(v - 1000);
    }
    for v in 0..2000i64 {
        assert_eq!(feap.extract_min(), Some(v - 1000));
    }
    assert_eq!(feap.get_min(), None);
}

#[test]
fn values_need_not_be_numbers() {
    let mut feap = FibHeap::new();
    feap.insert(String::from("pear"));
    let plum = feap.insert(String::from("plum"));
    feap.insert(String::from("fig"));
    assert_eq!(feap.decrease_key(plum, String::from("apple")), Ok(()));
    assert_eq!(feap.extract_min(), Some(String::from("apple")));
    assert_eq!(feap.extract_min(), Some(String::from("fig")));
    assert_eq!(feap.extract_min(), Some(String::from("pear")));
    assert_eq!(feap.extract_min(), None);
}

#[test]
fn len_counts_the_values() {
    let mut feap = FibHeap::new();
    assert_eq!(feap.len(), 0);
    let mut handles = Vec::new();
    for v in 0..10 {
        handles.push(feap.insert(v));
        assert_eq!(feap.len(), v + 1);
    }
    assert_eq!(feap.extract_min(), Some(0));
    assert_eq!(feap.len(), 9);
    assert_eq!(feap.decrease_key(handles[9], 0), Ok(()));
    assert_eq!(feap.decrease_key(handles[0], 0), Err(HeapError::InvalidHandle));
    assert_eq!(feap.len(), 9);
    feap.clear();
    assert_eq!(feap.len(), 0);
    assert_eq!(feap.extract_min(), None);
    assert_eq!(feap.len(), 0);
}

#[test]
fn a_node_has_no_more_children_than_its_tree_allows() {
    // After an extraction the roots have different numbers of children,
    // so with r roots one of them has r - 1 children or more, and at least
    // fib(r + 1) values are in the heap.
    let fib = [0usize, 1, 1, 2, 3, 5, 8, 13, 21, 34, 55, 89, 144, 233, 377, 610, 987];
    let mut feap = FibHeap::new();
    let mut handles = Vec::new();
    for v in 0..600u32 {
        handles.push(feap.insert(1000 + v));
    }
    for round in 0..100usize {
        assert_eq!(feap.extract_min().is_some(), true);
        assert!(fib[feap.root_count() + 1] <= feap.len());
        // Cut some nodes loose, then look again after the next extraction.
        for k in 0..5 {
            let at = (round * 37 + k * 101) % handles.len();
            let _ = feap.decrease_key(handles[at], (round * 5 + k) as u32);
        }
    }
}
