use feap::schedule::{feap_round, is_checkpoint, rudac_round, EXTRACTS, NUM_ENTRIES};

#[test]
fn checkpoints_are_found() {
    for c in EXTRACTS {
        assert!(is_checkpoint(c));
    }
    assert!(is_checkpoint(0x10));
    assert!(is_checkpoint(0x1000));
    assert!(!is_checkpoint(0));
    assert!(!is_checkpoint(0x0f));
    assert!(!is_checkpoint(0x11));
    assert!(!is_checkpoint(0x1001));
    assert!(!is_checkpoint(u16::MAX));
    let found = (0..=u16::MAX).filter(|&x| is_checkpoint(x)).count();
    assert_eq!(found, 24);
}

#[test]
fn extracts_count_up_from_zero() {
    let out = feap_round(NUM_ENTRIES);
    let expected: Vec<u16> = (0..24).collect();
    assert_eq!(out, expected);
}

#[test]
fn rudac_pops_count_up_from_zero() {
    let out = rudac_round(NUM_ENTRIES);
    let expected: Vec<u16> = (0..24).collect();
    assert_eq!(out, expected);
}

#[test]
fn short_rounds() {
    assert_eq!(feap_round(0), Vec::<u16>::new());
    assert_eq!(feap_round(0x0f), Vec::<u16>::new());
    assert_eq!(feap_round(0x10), vec![0]);
    assert_eq!(feap_round(0x3f), vec![0, 1]);
    assert_eq!(feap_round(0x77), vec![0, 1, 2]);
    assert_eq!(feap_round(0x78), vec![0, 1, 2, 3]);
    assert_eq!(rudac_round(0), Vec::<u16>::new());
    assert_eq!(rudac_round(0x10), vec![0]);
    assert_eq!(rudac_round(0x78), vec![0, 1, 2, 3]);
    assert_eq!(feap_round(u16::MAX).len(), 24);
}

#[test]
fn both_heaps_agree() {
    for last in [1u16, 0x100, 0x420, 0x7d9, 0xfff] {
        assert_eq!(feap_round(last), rudac_round(last));
    }
}

#[test]
fn rudac_pops_what_a_sorted_list_gives() {
    let mut heap = rudac::heap::FibonacciHeap::init_min();
    let mut sorted: Vec<u16> = Vec::new();
    let mut state: u32 = 2024;
    for _ in 0..5000 {
        state = state.wrapping_mul(1664525).wrapping_add(1013904223);
        let value = (state >> 16) as u16 % 300;
        if (state >> 9) % 3 == 0 {
            let expected = if sorted.is_empty() { None } else { Some(sorted.remove(0)) };
            assert_eq!(heap.pop(), expected);
        } else {
            heap.push(value);
            let at = sorted.partition_point(|&s| s <= value);
            sorted.insert(at, value);
        }
    }
    while let Some(v) = heap.pop() {
        assert_eq!(v, sorted.remove(0));
    }
    assert!(sorted.is_empty());
}

#[test]
fn this_heap_and_rudac_agree_on_any_schedule() {
    let mut ours = feap::FibHeap::new();
    let mut theirs = rudac::heap::FibonacciHeap::init_min();
    let mut state: u32 = 77;
    for _ in 0..5000 {
        state = state.wrapping_mul(1103515245).wrapping_add(12345);
        let value = (state >> 16) as u16 % 1000;
        if (state >> 10) % 4 == 0 {
            assert_eq!(ours.extract_min(), theirs.pop());
        } else {
            ours.insert(value);
            theirs.push(value);
        }
        assert_eq!(ours.get_min(), theirs.peek());
    }
}
