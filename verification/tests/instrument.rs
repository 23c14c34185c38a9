use feap::TimerHook::{
    FastRootListInsert, InnerMergingLoop, MergingHook, RemoveChildHook, SlowRootListInsert,
    UpdatingHook,
};
use feap::{FibHeap, Instrument, NoInstrument, Timer, TimerHook};

/// Writes down what it is told.
struct Log(Vec<(bool, TimerHook)>);

impl Instrument for Log {
    fn begin(&mut self, hook: TimerHook) {
        self.0.push((true, hook));
    }

    fn end(&mut self, hook: TimerHook) {
        self.0.push((false, hook));
    }
}

/// Feeds a timer from a clock that ticks once for every report.
struct Ticking {
    timer: Timer,
    now: u64,
}

impl Instrument for Ticking {
    fn begin(&mut self, hook: TimerHook) {
        self.now += 1;
        self.timer.start_timer(hook, self.now);
    }

    fn end(&mut self, hook: TimerHook) {
        self.now += 1;
        assert!(self.timer.check_mark(hook, self.now));
        self.timer.mark_timer(hook, self.now);
    }
}

#[test]
fn extraction_reports_its_phases_in_order() {
    let mut feap = FibHeap::new();
    for v in [3, 1, 2] {
        feap.insert(v);
    }
    let mut log = Log(Vec::new());
    assert_eq!(feap.extract_min_with(&mut log), Some(1));
    let expected = vec![
        (true, RemoveChildHook),
        (false, RemoveChildHook),
        (true, MergingHook),
        // The root 3 takes the free place 0.
        (true, InnerMergingLoop),
        (true, FastRootListInsert),
        (false, FastRootListInsert),
        (false, InnerMergingLoop),
        // The root 2 finds place 0 held, is linked, and takes the free place 1.
        (true, InnerMergingLoop),
        (true, SlowRootListInsert),
        (false, SlowRootListInsert),
        (true, FastRootListInsert),
        (false, FastRootListInsert),
        (false, InnerMergingLoop),
        (false, MergingHook),
        (true, UpdatingHook),
        (false, UpdatingHook),
    ];
    assert_eq!(log.0, expected);
    assert_eq!(feap.root_count(), 1);
    assert_eq!(feap.get_min(), Some(&2));
}

#[test]
fn extraction_from_an_empty_heap_reports_nothing() {
    let mut feap = FibHeap::<u8>::new();
    let mut log = Log(Vec::new());
    assert_eq!(feap.extract_min_with(&mut log), None);
    assert!(log.0.is_empty());
}

#[test]
fn every_phase_that_begins_ends() {
    let mut feap = FibHeap::with_eager_threshold(8);
    let mut log = Log(Vec::new());
    let mut handles = Vec::new();
    for v in 0..200u32 {
        handles.push(feap.insert_with(1000 - v, &mut log));
        if v % 7 == 0 {
            assert!(feap.extract_min_with(&mut log).is_some());
        }
        if v % 5 == 0 {
            let _ = feap.decrease_key(handles[(v / 2) as usize], 900 - v);
        }
    }
    let mut open = Vec::new();
    for (begins, hook) in log.0 {
        if begins {
            open.push(hook);
        } else {
            assert_eq!(open.pop(), Some(hook));
        }
    }
    assert!(open.is_empty());
}

#[test]
fn insertion_reports_only_when_it_consolidates() {
    let mut plain = FibHeap::new();
    let mut eager = FibHeap::with_eager_threshold(2);
    let mut log = Log(Vec::new());
    for v in 0..2 {
        plain.insert_with(v, &mut log);
        eager.insert_with(v, &mut log);
    }
    plain.insert_with(2, &mut log);
    assert!(log.0.is_empty());
    eager.insert_with(2, &mut log);
    assert_eq!(log.0.first(), Some(&(true, MergingHook)));
    assert_eq!(log.0.last(), Some(&(false, UpdatingHook)));
    assert_eq!(eager.root_count(), 2);
}

#[test]
fn a_timer_can_be_fed_by_the_heap() {
    let mut feap = FibHeap::new();
    for v in 0..9 {
        feap.insert(v);
    }
    let mut ticking = Ticking { timer: Timer::new("ticks"), now: 0 };
    assert_eq!(feap.extract_min_with(&mut ticking), Some(0));
    let timer = ticking.timer;
    // Eight roots went through the table, one after the other.
    assert_eq!(timer.measured(InnerMergingLoop).unwrap().spans, 8);
    assert_eq!(timer.measured(MergingHook).unwrap().spans, 1);
    assert_eq!(timer.measured(UpdatingHook).unwrap().spans, 1);
    assert_eq!(timer.measured(RemoveChildHook).unwrap().spans, 1);
    // Eight nodes end up in one tree: seven links.
    assert_eq!(timer.measured(SlowRootListInsert).unwrap().spans, 7);
    assert_eq!(timer.average(SlowRootListInsert), Some(1));
    assert_eq!(feap.root_count(), 1);
}

#[test]
fn no_instrument_changes_nothing() {
    let mut a = FibHeap::new();
    let mut b = FibHeap::new();
    let mut none = NoInstrument;
    for v in [5, 3, 8, 1, 9, 2] {
        a.insert(v);
        b.insert_with(v, &mut none);
    }
    loop {
        let x = a.extract_min();
        let y = b.extract_min_with(&mut none);
        assert_eq!(x, y);
        assert_eq!(a.root_count(), b.root_count());
        if x.is_none() {
            break;
        }
    }
}
