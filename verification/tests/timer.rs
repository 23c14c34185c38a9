use feap::timer::Measured;
use feap::{Timer, TimerHook};

#[test]
fn new_timer_has_measured_nothing() {
    let timer = Timer::new("heap");
    assert_eq!(timer.label(), "heap");
    for hook in [
        TimerHook::RemoveChildHook,
        TimerHook::MergingHook,
        TimerHook::InnerMergingLoop,
        TimerHook::UpdatingHook,
        TimerHook::FastRootListInsert,
        TimerHook::SlowRootListInsert,
    ] {
        assert_eq!(timer.measured(hook), None);
        assert_eq!(timer.average(hook), None);
        assert!(!timer.check_mark(hook, 0));
    }
}

#[test]
fn hooks_are_numbered_in_order() {
    assert_eq!(TimerHook::RemoveChildHook.index(), 0);
    assert_eq!(TimerHook::MergingHook.index(), 1);
    assert_eq!(TimerHook::InnerMergingLoop.index(), 2);
    assert_eq!(TimerHook::UpdatingHook.index(), 3);
    assert_eq!(TimerHook::FastRootListInsert.index(), 4);
    assert_eq!(TimerHook::SlowRootListInsert.index(), 5);
}

#[test]
fn spans_add_up() {
    let mut timer = Timer::new("t");
    timer.start_timer(TimerHook::MergingHook, 100);
    assert!(timer.check_mark(TimerHook::MergingHook, 130));
    timer.mark_timer(TimerHook::MergingHook, 130);
    assert_eq!(timer.measured(TimerHook::MergingHook), Some(Measured { ticks: 30, spans: 1 }));
    timer.start_timer(TimerHook::MergingHook, 200);
    timer.mark_timer(TimerHook::MergingHook, 215);
    assert_eq!(timer.measured(TimerHook::MergingHook), Some(Measured { ticks: 45, spans: 2 }));
    assert_eq!(timer.average(TimerHook::MergingHook), Some(22));
    assert_eq!(timer.measured(TimerHook::UpdatingHook), None);
}

#[test]
fn mark_without_a_running_span_changes_nothing() {
    let mut timer = Timer::new("t");
    timer.start_timer(TimerHook::UpdatingHook, 5);
    timer.mark_timer(TimerHook::UpdatingHook, 9);
    assert!(timer.check_mark(TimerHook::UpdatingHook, 0));
    timer.mark_timer(TimerHook::UpdatingHook, 1000);
    assert_eq!(timer.measured(TimerHook::UpdatingHook), Some(Measured { ticks: 4, spans: 1 }));
}

#[test]
fn a_second_start_starts_over() {
    let mut timer = Timer::new("t");
    timer.start_timer(TimerHook::InnerMergingLoop, 10);
    timer.start_timer(TimerHook::InnerMergingLoop, 50);
    assert!(!timer.check_mark(TimerHook::InnerMergingLoop, 49));
    assert!(timer.check_mark(TimerHook::InnerMergingLoop, 50));
    timer.mark_timer(TimerHook::InnerMergingLoop, 60);
    assert_eq!(timer.average(TimerHook::InnerMergingLoop), Some(10));
}

#[test]
fn hooks_are_kept_apart() {
    let mut timer = Timer::new("t");
    timer.start_timer(TimerHook::FastRootListInsert, 1);
    timer.start_timer(TimerHook::SlowRootListInsert, 2);
    timer.mark_timer(TimerHook::SlowRootListInsert, 12);
    timer.mark_timer(TimerHook::FastRootListInsert, 4);
    assert_eq!(timer.average(TimerHook::FastRootListInsert), Some(3));
    assert_eq!(timer.average(TimerHook::SlowRootListInsert), Some(10));
    assert_eq!(timer.average(TimerHook::RemoveChildHook), None);
}

#[test]
fn long_spans_fit() {
    let mut timer = Timer::new("t");
    timer.start_timer(TimerHook::RemoveChildHook, 0);
    timer.mark_timer(TimerHook::RemoveChildHook, u64::MAX);
    timer.start_timer(TimerHook::RemoveChildHook, 0);
    timer.mark_timer(TimerHook::RemoveChildHook, u64::MAX);
    assert_eq!(
        timer.measured(TimerHook::RemoveChildHook),
        Some(Measured { ticks: 2 * (u64::MAX as u128), spans: 2 })
    );
    assert_eq!(timer.average(TimerHook::RemoveChildHook), Some(u64::MAX as u128));
}
