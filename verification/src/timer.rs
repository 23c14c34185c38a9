//! Timing of the phases of the heap's work.
//!
//! A heap reports the phases of an extraction to an [`Instrument`]: it says
//! when each begins and ends. [`NoInstrument`] is the instrument of a heap
//! that nobody watches.
//!
//! A [`Timer`] adds up, for each [`TimerHook`], the spans between a start
//! and the mark that follows it. It reads no clock: the caller hands in the
//! time, as a count of ticks of whatever clock it uses.
use vstd::prelude::*;

verus! {

/// The phases that can be timed.
#[derive(Debug, Clone, Copy, PartialEq, Eq, Hash, Structural)]
pub enum TimerHook {
    /// Making the children of the extracted root roots.
    RemoveChildHook,
    /// The pass that links roots of equal degree.
    MergingHook,
    /// One root's way through the table, within the pass.
    InnerMergingLoop,
    /// Building the list of roots anew and finding the minimum.
    UpdatingHook,
    /// Putting a root into a free place of the table.
    FastRootListInsert,
    /// Linking a root with the one that holds its place.
    SlowRootListInsert,
}

/// How many hooks there are.
pub const HOOKS: usize = 6;

/// What a heap reports the phases of its work to: it says when a phase
/// begins and when it ends, and leaves the rest to the instrument.
pub trait Instrument {
    /// The phase begins.
    fn begin(&mut self, hook: TimerHook);

    /// The phase ends.
    fn end(&mut self, hook: TimerHook);
}

/// The instrument that does nothing. A heap that reports to it does no more
/// work than one that reports to none.
pub struct NoInstrument;

impl Instrument for NoInstrument {
    fn begin(&mut self, hook: TimerHook) {
    }

    fn end(&mut self, hook: TimerHook) {
    }
}

impl TimerHook {
    /// The place of the hook among the hooks, from 0.
    pub open spec fn ordinal(self) -> int {
        match self {
            TimerHook::RemoveChildHook => 0,
            TimerHook::MergingHook => 1,
            TimerHook::InnerMergingLoop => 2,
            TimerHook::UpdatingHook => 3,
            TimerHook::FastRootListInsert => 4,
            TimerHook::SlowRootListInsert => 5,
        }
    }

    /// The place of the hook among the hooks, from 0.
    pub fn index(self) -> (i: usize)
        ensures
            i == self.ordinal(),
            i < HOOKS,
    {
        match self {
            TimerHook::RemoveChildHook => 0,
            TimerHook::MergingHook => 1,
            TimerHook::InnerMergingLoop => 2,
            TimerHook::UpdatingHook => 3,
            TimerHook::FastRootListInsert => 4,
            TimerHook::SlowRootListInsert => 5,
        }
    }
}

/// What a timer has measured for one hook.
#[derive(Debug, Clone, Copy, PartialEq, Eq, Structural)]
pub struct Measured {
    /// The sum of the spans, in ticks.
    pub ticks: u128,
    /// The number of spans.
    pub spans: u64,
}

/// A named set of stopwatches, one for each hook.
pub struct Timer {
    name: String,
    /// By hook: what has been measured, once something has been.
    times: Vec<Option<Measured>>,
    /// By hook: `None` before the first start, then `Some(Some(t))` while
    /// running since `t` and `Some(None)` while stopped.
    timers: Vec<Option<Option<u64>>>,
}

impl Timer {
    /// The timer's invariant: a sum of spans is no more than so many spans
    /// can come to.
    pub closed spec fn wf(&self) -> bool {
        &&& self.times@.len() == HOOKS
        &&& self.timers@.len() == HOOKS
        &&& forall|i: int|
            0 <= i < HOOKS && (#[trigger] self.times@[i]) is Some ==> 1 <= self.times@[i]->0.spans
                && self.times@[i]->0.ticks <= self.times@[i]->0.spans * u64::MAX
    }

    /// The timer's name.
    pub closed spec fn name(&self) -> Seq<char> {
        self.name@
    }

    /// What has been measured so far, for each hook that has been marked
    /// while it ran.
    pub closed spec fn times(&self) -> Map<TimerHook, Measured> {
        Map::new(
            |hook: TimerHook| self.times@[hook.ordinal()] is Some,
            |hook: TimerHook| self.times@[hook.ordinal()]->0,
        )
    }

    /// The state of each hook that has ever been started: the time of the
    /// start while it runs, `None` once it has been marked.
    pub closed spec fn timers(&self) -> Map<TimerHook, Option<u64>> {
        Map::new(
            |hook: TimerHook| self.timers@[hook.ordinal()] is Some,
            |hook: TimerHook| self.timers@[hook.ordinal()]->0,
        )
    }

    /// A timer that has measured nothing.
    pub fn new(name: &str) -> (timer: Self)
        ensures
            timer.wf(),
            timer.name() == name@,
            timer.times() == Map::<TimerHook, Measured>::empty(),
            timer.timers() == Map::<TimerHook, Option<u64>>::empty(),
    {
        let timer = Timer {
            name: name.to_owned(),
            times: vec![None, None, None, None, None, None],
            timers: vec![None, None, None, None, None, None],
        };
        assert(timer.times() =~= Map::<TimerHook, Measured>::empty());
        assert(timer.timers() =~= Map::<TimerHook, Option<u64>>::empty());
        timer
    }

    /// Starts the hook at the time `now`. A hook that is running starts
    /// over.
    pub fn start_timer(&mut self, feature: TimerHook, now: u64)
        requires
            old(self).wf(),
        ensures
            final(self).wf(),
            final(self).name() == old(self).name(),
            final(self).times() == old(self).times(),
            final(self).timers() == old(self).timers().insert(feature, Some(now)),
    {
        let i = feature.index();
        self.timers[i] = Some(Some(now));
        proof {
            assert(self.times() =~= old(self).times());
            assert(self.timers() =~= old(self).timers().insert(feature, Some(now))) by {
                assert forall|hook: TimerHook| hook.ordinal() == feature.ordinal() implies hook
                    == feature by {}
            }
        }
    }

    /// Whether the next mark of the hook can be taken at the time `now`: the
    /// hook has been started at some time, and if it runs, `now` is not
    /// before its start and its count of spans has room for one more.
    pub open spec fn can_mark(&self, feature: TimerHook, now: u64) -> bool {
        &&& self.timers().dom().contains(feature)
        &&& self.timers()[feature] matches Some(start) ==> {
            &&& start <= now
            &&& self.times().dom().contains(feature) ==> self.times()[feature].spans < u64::MAX
        }
    }

    /// Whether the next mark of the hook can be taken at the time `now`.
    pub fn check_mark(&self, feature: TimerHook, now: u64) -> (ok: bool)
        requires
            self.wf(),
        ensures
            ok == self.can_mark(feature, now),
    {
        let i = feature.index();
        match self.timers[i] {
            None => false,
            Some(None) => true,
            Some(Some(start)) => start <= now && match self.times[i] {
                None => true,
                Some(measured) => measured.spans < u64::MAX,
            },
        }
    }

    /// Marks the hook at the time `now`. If the hook runs, the span since
    /// its start is added to what has been measured for it, and the hook
    /// stops. If it is stopped, nothing happens.
    pub fn mark_timer(&mut self, feature: TimerHook, now: u64)
        requires
            old(self).wf(),
            old(self).can_mark(feature, now),
        ensures
            final(self).wf(),
            final(self).name() == old(self).name(),
            match old(self).timers()[feature] {
                Some(start) => {
                    &&& final(self).timers() == old(self).timers().insert(feature, None)
                    &&& final(self).times() == old(self).times().insert(
                        feature,
                        if old(self).times().dom().contains(feature) {
                            Measured {
                                ticks: (old(self).times()[feature].ticks + (now - start)) as u128,
                                spans: (old(self).times()[feature].spans + 1) as u64,
                            }
                        } else {
                            Measured { ticks: (now - start) as u128, spans: 1 }
                        },
                    )
                },
                None => {
                    &&& final(self).timers() == old(self).timers()
                    &&& final(self).times() == old(self).times()
                },
            },
    {
        let i = feature.index();
        proof {
            assert forall|hook: TimerHook| hook.ordinal() == feature.ordinal() implies hook
                == feature by {}
        }
        match self.timers[i] {
            Some(Some(start)) => {
                let span: u64 = now - start;
                let so_far = match self.times[i] {
                    Some(measured) => measured,
                    None => Measured { ticks: 0, spans: 0 },
                };
                assert(so_far.ticks <= so_far.spans * u64::MAX);
                assert(so_far.ticks + span <= (so_far.spans + 1) * u64::MAX);
                let measured = Measured { ticks: so_far.ticks + span as u128, spans: so_far.spans + 1 };
                self.times[i] = Some(measured);
                self.timers[i] = Some(None);
                proof {
                    assert(self.timers() =~= old(self).timers().insert(feature, None));
                    assert(self.times() =~= old(self).times().insert(feature, measured));
                }
            },
            _ => {
                proof {
                    assert(self.timers() =~= old(self).timers());
                    assert(self.times() =~= old(self).times());
                }
            },
        }
    }

    /// The timer's name.
    pub fn label(&self) -> (name: &str)
        ensures
            name@ == self.name(),
    {
        self.name.as_str()
    }

    /// The state of the hook: `None` if it has never been started, else the
    /// time of its start while it runs and `None` once it has been marked.
    pub fn state(&self, feature: TimerHook) -> (s: Option<Option<u64>>)
        requires
            self.wf(),
        ensures
            s == if self.timers().dom().contains(feature) {
                Some(self.timers()[feature])
            } else {
                None
            },
    {
        self.timers[feature.index()]
    }

    /// What has been measured for the hook, if anything has been.
    pub fn measured(&self, feature: TimerHook) -> (m: Option<Measured>)
        requires
            self.wf(),
        ensures
            m == if self.times().dom().contains(feature) {
                Some(self.times()[feature])
            } else {
                None
            },
    {
        self.times[feature.index()]
    }

    /// The length of the hook's spans on average, in whole ticks, if any
    /// span has been measured.
    pub fn average(&self, feature: TimerHook) -> (a: Option<u128>)
        requires
            self.wf(),
        ensures
            a == if self.times().dom().contains(feature) {
                Some(self.times()[feature].ticks / (self.times()[feature].spans as u128))
            } else {
                None
            },
    {
        match self.times[feature.index()] {
            Some(measured) => Some(measured.ticks / (measured.spans as u128)),
            None => None,
        }
    }
}

} // verus!
