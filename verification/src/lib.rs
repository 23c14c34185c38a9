//! A Fibonacci heap: a priority queue that hands out a handle for every
//! value it takes, so that the value can later be lowered in place.
//!
//! ```text
//! let mut heap = FibHeap::new();
//! let ten = heap.insert(10);
//! heap.insert(5);
//! heap.decrease_key(ten, 3);
//! heap.extract_min()   // Some(3)
//! ```
//!
//! - [`heap`] is the heap itself: [`FibHeap`], with consolidation in
//!   [`heap::consolidate`], cuts in [`heap::cut`], and the reasons why the
//!   trees stay broad in [`heap::degrees`] and [`heap::weight`].
//! - [`store`] is the arena that owns the nodes, and [`Handle`].
//! - [`order`] says what the heap needs of the order of the values.
//! - [`laws`] holds what is true of a heap over several calls.
//! - [`timer`] times the phases of the heap's work.
//! - [`schedule`] runs the schedule of the benchmark, on this heap and, by
//!   way of [`reference`], on the heap of the `rudac` crate.
pub mod heap;
pub mod laws;
pub mod order;
pub mod reference;
pub mod schedule;
pub mod store;
pub mod timer;

pub use heap::FibHeap;
pub use heap::HeapError;
pub use store::Handle;
pub use timer::Instrument;
pub use timer::NoInstrument;
pub use timer::Timer;
pub use timer::TimerHook;
