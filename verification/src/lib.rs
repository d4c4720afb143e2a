//! A multiplexed task-replacement scheduler.
//!
//! The library models the "first-completed-wins, cancel-the-rest,
//! restart-on-trigger" control pattern as explicit state machines:
//! a [`task::CancellableTask`] is a unit of cancellable work, a
//! [`slot::TaskSlot`] holds at most one in-flight task with a
//! fuse-terminated guard, a [`pool::TaskPool`] holds many in-flight
//! tasks and yields their results fairly, a [`trigger::Triggerable`]
//! produces discrete tick events, and a [`selector::Selector`] polls
//! all registered sources each activation and dispatches whichever
//! becomes ready first.
//!
//! Cooperative suspension is represented as a return value ("would
//! block") rather than coroutine control flow, so any caller can drive
//! the loop with an ordinary event loop.

pub mod task;

pub mod trigger;

pub mod slot;

pub mod pool;

pub mod selector;

pub mod replacement;
