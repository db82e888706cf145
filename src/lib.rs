//! Collection and encoding core of a sampling profiler: frame interning,
//! time-indexed trace stores, and the encoders built on them.
pub mod stack_trace;
pub mod signature;
pub mod interner;
pub mod timestamped_traces;
pub mod tseries;
pub mod recording;
pub mod trace_events;
