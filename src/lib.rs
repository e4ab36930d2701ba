//! Command serialisation, debounce and device-state bookkeeping for a worker
//! that owns exclusive access to a slow, stateful keyboard controller.
//!
//! The library holds the decisions; the program around it moves values between
//! threads, sleeps and talks to the device.
pub mod boards;
pub mod command;
pub mod matrix;
pub mod registry;
pub mod worker;
