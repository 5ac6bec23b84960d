//! An in-process messaging fabric for sandboxed plugins: a matchmaker that pairs
//! listeners with connectors by address, a loopback byte stream handed to both
//! sides of a match, the per-instance socket manager that fronts the guests'
//! socket calls, the guest's waker table, the scalar encoding of poll results
//! that crosses the guest/host boundary, length-delimited frames, and a small
//! entity-component store for plugins.

pub mod chan;
pub mod ecs;
pub mod frame;
pub mod guest;
pub mod loopback;
pub mod matchmaker;
pub mod maybe;
pub mod reactor;
pub mod socket;
pub mod table;
