//! A small cooperative task runtime driven by OS readiness notification.
//!
//! The library holds the decision logic of the runtime: the executor's task
//! table and ready-id queue, the reactor's table of wake handles, the
//! suspended-computation contract with a two-stage composite state machine,
//! the response reader of the HTTP-GET leaf operation, and the bookkeeping of
//! the readiness multiplexer.
pub mod executor;
pub mod future;
pub mod http;
pub mod poll;
pub mod reactor;
