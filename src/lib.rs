//! A delayed-response HTTP server core: request interpretation, response
//! framing, and the per-connection state machine driven by a readiness loop.

pub mod clock;
pub mod request;
pub mod response;
pub mod registry;
pub mod timers;
