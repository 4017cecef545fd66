//! Notir: a notification hub core.
//!
//! Long-lived WebSocket subscribers register under a caller-chosen
//! identifier; publishers push payloads addressed to that identifier and the
//! hub delivers them to the matching live subscriptions.  Two delivery modes
//! coexist: single (unicast, optionally with a synchronous reply) and
//! broadcast (fan-out to every subscriber of the identifier).
//!
//! This crate holds the hub's state and decision logic: the subscription
//! registries, the outbound queues, the reply-slot FIFOs, body encoding and
//! mode parsing.  The surrounding server (socket handling, HTTP parsing,
//! timers) drives these functions and performs the I/O they decide on.

pub mod broadcast;
pub mod message;
pub mod queue;
pub mod single;
