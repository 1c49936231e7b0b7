//! Core of a browser-automation driver speaking the Chromium DevTools
//! protocol: a single-owner event loop that multiplexes client requests onto
//! one connection, correlates responses by call-id, routes events to
//! per-target state machines, and joins the two signals of a page navigation
//! into one reply.
//!
//! The core is a state machine over plain values. Reply channels are opaque
//! `u64` handles; instead of performing I/O the core emits [`handler::Effect`]
//! values that the surrounding runtime carries out.

pub mod conn;
pub mod error;
pub mod handler;
pub mod httpfuture;
pub mod json;
pub mod navigation;
pub mod pending;
pub mod target;
pub mod wire;
