//! Multiplexes many filtered file-change subscriptions onto as few recursive
//! directory watches as serve them all.
//!
//! The crate holds the decisions of such a service and proves them against
//! mathematical models: which watches to install and tear down, how a raw
//! batch of backend events becomes canonical events, which subscription
//! hears of which event, and what is written to the output stream. Reading
//! requests, talking to the watch backend and writing the output are left to
//! the caller.
//!
//! - [`path`]: paths as sequences of names.
//! - [`pattern`]: glob patterns, compiled and matched by the `glob` crate.
//! - [`event`], [`normalize`]: raw and canonical events.
//! - [`config`]: one subscription and its filter.
//! - [`registry`]: the active subscriptions in order of their ids.
//! - [`roots`]: the watched roots, their reference counts and their watches.
//! - [`dispatch`], [`output`]: from a batch to the lines of the output.
//! - [`service`]: registry and roots kept in step, and the two requests.
//! - [`laws`]: what holds of all of it.

pub mod config;
pub mod dispatch;
pub mod event;
pub mod laws;
pub mod normalize;
pub mod output;
pub mod path;
pub mod pattern;
pub mod registry;
pub mod roots;
pub mod service;
