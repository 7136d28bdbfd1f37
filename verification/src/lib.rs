//! Verified core of a secrets-mirroring daemon.
//!
//! The library covers the logic of the reconciliation engine: the wildcard
//! matcher that resolves configured service-name tokens against the live
//! service inventory, the diff engine that turns a desired secret set and a
//! service's current environment into a minimal mutation plan, the frame
//! parser for the push-event stream, the per-watcher reconnect state machine,
//! and the supervisor's startup gate.  I/O against the secrets provider and
//! the orchestrator lives outside the library and hands it plain values.

pub mod config;
pub mod diff;
pub mod env;
pub mod error;
pub mod machine;
pub mod pattern;
pub mod secrets;
pub mod strutil;
pub mod watch;
