//! A connection manager for a real-time audio/MIDI routing graph.
//!
//! The crate mirrors the live graph of clients, ports and connections into a
//! locally queryable snapshot, and enforces a persistent lock policy that can
//! force declared connections to exist and block unwanted ones from being
//! made, surviving graph churn as applications join and leave.

pub mod config;
pub mod daemon;
pub mod graph;
pub mod model;
pub mod reconcile;
pub mod ui;

pub use config::{LockConfig, LockStatus};
pub use model::NameError;
