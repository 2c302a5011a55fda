//! A small store of execution outcomes ("events") kept in an SQLite table,
//! with verified query logic: point lookup, per-source history, the source
//! catalog and the most recent events of every source.
use vstd::prelude::*;

pub mod event;
pub mod handler;
pub mod laws;
pub mod order;
pub mod query;
pub mod repo;

pub use event::{Event, NewEvent, SourceEvents, StoreError};
pub use handler::EventHandler;
pub use repo::Repo;
