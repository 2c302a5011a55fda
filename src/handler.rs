//! A handle with the narrower surface of the writer and the two per-source
//! reads, over the same store.
use vstd::prelude::*;

use rusqlite::Connection;

use crate::event::{Event, NewEvent, StoreError};
use crate::query::{ids_ascending, names_view, of_source, sources_of};
use crate::repo::Repo;

verus! {

/// Saves events and reads them back by source.
pub struct EventHandler {
    repo: Repo,
}

impl EventHandler {
    /// Sets up the event table on `conn` and returns the handle.
    pub fn build(conn: Connection) -> (r: Result<EventHandler, StoreError>)
        ensures
            r is Err ==> r->Err_0 == StoreError::SchemaError,
    {
        match Repo::build(conn) {
            Ok(repo) => Ok(EventHandler { repo }),
            Err(e) => Err(e),
        }
    }

    /// Stores one event and returns its id; an empty source is refused.
    pub fn save(&self, event: &NewEvent) -> (r: Result<i64, StoreError>)
        ensures
            !event.acceptable() ==> r == Err::<i64, StoreError>(StoreError::WriteFailure),
            r is Err ==> r->Err_0 == StoreError::WriteFailure,
    {
        self.repo.save(event)
    }

    /// Every event of `source`, in id order.
    pub fn get_all_events_by_source(&self, source: &str) -> (r: Result<Vec<Event>, StoreError>)
        ensures
            r is Err ==> r->Err_0 == StoreError::QueryFailure,
            r is Ok ==> exists|rows: Seq<Event>|
                ids_ascending(rows) && r->Ok_0@ == #[trigger] of_source(rows, source@),
    {
        self.repo.get_all_events_by_source(source)
    }

    /// The distinct sources of the stored events.
    pub fn get_sources(&self) -> (r: Result<Vec<String>, StoreError>)
        ensures
            r is Err ==> r->Err_0 == StoreError::QueryFailure,
            r is Ok ==> exists|rows: Seq<Event>|
                ids_ascending(rows) && names_view(r->Ok_0@) == #[trigger] sources_of(rows),
    {
        self.repo.get_sources()
    }
}

} // verus!
