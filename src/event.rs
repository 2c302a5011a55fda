//! The event record, the writer's input and the error kinds of the store.
use vstd::prelude::*;

verus! {

/// One recorded outcome, as stored: the id is assigned by the store.
#[derive(PartialEq, Eq, Debug)]
pub struct Event {
    pub id: i64,
    pub source: String,
    pub code: i32,
    pub output: String,
    pub date: String,
}

impl Clone for Event {
    fn clone(&self) -> (r: Event)
        ensures
            r == *self,
    {
        Event {
            id: self.id,
            source: self.source.clone(),
            code: self.code,
            output: self.output.clone(),
            date: self.date.clone(),
        }
    }
}

/// What a caller hands to the writer: everything but the id.
#[derive(PartialEq, Eq, Debug)]
pub struct NewEvent {
    pub source: String,
    pub code: i32,
    pub output: String,
    pub date: String,
}

impl Clone for NewEvent {
    fn clone(&self) -> (r: NewEvent)
        ensures
            r == *self,
    {
        NewEvent {
            source: self.source.clone(),
            code: self.code,
            output: self.output.clone(),
            date: self.date.clone(),
        }
    }
}

/// The most recent events of one source, most recent first.
#[derive(PartialEq, Eq, Debug)]
pub struct SourceEvents {
    pub source: String,
    pub events: Vec<Event>,
}

/// The kinds of failure of the store's operations.
#[derive(PartialEq, Eq, Debug, Clone, Copy, Structural)]
pub enum StoreError {
    /// The backing medium could not be opened.
    StorageUnavailable,
    /// The event table could not be set up.
    SchemaError,
    /// No event carries the requested id.
    NotFound,
    /// An insert was rejected.
    WriteFailure,
    /// A read or an aggregation failed to execute.
    QueryFailure,
    /// An argument is outside what the operation accepts.
    InvalidArgument,
}

/// The stored form of `input` under the id `id`.
pub open spec fn stored(input: NewEvent, id: i64) -> Event {
    Event { id, source: input.source, code: input.code, output: input.output, date: input.date }
}

impl NewEvent {
    /// The store holds sources that are not empty.
    pub open spec fn acceptable(&self) -> bool {
        self.source@.len() > 0
    }
}

} // verus!
