//! The store handle: an SQLite connection holding the event table, and the
//! operations on it. Reads take the table's rows in id order and answer with
//! the verified logic of `query`. The wrappers round rusqlite promise
//! nothing of what comes back: that depends on what the database holds.
use vstd::prelude::*;

use rusqlite::Connection;

use crate::event::{Event, NewEvent, SourceEvents, StoreError};
use crate::query::{
    check_ids_ascending, distinct_sources, events_of_source, find_by_id, groups_view,
    grouped_recent, ids_ascending, lookup, names_view, of_source, recent_by_source, sources_of,
};

verus! {

#[verifier::external_type_specification]
#[verifier::external_body]
pub struct ExConnection(rusqlite::Connection);

#[verifier::external_type_specification]
#[verifier::external_body]
pub struct ExSqlError(rusqlite::Error);

/// A row of the event table: id, source, code, output, date.
pub type Row = (i64, String, i32, String, String);

/// Relies on rusqlite's `Connection::open`: opens or creates the database at
/// `target` (":memory:" gives a private in-memory one).
#[verifier::external_body]
fn open_database(target: &str) -> (r: Result<Connection, rusqlite::Error>) {
    Connection::open(target)
}

/// Relies on rusqlite's `Connection::execute_batch`: runs the table setup.
#[verifier::external_body]
fn run_setup(conn: &Connection, sql: &str) -> (r: Result<(), rusqlite::Error>) {
    conn.execute_batch(sql)
}

/// Relies on rusqlite's `Connection::execute`: one insert, the four fields
/// bound as parameters.
#[verifier::external_body]
fn insert_row(conn: &Connection, sql: &str, input: &NewEvent) -> (r: Result<usize, rusqlite::Error>) {
    conn.execute(sql, (&input.source, &input.code, &input.output, &input.date))
}

/// Relies on rusqlite's `Connection::last_insert_rowid`: the id of the row
/// that the last successful insert on this connection created.
#[verifier::external_body]
fn last_rowid(conn: &Connection) -> (r: i64) {
    conn.last_insert_rowid()
}

/// Relies on rusqlite's `Connection::prepare` and `Statement::query_map`:
/// runs the query and reads the five columns of each row it yields.
#[verifier::external_body]
fn select_rows(conn: &Connection, sql: &str) -> (r: Result<Vec<Row>, rusqlite::Error>) {
    let mut stmt = conn.prepare(sql)?;
    let rows = stmt.query_map((), |row| {
        Ok((row.get(0)?, row.get(1)?, row.get(2)?, row.get(3)?, row.get(4)?))
    })?;
    rows.collect()
}

/// The event of a row of the table.
pub open spec fn row_event(row: Row) -> Event {
    Event { id: row.0, source: row.1, code: row.2, output: row.3, date: row.4 }
}

/// Turns rows of the table into events, one for one.
pub fn events_of_rows(rows: &Vec<Row>) -> (r: Vec<Event>)
    ensures
        r@ == rows@.map_values(|row: Row| row_event(row)),
{
    let mut out: Vec<Event> = Vec::new();
    let mut i: usize = 0;
    while i < rows.len()
        invariant
            i <= rows@.len(),
            out@ == rows@.take(i as int).map_values(|row: Row| row_event(row)),
        decreases rows@.len() - i,
    {
        let row = &rows[i];
        out.push(Event {
            id: row.0,
            source: row.1.clone(),
            code: row.2,
            output: row.3.clone(),
            date: row.4.clone(),
        });
        assert(out@ =~= rows@.take(i as int + 1).map_values(|row: Row| row_event(row)));
        i = i + 1;
    }
    assert(rows@.take(i as int) =~= rows@);
    out
}

/// The events of rows read from the table.
pub open spec fn table_of(raw: Seq<Row>) -> Seq<Event> {
    raw.map_values(|row: Row| row_event(row))
}

/// The events of rows read from the table, when their ids ascend as the
/// query orders them; `QueryFailure` when they do not.
pub fn checked_rows(raw: &Vec<Row>) -> (r: Result<Vec<Event>, StoreError>)
    ensures
        ids_ascending(table_of(raw@)) ==> r is Ok && r->Ok_0@ == table_of(raw@),
        !ids_ascending(table_of(raw@)) ==> r == Err::<Vec<Event>, StoreError>(
            StoreError::QueryFailure,
        ),
{
    let events = events_of_rows(raw);
    if check_ids_ascending(&events) {
        Ok(events)
    } else {
        Err(StoreError::QueryFailure)
    }
}

/// The answer of a point lookup on rows in id order: the event with id `id`,
/// or `NotFound`.
pub fn answer_by_id(rows: &Vec<Event>, id: i64) -> (r: Result<Event, StoreError>)
    requires
        ids_ascending(rows@),
    ensures
        r == id_answer(rows@, id),
{
    match find_by_id(rows, id) {
        Some(e) => Ok(e),
        None => Err(StoreError::NotFound),
    }
}

/// The handle on the event table. All operations go through it, one at a
/// time.
pub struct Repo {
    conn: Connection,
}

/// The answer of a point lookup on the rows `rows`.
pub open spec fn id_answer(rows: Seq<Event>, id: i64) -> Result<Event, StoreError> {
    match lookup(rows, id) {
        Some(e) => Ok(e),
        None => Err(StoreError::NotFound),
    }
}

impl Repo {
    /// Sets up the event table on `conn` (if it is not there yet) and returns
    /// the handle.
    pub fn build(conn: Connection) -> (r: Result<Repo, StoreError>)
        ensures
            r is Err ==> r->Err_0 == StoreError::SchemaError,
    {
        let setup = run_setup(
            &conn,
            "CREATE TABLE IF NOT EXISTS event (
                id INTEGER PRIMARY KEY AUTOINCREMENT,
                source TEXT NOT NULL,
                code INTEGER NOT NULL,
                output TEXT NOT NULL,
                date TEXT NOT NULL
            )",
        );
        match setup {
            Ok(()) => Ok(Repo { conn }),
            Err(_) => Err(StoreError::SchemaError),
        }
    }

    /// Opens or creates the store at `target`, a file path or ":memory:".
    pub fn open(target: &str) -> (r: Result<Repo, StoreError>)
        ensures
            r is Err ==> (r->Err_0 == StoreError::StorageUnavailable || r->Err_0
                == StoreError::SchemaError),
    {
        match open_database(target) {
            Ok(conn) => Repo::build(conn),
            Err(_) => Err(StoreError::StorageUnavailable),
        }
    }

    /// Stores one event and returns the id the store gave it. An input with
    /// an empty source is refused without touching the table.
    pub fn save(&self, input: &NewEvent) -> (r: Result<i64, StoreError>)
        ensures
            !input.acceptable() ==> r == Err::<i64, StoreError>(StoreError::WriteFailure),
            r is Err ==> r->Err_0 == StoreError::WriteFailure,
    {
        if input.source.as_str().is_empty() {
            return Err(StoreError::WriteFailure);
        }
        match insert_row(
            &self.conn,
            "INSERT INTO event (source, code, output, date) VALUES (?1, ?2, ?3, ?4)",
            input,
        ) {
            Ok(_) => Ok(last_rowid(&self.conn)),
            Err(_) => Err(StoreError::WriteFailure),
        }
    }

    /// Stores the inputs in order, one insert each, and returns their ids.
    /// The first failure ends the call: the inputs before it stay stored,
    /// the ones after it are not tried.
    pub fn save_batch(&self, inputs: &Vec<NewEvent>) -> (r: Result<Vec<i64>, StoreError>)
        ensures
            inputs@.len() == 0 ==> r is Ok && r->Ok_0@.len() == 0,
            r is Ok ==> r->Ok_0@.len() == inputs@.len(),
            r is Ok ==> forall|k: int| 0 <= k < inputs@.len() ==> (#[trigger] inputs@[k]).acceptable(),
            (exists|k: int| 0 <= k < inputs@.len() && !(#[trigger] inputs@[k]).acceptable()) ==> r
                == Err::<Vec<i64>, StoreError>(StoreError::WriteFailure),
            r is Err ==> r->Err_0 == StoreError::WriteFailure,
    {
        let mut ids: Vec<i64> = Vec::new();
        let mut i: usize = 0;
        while i < inputs.len()
            invariant
                i <= inputs@.len(),
                ids@.len() == i,
                forall|k: int| 0 <= k < i ==> (#[trigger] inputs@[k]).acceptable(),
            decreases inputs@.len() - i,
        {
            match self.save(&inputs[i]) {
                Ok(id) => ids.push(id),
                Err(e) => return Err(e),
            }
            i = i + 1;
        }
        Ok(ids)
    }

    /// All rows of the table, in id order.
    fn rows(&self) -> (r: Result<Vec<Event>, StoreError>)
        ensures
            r is Ok ==> ids_ascending(r->Ok_0@),
            r is Err ==> r->Err_0 == StoreError::QueryFailure,
    {
        match select_rows(&self.conn, "SELECT id, source, code, output, date FROM event ORDER BY id") {
            Ok(raw) => checked_rows(&raw),
            Err(_) => Err(StoreError::QueryFailure),
        }
    }

    /// The event with id `id`; `NotFound` if the table holds none.
    pub fn get_event_by_id(&self, id: i64) -> (r: Result<Event, StoreError>)
        ensures
            r == Err::<Event, StoreError>(StoreError::QueryFailure) || exists|rows: Seq<Event>|
                ids_ascending(rows) && r == #[trigger] id_answer(rows, id),
    {
        match self.rows() {
            Ok(rows) => answer_by_id(&rows, id),
            Err(e) => Err(e),
        }
    }

    /// Every event of `source`, in id order; empty for an unknown source.
    pub fn get_all_events_by_source(&self, source: &str) -> (r: Result<Vec<Event>, StoreError>)
        ensures
            r is Err ==> r->Err_0 == StoreError::QueryFailure,
            r is Ok ==> exists|rows: Seq<Event>|
                ids_ascending(rows) && r->Ok_0@ == #[trigger] of_source(rows, source@),
    {
        match self.rows() {
            Ok(rows) => Ok(events_of_source(&rows, source)),
            Err(e) => Err(e),
        }
    }

    /// The distinct sources of the stored events, each once.
    pub fn get_sources(&self) -> (r: Result<Vec<String>, StoreError>)
        ensures
            r is Err ==> r->Err_0 == StoreError::QueryFailure,
            r is Ok ==> exists|rows: Seq<Event>|
                ids_ascending(rows) && names_view(r->Ok_0@) == #[trigger] sources_of(rows),
    {
        match self.rows() {
            Ok(rows) => Ok(distinct_sources(&rows)),
            Err(e) => Err(e),
        }
    }

    /// For every source, its `limit` most recent events, most recent first;
    /// a negative limit is refused, and a limit of zero gives no source
    /// without reading the table.
    pub fn get_all_events_grouped_by_source(&self, limit: i32) -> (r: Result<
        Vec<SourceEvents>,
        StoreError,
    >)
        ensures
            limit < 0 <==> r == Err::<Vec<SourceEvents>, StoreError>(StoreError::InvalidArgument),
            limit == 0 ==> r is Ok && r->Ok_0@.len() == 0,
            limit >= 0 && r is Err ==> r->Err_0 == StoreError::QueryFailure,
            r is Ok ==> exists|rows: Seq<Event>|
                ids_ascending(rows) && groups_view(r->Ok_0@) == #[trigger] grouped_recent(
                    rows,
                    limit as nat,
                ),
    {
        if limit < 0 {
            return Err(StoreError::InvalidArgument);
        }
        if limit == 0 {
            let none: Vec<SourceEvents> = Vec::new();
            assert(ids_ascending(Seq::<Event>::empty()));
            assert(groups_view(none@) =~= grouped_recent(Seq::<Event>::empty(), limit as nat));
            return Ok(none);
        }
        match self.rows() {
            Ok(rows) => {
                let out = recent_by_source(&rows, limit as usize);
                assert(groups_view(out@) == grouped_recent(rows@, limit as nat));
                Ok(out)
            },
            Err(e) => Err(e),
        }
    }
}

} // verus!
