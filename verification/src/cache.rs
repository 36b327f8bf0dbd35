//! The record store: one table of records, each under its ordinal, kept in a
//! SQLite database that this crate reaches through `rusqlite`.
//!
//! The database itself is outside what is proved here. What is taken on
//! trust about it is written down once, in the contracts of a handful of
//! private functions that each run one statement on the connection;
//! everything else in this module is proved from those contracts.

use vstd::prelude::*;
use crate::error::StoreError;
use crate::ordinal::{
    decimal_digits, is_digit, last_dot, last_segment, lemma_decimal_digits, lemma_last_dot,
    ordinal_before, ordinal_lt, ordinal_order_is_total, segment_value, sibling_of, sibling_text,
    signed_decimal,
};
use crate::text::{begins_with, holds_char, same_text, starts_with};

verus! {

/// Where the store keeps its table.
#[derive(Debug)]
pub enum Strategy {
    /// In memory, for the length of the run.
    Memory,
    /// In the database file of this name. The name is handed to SQLite as it
    /// is, and SQLite has names of its own: under `:memory:` it keeps the
    /// database in memory and under the empty name in a temporary file, each
    /// for the one store that opened it. A name that begins with `file:` is
    /// not taken, see `names_uri`.
    Disk(String),
}

impl Strategy {
    /// Reads a strategy from the text of an option: `:memory:` asks for
    /// memory, every other text is the path of a database file.
    pub fn from_text(text: &str) -> (strategy: Strategy)
        ensures
            match strategy {
                Strategy::Memory => text@ == ":memory:"@,
                Strategy::Disk(path) => text@ != ":memory:"@ && path@ == text@,
            },
    {
        if same_text(text, ":memory:") {
            Strategy::Memory
        } else {
            Strategy::Disk(text.to_owned())
        }
    }
}

impl std::str::FromStr for Strategy {
    type Err = &'static str;

    /// Reads a strategy as `from_text` does. Every text is a strategy, so
    /// the reading never fails.
    fn from_str(s: &str) -> (result: Result<Self, Self::Err>)
        ensures
            match result {
                Ok(Strategy::Memory) => s@ == ":memory:"@,
                Ok(Strategy::Disk(path)) => s@ != ":memory:"@ && path@ == s@,
                Err(_) => false,
            },
    {
        Ok(Strategy::from_text(s))
    }
}

/// One entry of the hierarchy.
#[derive(Debug)]
pub struct Record {
    /// The dotted identifier of the entry; no two stored records share one.
    pub ordinal: String,
    /// The ordinal of the entry one level up; `None` for a section.
    pub parent: Option<String>,
    /// The number of the section that the entry belongs to.
    pub ancestor: u32,
    /// The name of the entry in file names and links.
    pub slug: String,
    /// The name of the entry as readers see it.
    pub title: String,
    /// An advisory rating, handed through to the rendered metadata.
    pub difficulty: Option<u32>,
    /// The body text.
    pub content: String,
}

/// A record as the contracts see it: texts as sequences of characters.
pub struct RecordView {
    pub ordinal: Seq<char>,
    pub parent: Option<Seq<char>>,
    pub ancestor: u32,
    pub slug: Seq<char>,
    pub title: Seq<char>,
    pub difficulty: Option<u32>,
    pub content: Seq<char>,
}

/// The characters of a text that may be absent.
pub open spec fn text_view(text: Option<String>) -> Option<Seq<char>> {
    match text {
        Some(t) => Some(t@),
        None => None,
    }
}

/// The characters of a borrowed text that may be absent.
pub open spec fn str_view(text: Option<&str>) -> Option<Seq<char>> {
    match text {
        Some(t) => Some(t@),
        None => None,
    }
}

impl View for Record {
    type V = RecordView;

    open spec fn view(&self) -> RecordView {
        RecordView {
            ordinal: self.ordinal@,
            parent: text_view(self.parent),
            ancestor: self.ancestor,
            slug: self.slug@,
            title: self.title@,
            difficulty: self.difficulty,
            content: self.content@,
        }
    }
}

impl Clone for Record {
    fn clone(&self) -> (copy: Record)
        ensures
            copy@ == self@,
    {
        Record {
            ordinal: self.ordinal.clone(),
            parent: match &self.parent {
                Some(text) => Some(text.clone()),
                None => None,
            },
            ancestor: self.ancestor,
            slug: self.slug.clone(),
            title: self.title.clone(),
            difficulty: self.difficulty,
            content: self.content.clone(),
        }
    }
}

/// What the store holds: each record under its ordinal.
pub type Entries = Map<Seq<char>, RecordView>;

/// The store that holds nothing.
pub open spec fn no_entries() -> Entries {
    Map::empty()
}

/// Whether SQLite can compare `text`: it holds no NUL character. SQLite
/// leaves the outcome of comparing texts with a NUL inside undefined, so no
/// such text is ever handed to it where it is compared.
pub open spec fn storable(text: Seq<char>) -> bool {
    !text.contains('\0')
}

/// Whether `text`, where there is one, is storable.
pub open spec fn storable_if_any(text: Option<Seq<char>>) -> bool {
    match text {
        Some(t) => storable(t),
        None => true,
    }
}

/// Whether the store can key and find `record`: its ordinal and the ordinal
/// of its parent are storable.
pub open spec fn can_store(record: RecordView) -> bool {
    storable(record.ordinal) && storable_if_any(record.parent)
}

/// `found` is what `entries` holds under `ordinal`: the record that is held
/// there, which carries that ordinal itself, or `None` where none is held.
pub open spec fn is_record_at(
    entries: Entries,
    ordinal: Seq<char>,
    found: Option<Record>,
) -> bool {
    match found {
        Some(record) => {
            &&& entries.contains_key(ordinal)
            &&& entries[ordinal] == record@
            &&& record.ordinal@ == ordinal
        },
        None => !entries.contains_key(ordinal),
    }
}

/// `rows` holds, each once, exactly the records of `entries` whose parent is
/// `parent`.
pub open spec fn holds_children(
    entries: Entries,
    parent: Option<Seq<char>>,
    rows: Seq<Record>,
) -> bool {
    &&& forall|i: int|
        0 <= i < rows.len() ==> {
            &&& entries.contains_key((#[trigger] rows[i]).ordinal@)
            &&& entries[rows[i].ordinal@] == rows[i]@
            &&& rows[i]@.parent == parent
        }
    &&& forall|i: int, j: int|
        0 <= i < j < rows.len() ==> (#[trigger] rows[i]).ordinal@ != (#[trigger] rows[j]).ordinal@
    &&& forall|key: Seq<char>|
        #[trigger] entries.contains_key(key) && entries[key].parent == parent ==> exists|i: int|
            0 <= i < rows.len() && (#[trigger] rows[i]).ordinal@ == key
}

/// The ordinals of `rows` ascend, strictly, in the order of ordinals.
pub open spec fn ascending(rows: Seq<Record>) -> bool {
    forall|i: int, j: int|
        0 <= i < j < rows.len() ==> ordinal_lt(
            (#[trigger] rows[i]).ordinal@,
            (#[trigger] rows[j]).ordinal@,
        )
}

/// `rows` lists the records of `entries` whose parent is `parent`: all of
/// them, each once, in ascending order of their ordinals.
pub open spec fn lists_children(
    entries: Entries,
    parent: Option<Seq<char>>,
    rows: Seq<Record>,
) -> bool {
    holds_children(entries, parent, rows) && ascending(rows)
}

/// The kinds of failure of a call on a connection that this crate tells
/// apart.
#[derive(Debug, Clone, Copy, PartialEq, Eq, Structural)]
pub enum Failure {
    /// A query that should have given a row gave none.
    NoRows,
    /// SQLite refused a statement because it broke a constraint of the table.
    Constraint,
    /// Anything else.
    Other,
}

/// `rusqlite::Connection`, a handle on one SQLite database.
#[verifier::external_type_specification]
#[verifier::external_body]
pub struct ExConnection(rusqlite::Connection);

/// `rusqlite::Error`, what a failed call on a connection hands back.
#[verifier::external_type_specification]
#[verifier::external_body]
pub struct ExSqlError(rusqlite::Error);

/// The rows of the table `entry` in the database behind `conn`, each under
/// its ordinal.
pub uninterp spec fn entries(conn: rusqlite::Connection) -> Map<Seq<char>, RecordView>;

/// Whether the database behind `conn` holds the table `entry` as
/// `reset_table` made it, locked for `conn` alone.
pub uninterp spec fn holds_table(conn: rusqlite::Connection) -> bool;

/// Whether `conn` is in SQLite's exclusive locking mode, in which a
/// connection that has written to its database keeps it locked for itself
/// until it is closed.
pub uninterp spec fn holds_lock(conn: rusqlite::Connection) -> bool;

/// The file name that SQLite was given when `conn` was opened: `None` for a
/// connection that was opened on memory without a name.
pub uninterp spec fn opened_at(conn: rusqlite::Connection) -> Option<Seq<char>>;

/// The kind of failure that `error` reports.
pub uninterp spec fn failure_of(error: rusqlite::Error) -> Failure;

/// A handle on the record store. It is made by `connect`, empty, and from
/// then on holds what `insert_record` has put into it, each record under its
/// ordinal: that map is its view.
pub struct Store {
    conn: rusqlite::Connection,
}

impl Store {
    #[verifier::type_invariant]
    spec fn ready(self) -> bool {
        holds_table(self.conn)
    }

    /// Where the store was asked to keep its table: the name that SQLite was
    /// given for its database, or `None` for a store that was opened on
    /// memory without a name. It is the name as asked for, not the place
    /// that SQLite made of it: a store under the name `:memory:` lives in
    /// memory and one under the empty name in a temporary file.
    pub closed spec fn location(&self) -> Option<Seq<char>> {
        opened_at(self.conn)
    }
}

/// Where `strategy` asks the table to be kept.
pub open spec fn asked_location(strategy: Strategy) -> Option<Seq<char>> {
    match strategy {
        Strategy::Memory => None,
        Strategy::Disk(path) => Some(path@),
    }
}

/// Whether SQLite may read `name` as a URI and not as the name of a file: it
/// begins with `file:`. What such a name opens is for its parameters to say,
/// a database in memory that several connections share or a file without any
/// lock among them, so no store is opened under one.
pub open spec fn names_uri(name: Seq<char>) -> bool {
    begins_with(name, "file:"@)
}

/// Whether `location` is memory or a name that SQLite reads as the name of a
/// file.
pub open spec fn plainly_named(location: Option<Seq<char>>) -> bool {
    match location {
        Some(name) => !names_uri(name),
        None => true,
    }
}

impl View for Store {
    type V = Map<Seq<char>, RecordView>;

    closed spec fn view(&self) -> Map<Seq<char>, RecordView> {
        entries(self.conn)
    }
}

const LOCK_DATABASE: &'static str = "PRAGMA locking_mode = EXCLUSIVE;";

const RESET_TABLE: &'static str = "
DROP TABLE IF EXISTS entry;
CREATE TABLE entry (
  ordinal text NOT NULL PRIMARY KEY,
  parent  text,
  ancestor  NUMBER NOT NULL,
  slug    text NOT NULL,
  title   text NOT NULL,
  difficulty NUMBER,
  content text NOT NULL
);
";

const INSERT_ROW: &'static str = "
INSERT INTO entry
(ordinal, parent, ancestor, slug, title, difficulty, content)
VALUES (?1, ?2, ?3, ?4, ?5, ?6, ?7);
";

const SELECT_BY_ORDINAL: &'static str = "
SELECT ordinal, parent, ancestor, slug, title, difficulty, content
FROM entry
WHERE ordinal = ?1;
";

const SELECT_BY_PARENT: &'static str = "
SELECT ordinal, parent, ancestor, slug, title, difficulty, content
FROM entry
WHERE parent IS ?1
ORDER BY ordinal;
";

/// `rusqlite::Connection::open_in_memory`: a connection to a new database
/// that lives in memory. Claimed: it was opened without a file name.
#[verifier::external_body]
fn open_in_memory() -> (opened: Result<rusqlite::Connection, rusqlite::Error>)
    ensures
        opened matches Ok(conn) ==> opened_at(conn) is None,
{
    rusqlite::Connection::open_in_memory()
}

/// `rusqlite::Connection::open_with_flags`: a connection to the database
/// file at `path`, which SQLite creates where there is none. The flags are
/// those of `rusqlite::Connection::open` but for the one that lets a path be
/// a URI. That flag alone does not keep SQLite from reading a URI: where it
/// was built to, it reads every name that begins with `file:` as one. So
/// such a name is not admitted here, and every other name SQLite reads as
/// the name of a file. Claimed: `path` is the file name that SQLite was
/// given.
#[verifier::external_body]
fn open_file(path: &str) -> (opened: Result<rusqlite::Connection, rusqlite::Error>)
    requires
        !names_uri(path@),
    ensures
        opened matches Ok(conn) ==> opened_at(conn) == Some(path@),
{
    let flags = rusqlite::OpenFlags::SQLITE_OPEN_READ_WRITE
        | rusqlite::OpenFlags::SQLITE_OPEN_CREATE
        | rusqlite::OpenFlags::SQLITE_OPEN_NO_MUTEX;
    rusqlite::Connection::open_with_flags(path, flags)
}

/// `rusqlite::Connection::query_row` on `LOCK_DATABASE`, the statement that
/// asks SQLite for its exclusive locking mode, with the one column of the
/// answer read as text. Claimed: the answer is the locking mode that the
/// connection is in from then on, so that the answer `exclusive` means that
/// it is in the exclusive one; and the connection stays on its database.
#[verifier::external_body]
fn lock_database(conn: &mut rusqlite::Connection) -> (mode: Result<String, rusqlite::Error>)
    ensures
        opened_at(*final(conn)) == opened_at(*old(conn)),
        mode matches Ok(text) ==> (text@ == "exclusive"@ ==> holds_lock(*final(conn))),
{
    conn.query_row(LOCK_DATABASE, (), |row| row.get(0))
}

/// `rusqlite::Connection::execute_batch` on `RESET_TABLE`: the statements
/// that drop any table `entry` and create it anew. Claimed, of a connection
/// in exclusive locking mode that was opened on memory or under a name that
/// SQLite reads as the name of a file: where the batch succeeds the table is
/// there, is empty, and is this connection's alone to write, since the
/// connection has written and so keeps its lock; and the connection stays on
/// its database.
#[verifier::external_body]
fn reset_table(conn: &mut rusqlite::Connection) -> (done: Result<(), rusqlite::Error>)
    requires
        holds_lock(*old(conn)),
        plainly_named(opened_at(*old(conn))),
    ensures
        opened_at(*final(conn)) == opened_at(*old(conn)),
        done is Ok ==> holds_table(*final(conn)) && entries(*final(conn)) == no_entries(),
{
    conn.execute_batch(RESET_TABLE)
}

/// `rusqlite::Connection::execute` on `INSERT_ROW`, with the seven fields of
/// `record` as its parameters. Claimed, of a table made by `reset_table`:
/// the statement adds the row or changes nothing; it adds it only where no
/// row had that ordinal, the table's primary key; a failure that SQLite
/// reports as a broken constraint is that of the primary key, the only
/// constraint that values which are never NULL can break; and `execute`
/// never reports that a query gave no rows; and the connection stays on its
/// database. The store is taken whole, for the table that each `Store` is
/// known to hold.
#[verifier::external_body]
fn insert_row(store: &mut Store, record: &Record) -> (done: Result<usize, rusqlite::Error>)
    requires
        can_store(record@),
    ensures
        holds_table(final(store).conn),
        opened_at(final(store).conn) == opened_at(old(store).conn),
        done is Ok ==> !entries(old(store).conn).contains_key(record.ordinal@),
        done is Ok ==> entries(final(store).conn) == entries(old(store).conn).insert(
            record.ordinal@,
            record@,
        ),
        done is Err ==> entries(final(store).conn) == entries(old(store).conn),
        done matches Err(error) ==> failure_of(error) != Failure::NoRows,
        done matches Err(error) ==> (failure_of(error) == Failure::Constraint ==> entries(
            old(store).conn,
        ).contains_key(record.ordinal@)),
{
    store.conn.execute(
        INSERT_ROW,
        (
            &record.ordinal,
            &record.parent,
            record.ancestor,
            &record.slug,
            &record.title,
            record.difficulty,
            &record.content,
        ),
    )
}

/// `rusqlite::Connection::query_row` on `SELECT_BY_ORDINAL`, each column of
/// the row read into the field of its name. Claimed, of a table made by
/// `reset_table`: a row that comes back is the one stored under `ordinal`,
/// with `ordinal` in its own ordinal column, and the failure "no rows" means
/// that none is stored under it.
#[verifier::external_body]
fn row_by_ordinal(conn: &rusqlite::Connection, ordinal: &str) -> (row: Result<
    Record,
    rusqlite::Error,
>)
    requires
        holds_table(*conn),
        storable(ordinal@),
    ensures
        row matches Ok(record) ==> is_record_at(entries(*conn), ordinal@, Some(record)),
        row matches Err(error) ==> (failure_of(error) == Failure::NoRows ==> !entries(
            *conn,
        ).contains_key(ordinal@)),
{
    conn.query_row(SELECT_BY_ORDINAL, (ordinal,), |row| {
        let (ordinal, parent, ancestor) = (row.get(0)?, row.get(1)?, row.get(2)?);
        let (slug, title, difficulty) = (row.get(3)?, row.get(4)?, row.get(5)?);
        Ok(Record { ordinal, parent, ancestor, slug, title, difficulty, content: row.get(6)? })
    })
}

/// `rusqlite::Connection::prepare` on `SELECT_BY_PARENT`, then
/// `Statement::query_map` with `parent` as the parameter (NULL for `None`),
/// each column of a row read into the field of its name, and the rows
/// collected. Claimed, of a table made by `reset_table`: where every step
/// succeeds, the rows are exactly the stored records with that parent, each
/// once. Nothing is claimed of their order.
#[verifier::external_body]
fn rows_by_parent(conn: &rusqlite::Connection, parent: Option<&str>) -> (rows: Result<
    Vec<Record>,
    rusqlite::Error,
>)
    requires
        holds_table(*conn),
        storable_if_any(str_view(parent)),
    ensures
        rows matches Ok(list) ==> holds_children(entries(*conn), str_view(parent), list@),
{
    let mut statement = conn.prepare(SELECT_BY_PARENT)?;
    let rows = statement.query_map((parent,), |row| {
        let (ordinal, parent, ancestor) = (row.get(0)?, row.get(1)?, row.get(2)?);
        let (slug, title, difficulty) = (row.get(3)?, row.get(4)?, row.get(5)?);
        Ok(Record { ordinal, parent, ancestor, slug, title, difficulty, content: row.get(6)? })
    })?;
    rows.collect()
}

/// Tells the variants of `rusqlite::Error` apart: `QueryReturnedNoRows`,
/// a failure of SQLite whose code is `ConstraintViolation`, and the rest.
#[verifier::external_body]
fn failure_kind(error: &rusqlite::Error) -> (kind: Failure)
    ensures
        kind == failure_of(*error),
{
    match error {
        rusqlite::Error::QueryReturnedNoRows => Failure::NoRows,
        rusqlite::Error::SqliteFailure(cause, _) if cause.code
            == rusqlite::ErrorCode::ConstraintViolation => Failure::Constraint,
        _ => Failure::Other,
    }
}

/// The error of this crate that stands for a failure of the database.
fn store_error(error: &rusqlite::Error) -> (mapped: StoreError)
    ensures
        match failure_of(*error) {
            Failure::NoRows => mapped is NotFound,
            Failure::Constraint => mapped is DuplicateOrdinal,
            Failure::Other => mapped is StoreCorruption,
        },
{
    match failure_kind(error) {
        Failure::NoRows => StoreError::NotFound,
        Failure::Constraint => StoreError::DuplicateOrdinal,
        Failure::Other => StoreError::StoreCorruption(error.to_string()),
    }
}

/// Opens the store where `strategy` asks for it, takes the database for
/// this store alone, and makes its table anew, so that the store starts
/// empty. Whatever fails on the way is reported as `StoreCorruption`, and so
/// is a database that does not answer that it is locked for this store.
///
/// A name that begins with `file:` is refused with `StoreCorruption` before
/// anything is opened: SQLite may read it as a URI, and a database opened
/// under one need not be this store's alone.
pub fn connect(strategy: &Strategy) -> (result: Result<Store, StoreError>)
    ensures
        !plainly_named(asked_location(*strategy)) ==> result is Err,
        match result {
            Ok(store) => {
                &&& store@ == no_entries()
                &&& store.location() == asked_location(*strategy)
                &&& plainly_named(store.location())
            },
            Err(error) => error is StoreCorruption,
        },
{
    let opened = match strategy {
        Strategy::Memory => open_in_memory(),
        Strategy::Disk(path) => {
            if starts_with(path.as_str(), "file:") {
                let mut text = "the name of a database file may not begin with file: ".to_owned();
                text.append(path.as_str());
                return Err(StoreError::StoreCorruption(text));
            }
            open_file(path.as_str())
        },
    };
    let mut conn = match opened {
        Ok(conn) => conn,
        Err(error) => {
            return Err(StoreError::StoreCorruption(error.to_string()));
        },
    };
    match lock_database(&mut conn) {
        Ok(mode) => {
            if !same_text(mode.as_str(), "exclusive") {
                let mut text = "the locking mode of the database is ".to_owned();
                text.append(mode.as_str());
                return Err(StoreError::StoreCorruption(text));
            }
        },
        Err(error) => {
            return Err(StoreError::StoreCorruption(error.to_string()));
        },
    }
    match reset_table(&mut conn) {
        Ok(_) => Ok(Store { conn }),
        Err(error) => Err(StoreError::StoreCorruption(error.to_string())),
    }
}

/// Whether the store can key and find `record`.
fn check_record(record: &Record) -> (fine: bool)
    ensures
        fine == can_store(record@),
{
    if holds_char(record.ordinal.as_str(), '\0') {
        return false;
    }
    match &record.parent {
        Some(parent) => !holds_char(parent.as_str(), '\0'),
        None => true,
    }
}

/// Adds `record` to the store. A record whose ordinal is already stored is
/// refused, never replaced, and whatever fails, the store is left as it was:
/// it holds the same records, and as many of them.
///
/// - `InvalidOrdinal`: the ordinal of the record, or that of its parent,
///   holds a NUL character. Nothing is asked of the store then.
/// - `DuplicateOrdinal`: only where a record is stored under that ordinal.
/// - `StoreCorruption`: the database failed otherwise.
///
/// Where a record is stored under the ordinal, the call fails; which of the
/// last two errors it gives is for the database to say.
pub fn insert_record(store: &mut Store, record: &Record) -> (result: Result<(), StoreError>)
    ensures
        !can_store(record@) ==> result matches Err(StoreError::InvalidOrdinal),
        old(store)@.contains_key(record.ordinal@) ==> result is Err,
        final(store).location() == old(store).location(),
        result is Err ==> final(store)@.dom().len() == old(store)@.dom().len(),
        match result {
            Ok(_) => {
                &&& can_store(record@)
                &&& !old(store)@.contains_key(record.ordinal@)
                &&& final(store)@ == old(store)@.insert(record.ordinal@, record@)
            },
            Err(error) => {
                &&& final(store)@ == old(store)@
                &&& match error {
                    StoreError::InvalidOrdinal => !can_store(record@),
                    StoreError::DuplicateOrdinal => old(store)@.contains_key(record.ordinal@),
                    StoreError::NotFound => false,
                    StoreError::StoreCorruption(_) => can_store(record@),
                }
            },
        },
{
    if !check_record(record) {
        return Err(StoreError::InvalidOrdinal);
    }
    match insert_row(store, record) {
        Ok(_) => Ok(()),
        Err(error) => Err(store_error(&error)),
    }
}

/// Fetches the record stored under `ordinal`.
///
/// - `InvalidOrdinal`: exactly where `ordinal` holds a NUL character.
/// - `NotFound`: only where no record is stored under `ordinal`.
/// - `StoreCorruption`: the database failed otherwise.
pub fn find_record(store: &Store, ordinal: &str) -> (result: Result<Record, StoreError>)
    ensures
        match result {
            Ok(record) => storable(ordinal@) && is_record_at(store@, ordinal@, Some(record)),
            Err(error) => match error {
                StoreError::InvalidOrdinal => !storable(ordinal@),
                StoreError::NotFound => storable(ordinal@) && !store@.contains_key(ordinal@),
                StoreError::StoreCorruption(_) => storable(ordinal@),
                StoreError::DuplicateOrdinal => false,
            },
        },
{
    proof {
        use_type_invariant(store);
    }
    if holds_char(ordinal, '\0') {
        return Err(StoreError::InvalidOrdinal);
    }
    match row_by_ordinal(&store.conn, ordinal) {
        Ok(record) => Ok(record),
        Err(error) => match store_error(&error) {
            StoreError::DuplicateOrdinal => Err(StoreError::StoreCorruption(error.to_string())),
            mapped => Err(mapped),
        },
    }
}

/// Looks up the record stored under `ordinal`. That none is stored is no
/// failure: the answer is then `None`.
///
/// - `InvalidOrdinal`: exactly where `ordinal` holds a NUL character.
/// - `StoreCorruption`: the database failed.
pub fn select_record(store: &Store, ordinal: &str) -> (result: Result<Option<Record>, StoreError>)
    ensures
        match result {
            Ok(found) => storable(ordinal@) && is_record_at(store@, ordinal@, found),
            Err(error) => match error {
                StoreError::InvalidOrdinal => !storable(ordinal@),
                StoreError::StoreCorruption(_) => storable(ordinal@),
                _ => false,
            },
        },
{
    match find_record(store, ordinal) {
        Ok(record) => Ok(Some(record)),
        Err(StoreError::NotFound) => Ok(None),
        Err(error) => Err(error),
    }
}

/// Puts records with different ordinals into ascending order.
fn sort_by_ordinal(rows: Vec<Record>) -> (sorted: Vec<Record>)
    requires
        forall|i: int, j: int|
            0 <= i < j < rows.len() ==> (#[trigger] rows[i]).ordinal@ != (
            #[trigger] rows[j]).ordinal@,
    ensures
        sorted.len() == rows.len(),
        ascending(sorted@),
        forall|i: int| 0 <= i < sorted.len() ==> rows@.contains(#[trigger] sorted@[i]),
        forall|j: int| 0 <= j < rows.len() ==> sorted@.contains(#[trigger] rows@[j]),
{
    let ghost all = rows@;
    let mut rest = rows;
    let mut sorted: Vec<Record> = Vec::new();
    while rest.len() > 0
        invariant
            rest.len() + sorted.len() == all.len(),
            rest@ == all.take(rest.len() as int),
            ascending(sorted@),
            forall|i: int, j: int|
                0 <= i < j < all.len() ==> (#[trigger] all[i]).ordinal@ != (
                #[trigger] all[j]).ordinal@,
            forall|i: int|
                0 <= i < sorted.len() ==> exists|j: int|
                    rest.len() <= j < all.len() && #[trigger] all[j] == #[trigger] sorted@[i],
            forall|j: int| rest.len() <= j < all.len() ==> sorted@.contains(#[trigger] all[j]),
        decreases rest.len(),
    {
        let ghost before = sorted@;
        let ghost left = rest.len() - 1;
        let record = rest.pop().unwrap();
        assert(record == all[left]);
        assert(rest@ =~= all.take(left));
        let mut at: usize = 0;
        while at < sorted.len() && ordinal_before(
            sorted[at].ordinal.as_str(),
            record.ordinal.as_str(),
        )
            invariant
                at <= sorted.len(),
                sorted@ == before,
                forall|i: int|
                    0 <= i < at ==> ordinal_lt((#[trigger] sorted@[i]).ordinal@, record.ordinal@),
            decreases sorted.len() - at,
        {
            at += 1;
        }
        proof {
            assert forall|i: int| at <= i < before.len() implies ordinal_lt(
                record.ordinal@,
                (#[trigger] before[i]).ordinal@,
            ) by {
                let j = choose|j: int| left < j < all.len() && all[j] == before[at as int];
                assert(all[left].ordinal@ != all[j].ordinal@);
                ordinal_order_is_total(
                    record.ordinal@,
                    before[at as int].ordinal@,
                    before[i].ordinal@,
                );
            }
        }
        sorted.insert(at, record);
        proof {
            let after = sorted@;
            assert forall|i: int, j: int| 0 <= i < j < after.len() implies ordinal_lt(
                (#[trigger] after[i]).ordinal@,
                (#[trigger] after[j]).ordinal@,
            ) by {
                if j < at {
                    assert(after[i] == before[i] && after[j] == before[j]);
                } else if j == at {
                    assert(after[i] == before[i]);
                } else if i < at {
                    assert(after[i] == before[i] && after[j] == before[j - 1]);
                } else if i == at {
                    assert(after[j] == before[j - 1]);
                } else {
                    assert(after[i] == before[i - 1] && after[j] == before[j - 1]);
                }
            }
            assert forall|i: int| 0 <= i < after.len() implies exists|j: int|
                left <= j < all.len() && #[trigger] all[j] == #[trigger] after[i] by {
                if i < at {
                    assert(after[i] == before[i]);
                    let j = choose|j: int| left < j < all.len() && all[j] == before[i];
                    assert(all[j] == after[i]);
                } else if i == at {
                    assert(all[left] == after[i]);
                } else {
                    assert(after[i] == before[i - 1]);
                    let j = choose|j: int| left < j < all.len() && all[j] == before[i - 1];
                    assert(all[j] == after[i]);
                }
            }
            assert forall|j: int| left <= j < all.len() implies after.contains(
                #[trigger] all[j],
            ) by {
                if j == left {
                    assert(after[at as int] == all[j]);
                } else {
                    let i = choose|i: int| 0 <= i < before.len() && before[i] == all[j];
                    if i < at {
                        assert(after[i] == all[j]);
                    } else {
                        assert(after[i + 1] == all[j]);
                    }
                }
            }
        }
    }
    proof {
        assert forall|i: int| 0 <= i < sorted.len() implies all.contains(#[trigger] sorted@[i]) by {
            let j = choose|j: int| 0 <= j < all.len() && all[j] == sorted@[i];
            assert(all[j] == sorted@[i]);
        }
    }
    sorted
}

/// Lists the stored records whose parent is `parent`; with `None`, those
/// without a parent. The list holds every such record, each once, in
/// ascending order of ordinals, which is numeric segment by segment. That
/// there is none is no failure: the list is then empty.
///
/// - `InvalidOrdinal`: exactly where `parent` holds a NUL character.
/// - `StoreCorruption`: the database failed.
pub fn select_records(store: &Store, parent: Option<&str>) -> (result: Result<
    Vec<Record>,
    StoreError,
>)
    ensures
        match result {
            Ok(rows) => storable_if_any(str_view(parent)) && lists_children(
                store@,
                str_view(parent),
                rows@,
            ),
            Err(error) => match error {
                StoreError::InvalidOrdinal => !storable_if_any(str_view(parent)),
                StoreError::StoreCorruption(_) => storable_if_any(str_view(parent)),
                _ => false,
            },
        },
{
    proof {
        use_type_invariant(store);
    }
    let fine = match parent {
        Some(text) => !holds_char(text, '\0'),
        None => true,
    };
    if !fine {
        return Err(StoreError::InvalidOrdinal);
    }
    match rows_by_parent(&store.conn, parent) {
        Err(error) => Err(StoreError::StoreCorruption(error.to_string())),
        Ok(rows) => {
            let sorted = sort_by_ordinal(rows);
            proof {
                let wanted = str_view(parent);
                assert forall|i: int| 0 <= i < sorted.len() implies {
                    &&& store@.contains_key((#[trigger] sorted@[i]).ordinal@)
                    &&& store@[sorted@[i].ordinal@] == sorted@[i]@
                    &&& sorted@[i]@.parent == wanted
                } by {
                    let j = choose|j: int| 0 <= j < rows.len() && rows@[j] == sorted@[i];
                    assert(rows@[j] == sorted@[i]);
                }
                assert forall|i: int, j: int| 0 <= i < j < sorted.len() implies (
                #[trigger] sorted@[i]).ordinal@ != (#[trigger] sorted@[j]).ordinal@ by {
                    ordinal_order_is_total(
                        sorted@[i].ordinal@,
                        sorted@[j].ordinal@,
                        sorted@[j].ordinal@,
                    );
                }
                assert forall|key: Seq<char>| #[trigger]
                    store@.contains_key(key) && store@[key].parent == wanted implies exists|
                    i: int,
                | 0 <= i < sorted.len() && (#[trigger] sorted@[i]).ordinal@ == key by {
                    let j = choose|j: int|
                        0 <= j < rows.len() && (#[trigger] rows@[j]).ordinal@ == key;
                    assert(sorted@.contains(rows@[j]));
                    let i = choose|i: int| 0 <= i < sorted.len() && sorted@[i] == rows@[j];
                    assert(sorted@[i].ordinal@ == key);
                }
            }
            Ok(sorted)
        },
    }
}

/// Lists the children of the record with the ordinal `ordinal`: the stored
/// records whose parent is `ordinal`, all of them, each once, in ascending
/// order of ordinals. A record without children has the empty list.
///
/// - `InvalidOrdinal`: exactly where `ordinal` holds a NUL character.
/// - `StoreCorruption`: the database failed.
pub fn select_children(store: &Store, ordinal: &str) -> (result: Result<Vec<Record>, StoreError>)
    ensures
        match result {
            Ok(rows) => storable(ordinal@) && lists_children(store@, Some(ordinal@), rows@),
            Err(error) => match error {
                StoreError::InvalidOrdinal => !storable(ordinal@),
                StoreError::StoreCorruption(_) => storable(ordinal@),
                _ => false,
            },
        },
{
    select_records(store, Some(ordinal))
}

/// Lists the sections: the stored records without a parent, all of them,
/// each once, in ascending order of ordinals. Fails with `StoreCorruption`
/// where the database does.
pub fn select_sections(store: &Store) -> (result: Result<Vec<Record>, StoreError>)
    ensures
        match result {
            Ok(rows) => lists_children(store@, None, rows@),
            Err(error) => error is StoreCorruption,
        },
{
    select_records(store, None)
}

/// What `decimal_digits` and `signed_decimal` write holds no NUL character.
proof fn lemma_signed_decimal_storable(i: int)
    ensures
        storable(signed_decimal(i)),
{
    let text = signed_decimal(i);
    if text.contains('\0') {
        let j = choose|j: int| 0 <= j < text.len() && text[j] == '\0';
        if i < 0 {
            lemma_decimal_digits((-i) as nat);
            if j > 0 {
                assert(is_digit(decimal_digits((-i) as nat)[j - 1]));
            }
        } else {
            lemma_decimal_digits(i as nat);
            assert(is_digit(decimal_digits(i as nat)[j]));
        }
    }
}

/// The siblings of a storable ordinal are storable.
proof fn lemma_sibling_storable(ordinal: Seq<char>, delta: int)
    requires
        storable(ordinal),
        sibling_text(ordinal, delta) is Some,
    ensures
        storable(sibling_text(ordinal, delta)->0),
{
    let text = sibling_text(ordinal, delta)->0;
    let front = ordinal.take(last_dot(ordinal) + 1);
    let moved = segment_value(last_segment(ordinal))->0 + delta;
    lemma_last_dot(ordinal);
    if text.contains('\0') {
        let j = choose|j: int| 0 <= j < text.len() && text[j] == '\0';
        if j < front.len() {
            assert(ordinal[j] == '\0');
        } else {
            lemma_signed_decimal_storable(moved);
            assert(text.skip(front.len() as int) =~= signed_decimal(moved));
            assert(signed_decimal(moved)[j - front.len()] == '\0');
        }
    }
}

/// Looks up the records beside `ordinal`: the one stored under
/// `sibling_of(ordinal, -1)` and the one stored under `sibling_of(ordinal, 1)`.
/// Either is `None` where no record is stored under that ordinal; whether a
/// sibling exists is for the store alone to say.
///
/// - `InvalidOrdinal`: exactly where the last segment of `ordinal` denotes no
///   number, or `ordinal` holds a NUL character.
/// - `StoreCorruption`: the database failed.
pub fn select_siblings(store: &Store, ordinal: &str) -> (result: Result<
    (Option<Record>, Option<Record>),
    StoreError,
>)
    ensures
        match result {
            Ok((previous, next)) => {
                &&& storable(ordinal@)
                &&& sibling_text(ordinal@, -1) matches Some(before)
                &&& sibling_text(ordinal@, 1) matches Some(after)
                &&& is_record_at(store@, before, previous)
                &&& is_record_at(store@, after, next)
            },
            Err(error) => match error {
                StoreError::InvalidOrdinal => !storable(ordinal@) || sibling_text(ordinal@, 1)
                    is None,
                StoreError::StoreCorruption(_) => storable(ordinal@) && sibling_text(ordinal@, 1)
                    is Some,
                _ => false,
            },
        },
{
    if holds_char(ordinal, '\0') {
        return Err(StoreError::InvalidOrdinal);
    }
    let before = match sibling_of(ordinal, -1) {
        Ok(text) => text,
        Err(_) => {
            return Err(StoreError::InvalidOrdinal);
        },
    };
    let after = match sibling_of(ordinal, 1) {
        Ok(text) => text,
        Err(_) => {
            return Err(StoreError::InvalidOrdinal);
        },
    };
    proof {
        lemma_sibling_storable(ordinal@, -1);
        lemma_sibling_storable(ordinal@, 1);
    }
    let previous = match select_record(store, before.as_str()) {
        Ok(found) => found,
        Err(error) => {
            return Err(error);
        },
    };
    let next = match select_record(store, after.as_str()) {
        Ok(found) => found,
        Err(error) => {
            return Err(error);
        },
    };
    Ok((previous, next))
}

} // verus!
