//! The relational store: one table `entities(id TEXT PRIMARY KEY UNIQUE,
//! content TEXT NOT NULL)` in an embedded database file, reached through
//! the `sqlite` crate.  Each operation opens its own connection, as the
//! store's resource model prescribes.  The calls into the engine stand
//! behind small trusted wrappers; everything around them — identifier
//! rendering, canonical serialization, row decoding — is verified.
use vstd::prelude::*;

use crate::doc_db::DbConfig;
use crate::errors::DocDbError;
use crate::errors::DocDbResult;
use crate::ident::ulid_str;
use crate::ident::Ulid;
use crate::json::from_json;
use crate::json::json_of;
use crate::json::to_json;
use crate::model::DocDbEntry;
use crate::value::wf;
use crate::value::SpecValue;
use crate::value::Value;

verus! {

/// Whether a stored row decodes: its identifier column is the canonical
/// rendering of some identifier, and its content column the canonical
/// JSON of some well-formed value.  Every row this library writes is of
/// this form.
pub open spec fn row_decodable(id_text: Seq<char>, content: Seq<char>) -> bool {
    (exists|b: u128| ulid_str(b) == id_text) && (exists|v: SpecValue|
        wf(v) && json_of(v) == content)
}


#[verifier::external_type_specification]
#[verifier::external_body]
pub struct ExSqliteError(sqlite::Error);

/// Relies on the Display rendering of sqlite::Error: the engine's own
/// description of what failed.
#[verifier::external_body]
fn sql_error_message(e: &sqlite::Error) -> String {
    e.to_string()
}

/// The library's error for a failed engine call.
fn sql_fail(e: sqlite::Error) -> (r: DocDbError)
    ensures
        r is SqlStorageError,
{
    let message = sql_error_message(&e);
    DocDbError::sql_storage(message.as_str(), "sqlite::Error")
}

/// Relies on sqlite::open and Connection::execute: creates the backing
/// database file if the engine can, and runs one statement that creates
/// the `entities` table when it is absent.
#[verifier::external_body]
fn sql_create_table(db_file: &str) -> (r: Result<(), sqlite::Error>) {
    let connection = sqlite::open(db_file)?;
    connection.execute(
        "CREATE TABLE IF NOT EXISTS `entities` ( `id` TEXT NOT NULL UNIQUE, `content` TEXT NOT NULL, PRIMARY KEY(`id`) )",
    )?;
    Ok(())
}

/// Relies on sqlite::open, Connection::prepare, Statement::bind, next
/// and read: looks the row for `id` up by primary key and hands back
/// its `content` column, or None when no row matches.
#[verifier::external_body]
fn sql_select_content(db_file: &str, id: &str) -> (r: Result<Option<String>, sqlite::Error>) {
    let connection = sqlite::open(db_file)?;
    let mut statement = connection.prepare("SELECT content FROM entities WHERE id = :id")?;
    statement.bind((":id", id))?;
    match statement.next()? {
        sqlite::State::Row => Ok(Some(statement.read::<String, _>("content")?)),
        sqlite::State::Done => Ok(None),
    }
}

/// Relies on sqlite::open, Connection::prepare, Statement::bind and
/// next: inserts one `(id, content)` row; a constraint violation or any
/// other engine failure comes back as its message.
#[verifier::external_body]
fn sql_insert_row(db_file: &str, id: &str, content: &str) -> (r: Result<(), sqlite::Error>) {
    let connection = sqlite::open(db_file)?;
    let mut statement = connection.prepare(
        "INSERT INTO entities (id, content) VALUES (:id, :content)",
    )?;
    statement.bind((":id", id))?;
    statement.bind((":content", content))?;
    statement.next()?;
    Ok(())
}

/// Relies on sqlite::open, Connection::prepare, Statement::bind and
/// next: overwrites the `content` column of the row for `id`; a missing
/// row is not an error at this layer.
#[verifier::external_body]
fn sql_update_row(db_file: &str, id: &str, content: &str) -> (r: Result<(), sqlite::Error>) {
    let connection = sqlite::open(db_file)?;
    let mut statement = connection.prepare(
        "UPDATE entities SET content = :content WHERE id = :id",
    )?;
    statement.bind((":id", id))?;
    statement.bind((":content", content))?;
    statement.next()?;
    Ok(())
}

/// Relies on sqlite::open, Connection::prepare, Statement::bind and
/// next: deletes the row for `id`; a missing row is not an error.
#[verifier::external_body]
fn sql_delete_row(db_file: &str, id: &str) -> (r: Result<(), sqlite::Error>) {
    let connection = sqlite::open(db_file)?;
    let mut statement = connection.prepare("DELETE FROM entities WHERE id = :id")?;
    statement.bind((":id", id))?;
    statement.next()?;
    Ok(())
}

/// Relies on sqlite::open and Connection::execute: deletes every row of
/// the `entities` table.
#[verifier::external_body]
fn sql_delete_all(db_file: &str) -> (r: Result<(), sqlite::Error>) {
    let connection = sqlite::open(db_file)?;
    connection.execute("DELETE FROM entities")?;
    Ok(())
}

/// Relies on sqlite::open, Connection::prepare, Statement::bind, next
/// and read: runs a parameterized SELECT whose WHERE clause the caller
/// supplies, binding each `(name, value)` pair as `:name`, and hands
/// back the `(id, content)` rows in the engine's scan order.
#[verifier::external_body]
fn sql_select_where(db_file: &str, where_clause: &str, params: &Vec<(String, String)>) -> (r:
    Result<Vec<(String, String)>, sqlite::Error>) {
    let connection = sqlite::open(db_file)?;
    let query = format!("SELECT id, content FROM entities WHERE {}", where_clause);
    let mut statement = connection.prepare(query)?;
    for (key, value) in params.iter() {
        statement.bind((format!(":{}", key).as_str(), value.as_str()))?;
    }
    let mut rows: Vec<(String, String)> = Vec::new();
    while let sqlite::State::Row = statement.next()? {
        rows.push((statement.read("id")?, statement.read("content")?));
    }
    Ok(rows)
}

/// Creates the backing database and the `entities` table when they are
/// absent; idempotent.  The parent directory must already exist; making
/// it is the embedding program's part.  Fails only with a relational
/// storage error.
pub fn create_sqlite_db_if_not_exists(db_config: &DbConfig) -> (r: DocDbResult<bool>)
    ensures
        r is Ok ==> r->Ok_0 == true,
        r is Err ==> r->Err_0 is SqlStorageError,
{
    match sql_create_table(db_config.sqlite_db_full_filename.as_str()) {
        Ok(_) => Ok(true),
        Err(e) => Err(sql_fail(e)),
    }
}

/// Decodes one stored row into an entry: the identifier must be a
/// canonical rendering and the content canonical JSON; the decoded
/// entry re-renders to exactly the row that was read, and every
/// decodable row is decoded.
pub fn entry_from_row(id_text: &str, content: &str) -> (r: DocDbResult<DocDbEntry>)
    ensures
        r is Ok ==> ulid_str(r->Ok_0.id.0) == id_text@ && wf(r->Ok_0.entity@) && json_of(
            r->Ok_0.entity@,
        ) == content@,
        r is Err ==> r->Err_0 is InternalError,
        row_decodable(id_text@, content@) ==> r is Ok,
{
    let id = match Ulid::from_string(id_text) {
        Ok(id) => id,
        Err(e) => {
            return Err(e);
        },
    };
    match from_json(content) {
        Some(entity) => Ok(DocDbEntry { id, entity }),
        None => Err(
            DocDbError::internal("stored content is not canonical JSON", "serde_json::Error"),
        ),
    }
}

/// Point lookup by primary key; a missing row is None, not an error.
/// A found entry carries the requested identifier and an entity whose
/// canonical JSON is exactly the stored content.
pub fn get_entry_from_sqlite(entity_id: &Ulid, db_config: &DbConfig) -> (r: DocDbResult<
    Option<DocDbEntry>,
>)
    ensures
        r matches Ok(Some(e)) ==> e.id == *entity_id && wf(e.entity@),
        r is Err ==> r->Err_0 is SqlStorageError || r->Err_0 is InternalError,
{
    let id_text = entity_id.to_string();
    match sql_select_content(db_config.sqlite_db_full_filename.as_str(), id_text.as_str()) {
        Ok(None) => Ok(None),
        Ok(Some(content)) => {
            match from_json(content.as_str()) {
                Some(entity) => Ok(Some(DocDbEntry { id: *entity_id, entity })),
                None => Err(
                    DocDbError::internal(
                        "stored content is not canonical JSON",
                        "serde_json::Error",
                    ),
                ),
            }
        },
        Err(e) => Err(sql_fail(e)),
    }
}

/// Inserts the entity under a freshly generated identifier, serialized
/// as canonical JSON, and returns that identifier.  Fails only with a
/// relational storage error.
pub fn insert_entity_to_sqlite(entity: &Value, db_config: &DbConfig) -> (r: DocDbResult<Ulid>)
    ensures
        r is Err ==> r->Err_0 is SqlStorageError,
{
    let entity_id = Ulid::new();
    let id_text = entity_id.to_string();
    let content = to_json(entity);
    match sql_insert_row(
        db_config.sqlite_db_full_filename.as_str(),
        id_text.as_str(),
        content.as_str(),
    ) {
        Ok(_) => Ok(entity_id),
        Err(e) => Err(sql_fail(e)),
    }
}

/// Overwrites the stored content for `entity_id` with the canonical
/// JSON of `entity`; updating a missing row is a silent no-op at this
/// layer.  Fails only with a relational storage error.
pub fn update_entity_in_sqlite(entity_id: &Ulid, entity: &Value, db_config: &DbConfig) -> (r:
    DocDbResult<()>)
    ensures
        r is Err ==> r->Err_0 is SqlStorageError,
{
    let id_text = entity_id.to_string();
    let content = to_json(entity);
    match sql_update_row(
        db_config.sqlite_db_full_filename.as_str(),
        id_text.as_str(),
        content.as_str(),
    ) {
        Ok(_) => Ok(()),
        Err(e) => Err(sql_fail(e)),
    }
}

/// Deletes the row for `entity_id`; a missing row is a no-op.  Fails
/// only with a relational storage error.
pub fn delete_entity_from_sqlite(entity_id: &Ulid, db_config: &DbConfig) -> (r: DocDbResult<()>)
    ensures
        r is Err ==> r->Err_0 is SqlStorageError,
{
    let id_text = entity_id.to_string();
    match sql_delete_row(db_config.sqlite_db_full_filename.as_str(), id_text.as_str()) {
        Ok(_) => Ok(()),
        Err(e) => Err(sql_fail(e)),
    }
}

/// Removes every stored row.  Fails only with a relational storage
/// error.
pub fn remove_all_entities_from_sqlite(db_config: &DbConfig) -> (r: DocDbResult<()>)
    ensures
        r is Err ==> r->Err_0 is SqlStorageError,
{
    match sql_delete_all(db_config.sqlite_db_full_filename.as_str()) {
        Ok(_) => Ok(()),
        Err(e) => Err(sql_fail(e)),
    }
}

/// Decodes the rows of a query result in order; the first undecodable
/// row aborts with an internal error.  On success, entry `i` re-renders
/// to exactly row `i`; and when every row decodes, it succeeds.
pub fn entries_from_rows(rows: &Vec<(String, String)>) -> (r: DocDbResult<Vec<DocDbEntry>>)
    ensures
        r matches Ok(es) ==> es@.len() == rows@.len() && forall|i: int|
            0 <= i < es@.len() ==> ulid_str(#[trigger] es@[i].id.0) == rows@[i].0@ && wf(
                es@[i].entity@,
            ) && json_of(es@[i].entity@) == rows@[i].1@,
        r is Err ==> r->Err_0 is InternalError,
        (forall|i: int|
            0 <= i < rows@.len() ==> #[trigger] row_decodable(rows@[i].0@, rows@[i].1@)) ==> r
            is Ok,
{
    let mut out: Vec<DocDbEntry> = Vec::new();
    let mut i: usize = 0;
    while i < rows.len()
        invariant
            i <= rows.len(),
            out@.len() == i as int,
            forall|j: int|
                0 <= j < i as int ==> ulid_str(#[trigger] out@[j].id.0) == rows@[j].0@ && wf(
                    out@[j].entity@,
                ) && json_of(out@[j].entity@) == rows@[j].1@,
        decreases rows.len() - i,
    {
        let entry = match entry_from_row(rows[i].0.as_str(), rows[i].1.as_str()) {
            Ok(entry) => entry,
            Err(e) => {
                return Err(e);
            },
        };
        out.push(entry);
        i = i + 1;
    }
    Ok(out)
}

/// Runs a caller-supplied predicate over the stored rows and decodes
/// every matching row, in the engine's scan order.
pub fn get_entries_from_sqlite(
    where_clause: &str,
    where_clause_params: &Vec<(String, String)>,
    db_config: &DbConfig,
) -> (r: DocDbResult<Vec<DocDbEntry>>)
    ensures
        r matches Ok(es) ==> forall|i: int|
            0 <= i < es@.len() ==> wf(#[trigger] es@[i].entity@),
        r is Err ==> r->Err_0 is SqlStorageError || r->Err_0 is InternalError,
{
    let rows = match sql_select_where(
        db_config.sqlite_db_full_filename.as_str(),
        where_clause,
        where_clause_params,
    ) {
        Ok(rows) => rows,
        Err(e) => {
            return Err(sql_fail(e));
        },
    };
    match entries_from_rows(&rows) {
        Ok(es) => {
            proof {
                assert forall|i: int| 0 <= i < es@.len() implies wf(
                    #[trigger] es@[i].entity@,
                ) by {
                    assert(ulid_str(es@[i].id.0) == rows@[i].0@);
                }
            }
            Ok(es)
        },
        Err(e) => Err(e),
    }
}

} // verus!
