//! Trusted boundary to the redb storage engine.
//!
//! The in-memory tables of [`crate::vector_store::VectorStore`] are the
//! verified model of the store; these wrappers mirror every committed change
//! into a redb database file and read it back when a store is opened.  What
//! comes back from disk depends on the environment, so the read wrapper
//! promises nothing about the rows; the callers decode and validate every
//! row themselves.

use redb::{ReadableDatabase, ReadableTable, TableDefinition};
use vstd::prelude::*;

verus! {

/// The redb database handle, opaque to the verifier.
#[verifier::external_type_specification]
#[verifier::external_body]
pub struct ExDatabase(redb::Database);

/// Relies on redb's `Database::create` and `WriteTransaction::open_table`:
/// opens the file at `path`, creating it if absent without erasing existing
/// data, and makes sure every named table exists.  Returns the engine's
/// message on failure.  Table names must be nonempty: redb's
/// `TableDefinition::new` panics on an empty name.
#[verifier::external_body]
pub(crate) fn db_create(path: &str, tables: &Vec<String>) -> (r: Result<redb::Database, String>)
    requires
        forall|i: int| 0 <= i < tables@.len() ==> (#[trigger] tables@[i]@).len() > 0,
{
    let db = redb::Database::create(path).map_err(|e| e.to_string())?;
    let txn = db.begin_write().map_err(|e| e.to_string())?;
    for t in tables.iter() {
        let def: TableDefinition<&str, &[u8]> = TableDefinition::new(t.as_str());
        txn.open_table(def).map_err(|e| e.to_string())?;
    }
    txn.commit().map_err(|e| e.to_string())?;
    Ok(db)
}

/// Relies on redb's `WriteTransaction`: writes all `rows` — `(table name,
/// key, value)` triples — in one transaction, so they are committed together
/// or not at all.  Returns the engine's message on failure.  Table names
/// must be nonempty: redb's `TableDefinition::new` panics on an empty name.
#[verifier::external_body]
pub(crate) fn db_put_rows(db: &redb::Database, rows: &Vec<(String, String, Vec<u8>)>) -> (r: Result<
    (),
    String,
>)
    requires
        forall|i: int| 0 <= i < rows@.len() ==> (#[trigger] rows@[i].0@).len() > 0,
{
    let txn = db.begin_write().map_err(|e| e.to_string())?;
    for (table, key, value) in rows.iter() {
        let def: TableDefinition<&str, &[u8]> = TableDefinition::new(table.as_str());
        let mut t = txn.open_table(def).map_err(|e| e.to_string())?;
        t.insert(key.as_str(), value.as_slice()).map_err(|e| e.to_string())?;
    }
    txn.commit().map_err(|e| e.to_string())
}

/// Relies on redb's read transactions: returns every `(key, value)` row of
/// `table`.  What the file holds depends on the environment, so nothing is
/// promised about the rows.  Returns the engine's message on failure.  The
/// table name must be nonempty: redb's `TableDefinition::new` panics on an
/// empty name.
#[verifier::external_body]
pub(crate) fn db_load_rows(db: &redb::Database, table: &str) -> (r: Result<
    Vec<(String, Vec<u8>)>,
    String,
>)
    requires
        table@.len() > 0,
{
    let txn = db.begin_read().map_err(|e| e.to_string())?;
    let def: TableDefinition<&str, &[u8]> = TableDefinition::new(table);
    let t = txn.open_table(def).map_err(|e| e.to_string())?;
    let mut rows = Vec::new();
    for item in t.iter().map_err(|e| e.to_string())? {
        let (k, v) = item.map_err(|e| e.to_string())?;
        rows.push((k.value().to_string(), v.value().to_vec()));
    }
    Ok(rows)
}

} // verus!

verus! {

/// Relies on std's `String::from_utf8`: succeeds exactly on valid UTF-8,
/// returning the string whose UTF-8 encoding is the input bytes.
#[verifier::external_body]
pub(crate) fn bytes_to_string(v: Vec<u8>) -> (r: Option<String>)
    ensures
        r is Some <==> vstd::utf8::valid_utf8(v@),
        r matches Some(s) ==> vstd::utf8::encode_utf8(s@) == v@,
{
    String::from_utf8(v).ok()
}

} // verus!
