//! The embedding store: durable storage and brute-force nearest-neighbor
//! retrieval of embedding records, backed by one table of an embedded
//! SQLite database (through the `rusqlite` crate).
//!
//! The model of the database is the sequence of stored rows in ascending
//! row-id order, named by [`db_rows`]. The store is single-writer: one
//! process owns the database file for the life of the connection, so the
//! connection value stands for the database state. Opening a file-backed
//! store validates that any pre-existing object named `embeddings` is
//! this library's own table — a foreign table or view of that name is
//! refused, since the SQL behind the trusted wrappers would otherwise
//! answer through an object of the wrong shape. The store caches whether
//! the table exists and the largest assigned row id, and keeps both in
//! step with the database ([`EmbeddingStore::wf`]).

use vstd::prelude::*;
use rusqlite::OptionalExtension;
use crate::codec::{decode_embedding, decode_words, encode_embedding, encode_words};
use crate::errors::{ConfigurationError, StorageError};
use crate::score::{cosine_similarity, score_of};

verus! {

/// One stored record as the model sees it: the chunk text, the embedding
/// blob, and the optional metadata text.
pub type RowModel = (Seq<char>, Seq<u8>, Option<Seq<char>>);

#[verifier::external_type_specification]
#[verifier::external_body]
pub struct ExConnection(rusqlite::Connection);

/// The SQL text under which SQLite files the library's table: the CREATE
/// statement as issued, with `IF NOT EXISTS` dropped.
pub open spec fn canonical_schema_sql() -> Seq<char> {
    "CREATE TABLE embeddings (id INTEGER PRIMARY KEY, text TEXT NOT NULL, embedding BLOB NOT NULL, metadata TEXT)"@
}

/// The rows of the library's own `embeddings` table behind `c` (the table
/// whose stored CREATE text is [`canonical_schema_sql`]), in ascending
/// row-id order; the empty sequence when that table does not exist. The
/// store is single-writer, so the connection value determines the table's
/// contents.
pub uninterp spec fn db_rows(c: rusqlite::Connection) -> Seq<RowModel>;

/// Whether the library's own `embeddings` table — a table (not a view)
/// with exactly the stored CREATE text [`canonical_schema_sql`] — exists
/// in the database behind `c`.
pub uninterp spec fn db_has_table(c: rusqlite::Connection) -> bool;

/// The largest row id in use in the library's `embeddings` table behind
/// `c`, or zero when the table is absent or empty.
pub uninterp spec fn db_max_id(c: rusqlite::Connection) -> int;

/// Whether the database behind `c` holds no *foreign* table or view named
/// `embeddings`: either the library's own table exists, or nothing named
/// `embeddings` does. A foreign object of that name would make
/// `CREATE TABLE IF NOT EXISTS` a silent no-op and let queries answer
/// through an object of the wrong shape, so the store refuses to work on
/// such a database.
pub uninterp spec fn db_schema_ok(c: rusqlite::Connection) -> bool;

/// The view of an optional metadata string.
pub open spec fn opt_str_view(m: Option<&str>) -> Option<Seq<char>> {
    match m {
        Some(s) => Some(s@),
        None => None,
    }
}

// ---------------------------------------------------------------------------
// Configuration
// ---------------------------------------------------------------------------
/// Where the store keeps its data: the local database file, and the remote
/// object that mirrors it across ephemeral invocations. Built once,
/// validated, and passed in — never read from ambient process state inside
/// a method.
pub struct StoreConfig {
    /// The path of the local database file.
    pub local_path: String,
    /// The bucket of the remote mirror.
    pub remote_bucket: String,
    /// The object key of the remote mirror.
    pub remote_key: String,
    /// Whether an existing local file is preferred over the remote copy.
    pub prefer_local: bool,
}

impl StoreConfig {
    /// Validates a configuration: every location field must be non-empty.
    /// A missing field is reported by the first one found, in field order.
    pub fn new(
        local_path: String,
        remote_bucket: String,
        remote_key: String,
        prefer_local: bool,
    ) -> (r: Result<StoreConfig, ConfigurationError>)
        ensures
            local_path@.len() == 0 ==> (r matches Err(e) && e is MissingLocalPath),
            local_path@.len() > 0 && remote_bucket@.len() == 0 ==> (r matches Err(e)
                && e is MissingRemoteBucket),
            local_path@.len() > 0 && remote_bucket@.len() > 0 && remote_key@.len() == 0 ==> (
            r matches Err(e) && e is MissingRemoteKey),
            local_path@.len() > 0 && remote_bucket@.len() > 0 && remote_key@.len() > 0 ==> (
            r matches Ok(c) && c.local_path@ == local_path@ && c.remote_bucket@ == remote_bucket@
                && c.remote_key@ == remote_key@ && c.prefer_local == prefer_local),
    {
        if local_path.as_str().is_empty() {
            return Err(ConfigurationError::MissingLocalPath);
        }
        if remote_bucket.as_str().is_empty() {
            return Err(ConfigurationError::MissingRemoteBucket);
        }
        if remote_key.as_str().is_empty() {
            return Err(ConfigurationError::MissingRemoteKey);
        }
        Ok(StoreConfig { local_path, remote_bucket, remote_key, prefer_local })
    }
}

// ---------------------------------------------------------------------------
// Trusted wrappers around rusqlite
// ---------------------------------------------------------------------------
/// Relies on rusqlite's `Connection::open`: opens the database file at
/// `path`, creating it when absent. What the file already holds is
/// unknown; a database without the library's table models no rows and a
/// zero row id.
#[verifier::external_body]
fn open_connection(path: &str) -> (r: Result<rusqlite::Connection, String>)
    ensures
        r matches Ok(c) ==> !db_has_table(c) ==> db_rows(c) == Seq::<RowModel>::empty()
            && db_max_id(c) == 0,
{
    rusqlite::Connection::open(path).map_err(|e| e.to_string())
}

/// Relies on rusqlite's `Connection::open_in_memory`: a fresh in-memory
/// database holds no tables, hence no rows.
#[verifier::external_body]
fn open_memory_connection() -> (r: Result<rusqlite::Connection, String>)
    ensures
        r matches Ok(c) ==> !db_has_table(c) && db_schema_ok(c) && db_rows(c)
            == Seq::<RowModel>::empty() && db_max_id(c) == 0,
{
    rusqlite::Connection::open_in_memory().map_err(|e| e.to_string())
}

/// Relies on rusqlite's `Connection::query_row` over `sqlite_master`,
/// which lists a database's schema objects: the type and stored CREATE
/// text of the table or view named `embeddings`, if one exists. Tables
/// and views share one namespace, so at most one such object exists; it
/// is the library's table exactly when its type is `table` and its stored
/// text is [`canonical_schema_sql`] (SQLite keeps the CREATE statement
/// verbatim from the object's name onward).
#[verifier::external_body]
fn probe_schema(conn: &rusqlite::Connection) -> (r: Result<Option<(String, String)>, String>)
    ensures
        r matches Ok(row) ==> match row {
            Option::None => !db_has_table(*conn) && db_schema_ok(*conn),
            Option::Some(ts) => (db_has_table(*conn) <==> (ts.0@ == "table"@ && ts.1@
                == canonical_schema_sql())) && (db_schema_ok(*conn) <==> db_has_table(*conn)),
        },
{
    conn.query_row(
        "SELECT type, sql FROM sqlite_master WHERE name = 'embeddings' AND type IN ('table', 'view')",
        [],
        |row| Ok((row.get(0)?, row.get(1)?)),
    ).optional().map_err(|e| e.to_string())
}

/// Relies on rusqlite's `Connection::query_row` over `MAX(id)`: the
/// largest row id in use, or zero for an empty table; fails when the table
/// is absent. The caller rules out a foreign object named `embeddings`,
/// which the query could otherwise answer through.
#[verifier::external_body]
fn probe_max_id(conn: &rusqlite::Connection) -> (r: Result<i64, String>)
    requires
        db_schema_ok(*conn),
    ensures
        r matches Ok(m) ==> db_has_table(*conn) && m as int == db_max_id(*conn),
{
    conn.query_row("SELECT COALESCE(MAX(id), 0) FROM embeddings", [], |row| row.get(0)).map_err(
        |e| e.to_string(),
    )
}

/// Relies on rusqlite's `Connection::execute` with
/// `CREATE TABLE IF NOT EXISTS`: after success the library's table
/// exists, with its rows kept when it already existed and none otherwise.
/// The statement is a silent no-op when any table *or view* of that name
/// exists, so the caller rules foreign ones out. A failed SQLite
/// statement has no effect (statements are atomic).
#[verifier::external_body]
fn create_table(conn: &mut rusqlite::Connection) -> (r: Result<(), String>)
    requires
        db_schema_ok(*old(conn)),
    ensures
        r is Ok ==> db_has_table(*final(conn)) && db_schema_ok(*final(conn)),
        r is Ok ==> db_rows(*final(conn)) == (if db_has_table(*old(conn)) {
            db_rows(*old(conn))
        } else {
            Seq::<RowModel>::empty()
        }),
        r is Ok ==> db_max_id(*final(conn)) == (if db_has_table(*old(conn)) {
            db_max_id(*old(conn))
        } else {
            0int
        }),
        r is Err ==> db_has_table(*final(conn)) == db_has_table(*old(conn)) && db_schema_ok(
            *final(conn),
        ) == db_schema_ok(*old(conn)) && db_rows(*final(conn)) == db_rows(*old(conn))
            && db_max_id(*final(conn)) == db_max_id(*old(conn)),
{
    conn.execute(
        "CREATE TABLE IF NOT EXISTS embeddings (id INTEGER PRIMARY KEY, text TEXT NOT NULL, embedding BLOB NOT NULL, metadata TEXT)",
        [],
    ).map(|_| ()).map_err(|e| e.to_string())
}

/// Relies on rusqlite's `Connection::execute` with
/// `DROP TABLE IF EXISTS`: after success the table, and with it every row,
/// is gone; dropping an absent table succeeds as a no-op. A failed SQLite
/// statement has no effect.
#[verifier::external_body]
fn drop_table(conn: &mut rusqlite::Connection) -> (r: Result<(), String>)
    ensures
        r is Ok ==> !db_has_table(*final(conn)) && db_schema_ok(*final(conn)) && db_rows(
            *final(conn),
        ) == Seq::<RowModel>::empty() && db_max_id(*final(conn)) == 0,
        r is Err ==> db_has_table(*final(conn)) == db_has_table(*old(conn)) && db_schema_ok(
            *final(conn),
        ) == db_schema_ok(*old(conn)) && db_rows(*final(conn)) == db_rows(*old(conn))
            && db_max_id(*final(conn)) == db_max_id(*old(conn)),
{
    conn.execute("DROP TABLE IF EXISTS embeddings", []).map(|_| ()).map_err(|e| e.to_string())
}

/// Relies on rusqlite's `Connection::execute` with `INSERT` and
/// `Connection::last_insert_rowid`: appends one row to the library's
/// table, whose `id INTEGER PRIMARY KEY` column is the rowid alias, so
/// SQLite assigns the new row an id one larger than the largest in use
/// (one, for an empty table), which keeps the new row last in id order.
/// The caller rules out foreign objects named `embeddings` and the
/// largest possible id, where SQLite would pick an id at random. A failed
/// SQLite statement has no effect.
#[verifier::external_body]
fn insert_row(conn: &mut rusqlite::Connection, text: &str, blob: &Vec<u8>, meta: Option<&str>) -> (r:
    Result<i64, String>)
    requires
        db_has_table(*old(conn)),
        db_schema_ok(*old(conn)),
        db_max_id(*old(conn)) < i64::MAX,
    ensures
        r matches Ok(id) ==> id as int == db_max_id(*old(conn)) + 1 && db_max_id(*final(conn))
            == id as int && db_has_table(*final(conn)) && db_schema_ok(*final(conn)) && db_rows(
            *final(conn),
        ) == db_rows(*old(conn)).push((text@, blob@, opt_str_view(meta))),
        r is Err ==> db_has_table(*final(conn)) == db_has_table(*old(conn)) && db_schema_ok(
            *final(conn),
        ) == db_schema_ok(*old(conn)) && db_rows(*final(conn)) == db_rows(*old(conn))
            && db_max_id(*final(conn)) == db_max_id(*old(conn)),
{
    conn.execute(
        "INSERT INTO embeddings (text, embedding, metadata) VALUES (?1, ?2, ?3)",
        (text, blob.as_slice(), meta),
    ).map(|_| conn.last_insert_rowid()).map_err(|e| e.to_string())
}

/// Relies on rusqlite's `Connection::prepare` and `Statement::query_map`
/// with `SELECT ... ORDER BY id`: every row's text and embedding blob, in
/// ascending id order; fails when the table is absent. The caller rules
/// out a foreign object named `embeddings`, which the query could
/// otherwise answer through.
#[verifier::external_body]
fn select_rows(conn: &rusqlite::Connection) -> (r: Result<Vec<(String, Vec<u8>)>, String>)
    requires
        db_schema_ok(*conn),
    ensures
        r matches Ok(v) ==> db_has_table(*conn) && v@.len() == db_rows(*conn).len() && forall|
            i: int,
        |
            0 <= i < v@.len() ==> (#[trigger] v@[i]).0@ == db_rows(*conn)[i].0 && v@[i].1@
                == db_rows(*conn)[i].1,
{
    let run = || -> rusqlite::Result<Vec<(String, Vec<u8>)>> {
        let mut stmt = conn.prepare("SELECT text, embedding FROM embeddings ORDER BY id")?;
        let rows = stmt.query_map([], |row| Ok((row.get(0)?, row.get(1)?)))?;
        rows.collect()
    };
    run().map_err(|e| e.to_string())
}

/// Relies on rusqlite's `Connection::query_row` over `COUNT(*)`: the
/// number of stored rows; fails when the table is absent. The caller
/// rules out a foreign object named `embeddings`, which the query could
/// otherwise answer through.
#[verifier::external_body]
fn count_rows(conn: &rusqlite::Connection) -> (r: Result<i64, String>)
    requires
        db_schema_ok(*conn),
    ensures
        r matches Ok(n) ==> db_has_table(*conn) && n as int == db_rows(*conn).len(),
{
    conn.query_row("SELECT COUNT(*) FROM embeddings", [], |row| row.get(0)).map_err(
        |e| e.to_string(),
    )
}

// ---------------------------------------------------------------------------
// The search pipeline, as specification
// ---------------------------------------------------------------------------
/// A retrieved pair: a record's text with its similarity score against the
/// query.
pub struct SearchHit {
    /// The stored chunk text.
    pub text: String,
    /// The fixed-point similarity score, in units of
    /// [`crate::score::SCORE_SCALE`] per 1.0.
    pub score: i64,
}

/// What `search_similar` returns: the ranked hits, and how many stored
/// rows were skipped because their embedding blob was corrupt.
pub struct SearchOutcome {
    /// The highest-scoring records, by descending score.
    pub hits: Vec<SearchHit>,
    /// The number of rows whose embedding blob could not be decoded.
    pub skipped: usize,
}

/// The model of a sequence of hits: (text, score) pairs.
pub open spec fn hits_view(s: Seq<SearchHit>) -> Seq<(Seq<char>, int)> {
    s.map_values(|h: SearchHit| (h.text@, h.score as int))
}

/// The decodable rows paired with their scores against the query `q`, in
/// scan (id) order; rows whose blob length is not a multiple of four are
/// dropped.
pub open spec fn scored_rows(q: Seq<u32>, rows: Seq<RowModel>) -> Seq<(Seq<char>, int)>
    decreases rows.len(),
{
    if rows.len() == 0 {
        Seq::empty()
    } else {
        let rest = scored_rows(q, rows.drop_last());
        let row = rows.last();
        if row.1.len() % 4 == 0 {
            rest.push((row.0, score_of(q, decode_words(row.1))))
        } else {
            rest
        }
    }
}

/// Inserts a hit into a descending-sorted sequence: before the first hit
/// with a strictly smaller score, after every hit that ties — so that
/// earlier rows keep their place among equals.
pub open spec fn insert_desc(x: (Seq<char>, int), s: Seq<(Seq<char>, int)>) -> Seq<
    (Seq<char>, int),
>
    decreases s.len(),
{
    if s.len() == 0 {
        seq![x]
    } else if x.1 > s.first().1 {
        seq![x] + s
    } else {
        seq![s.first()] + insert_desc(x, s.drop_first())
    }
}

/// Stable descending sort by score: scan-order insertion.
pub open spec fn sort_desc(s: Seq<(Seq<char>, int)>) -> Seq<(Seq<char>, int)>
    decreases s.len(),
{
    if s.len() == 0 {
        s
    } else {
        insert_desc(s.last(), sort_desc(s.drop_last()))
    }
}

/// The smaller of two values.
pub open spec fn min_int(a: int, b: int) -> int {
    if a < b {
        a
    } else {
        b
    }
}

/// What a similarity search over `rows` returns for query `q` and the
/// given limit: the decodable rows scored, ranked by descending score
/// (ties in scan order), cut to the limit.
pub open spec fn search_spec(q: Seq<u32>, rows: Seq<RowModel>, limit: int) -> Seq<
    (Seq<char>, int),
> {
    sort_desc(scored_rows(q, rows)).take(min_int(limit, scored_rows(q, rows).len() as int))
}

proof fn lemma_insert_desc_at(x: (Seq<char>, int), s: Seq<(Seq<char>, int)>, pos: int)
    requires
        0 <= pos <= s.len(),
        forall|k: int| 0 <= k < pos ==> !(x.1 > (#[trigger] s[k]).1),
        pos < s.len() ==> x.1 > s[pos].1,
    ensures
        insert_desc(x, s) == s.take(pos) + seq![x] + s.skip(pos),
    decreases s.len(),
{
    if s.len() == 0 {
        assert(s.take(0int) + seq![x] + s.skip(0int) =~= seq![x]);
    } else if x.1 > s.first().1 {
        assert(pos == 0) by {
            if pos > 0 {
                assert(!(x.1 > s[0].1));
            }
        }
        assert(s.take(0int) + seq![x] + s.skip(0int) =~= seq![x] + s);
    } else {
        assert(pos >= 1) by {
            if pos == 0 {
                assert(x.1 > s[0].1);
            }
        }
        let t = s.drop_first();
        assert(forall|k: int| 0 <= k < pos - 1 ==> !(x.1 > (#[trigger] t[k]).1)) by {
            assert(forall|k: int| 0 <= k < pos - 1 ==> t[k] == s[k + 1]);
        }
        assert(pos - 1 < t.len() ==> x.1 > t[pos - 1].1);
        lemma_insert_desc_at(x, t, pos - 1);
        assert(seq![s.first()] + (t.take(pos - 1) + seq![x] + t.skip(pos - 1)) =~= s.take(pos)
            + seq![x] + s.skip(pos));
    }
}

// ---------------------------------------------------------------------------
// The store
// ---------------------------------------------------------------------------
/// The embedding store: one backing table of (id, text, embedding blob,
/// metadata) records, with insertion and brute-force similarity search.
pub struct EmbeddingStore {
    conn: rusqlite::Connection,
    schema_ready: bool,
    last_id: i64,
}

impl EmbeddingStore {
    /// Well-formedness: the cached schema flag and largest row id mirror
    /// the database, an absent table holds no rows, and nothing foreign is
    /// named `embeddings` (constructors validate this).
    pub closed spec fn wf(&self) -> bool {
        &&& self.schema_ready == db_has_table(self.conn)
        &&& db_schema_ok(self.conn)
        &&& (!db_has_table(self.conn) ==> db_rows(self.conn) == Seq::<RowModel>::empty())
        &&& self.last_id as int == db_max_id(self.conn)
    }

    /// The stored records, in ascending id order.
    pub closed spec fn rows(&self) -> Seq<RowModel> {
        db_rows(self.conn)
    }

    /// Whether the backing table exists.
    pub closed spec fn schema_present(&self) -> bool {
        db_has_table(self.conn)
    }

    /// The id that the next successful insert assigns.
    pub closed spec fn next_id(&self) -> int {
        db_max_id(self.conn) + 1
    }

    /// Opens (or creates) the database file at `path` and validates what
    /// it holds: when an object named `embeddings` already exists but is
    /// not this library's own table — a view, or a table of another shape
    /// — the store refuses it with a backend error rather than work
    /// against the wrong schema. When the library's table exists, its
    /// records and largest id are read from the file. The store assumes a
    /// single writer: nothing else may touch the file (or open a second
    /// store on it) while this one is alive.
    pub fn new(path: &str) -> (r: Result<EmbeddingStore, StorageError>)
        ensures
            r matches Ok(s) ==> s.wf(),
    {
        let conn = match open_connection(path) {
            Ok(c) => c,
            Err(m) => {
                return Err(StorageError::Backend(m));
            },
        };
        let probed = match probe_schema(&conn) {
            Ok(p) => p,
            Err(m) => {
                return Err(StorageError::Backend(m));
            },
        };
        let present: bool = match probed {
            None => false,
            Some(ts) => {
                let is_ours = ts.0 == "table".to_owned() && ts.1
                    == "CREATE TABLE embeddings (id INTEGER PRIMARY KEY, text TEXT NOT NULL, embedding BLOB NOT NULL, metadata TEXT)".to_owned();
                if !is_ours {
                    return Err(
                        StorageError::Backend(
                            "existing object named embeddings is not this library's table".to_owned(),
                        ),
                    );
                }
                true
            },
        };
        let last_id: i64 = if present {
            match probe_max_id(&conn) {
                Ok(m) => m,
                Err(m) => {
                    return Err(StorageError::Backend(m));
                },
            }
        } else {
            0
        };
        Ok(EmbeddingStore { conn, schema_ready: present, last_id })
    }

    /// A store over a fresh, empty in-memory database: no table yet.
    pub fn new_in_memory() -> (r: Result<EmbeddingStore, StorageError>)
        ensures
            r matches Ok(s) ==> s.wf() && !s.schema_present() && s.rows()
                == Seq::<RowModel>::empty(),
    {
        let conn = match open_memory_connection() {
            Ok(c) => c,
            Err(m) => {
                return Err(StorageError::Backend(m));
            },
        };
        Ok(EmbeddingStore { conn, schema_ready: false, last_id: 0 })
    }

    /// Idempotently creates the backing table: afterwards the schema is
    /// present, with all records kept when the table already existed and
    /// none otherwise. On failure the store is unchanged.
    pub fn ensure_schema(&mut self) -> (r: Result<(), StorageError>)
        requires
            old(self).wf(),
        ensures
            final(self).wf(),
            r is Ok ==> final(self).schema_present() && final(self).rows() == (
            if old(self).schema_present() {
                old(self).rows()
            } else {
                Seq::<RowModel>::empty()
            }) && final(self).next_id() == (if old(self).schema_present() {
                old(self).next_id()
            } else {
                1int
            }),
            r is Err ==> final(self).schema_present() == old(self).schema_present()
                && final(self).rows() == old(self).rows() && final(self).next_id() == old(self).next_id(),
    {
        let was_ready = self.schema_ready;
        match create_table(&mut self.conn) {
            Ok(()) => {
                self.schema_ready = true;
                if !was_ready {
                    self.last_id = 0;
                }
                Ok(())
            },
            Err(m) => Err(StorageError::Backend(m)),
        }
    }

    /// Irreversibly deletes every record and the table itself; resetting a
    /// store whose table is already absent succeeds as a no-op. Until
    /// [`EmbeddingStore::ensure_schema`] is called again, inserts and
    /// searches fail with [`StorageError::SchemaMissing`]. On failure the
    /// store is unchanged.
    pub fn reset(&mut self) -> (r: Result<(), StorageError>)
        requires
            old(self).wf(),
        ensures
            final(self).wf(),
            r is Ok ==> !final(self).schema_present() && final(self).rows()
                == Seq::<RowModel>::empty(),
            r is Err ==> final(self).schema_present() == old(self).schema_present()
                && final(self).rows() == old(self).rows() && final(self).next_id() == old(self).next_id(),
    {
        match drop_table(&mut self.conn) {
            Ok(()) => {
                self.schema_ready = false;
                self.last_id = 0;
                Ok(())
            },
            Err(m) => Err(StorageError::Backend(m)),
        }
    }

    /// Appends a record and returns its freshly assigned id, one larger
    /// than every id in use. Fails with [`StorageError::SchemaMissing`],
    /// leaving the store unchanged, exactly when the schema is absent;
    /// repeated identical records are stored as distinct rows.
    pub fn insert(&mut self, text: &str, embedding: &Vec<u32>, metadata: Option<&str>) -> (r:
        Result<i64, StorageError>)
        requires
            old(self).wf(),
        ensures
            final(self).wf(),
            !old(self).schema_present() ==> (r matches Err(e) && e is SchemaMissing && *final(self)
                == *old(self)),
            old(self).schema_present() ==> (r matches Err(e) ==> !(e is SchemaMissing)),
            old(self).schema_present() && old(self).next_id() > i64::MAX ==> r is Err,
            r matches Ok(id) ==> old(self).schema_present() && final(self).schema_present()
                && id as int == old(self).next_id() && final(self).next_id() == id + 1
                && final(self).rows() == old(self).rows().push(
                (text@, encode_words(embedding@), opt_str_view(metadata)),
            ),
            r is Err ==> final(self).schema_present() == old(self).schema_present()
                && final(self).rows() == old(self).rows() && final(self).next_id() == old(self).next_id(),
    {
        let blob = encode_embedding(embedding);
        self.insert_raw(text, &blob, metadata)
    }

    /// Appends a record whose embedding blob is stored byte for byte, with
    /// no validation: the decoder checks the blob's shape on the way back
    /// out, so a blob of the wrong length makes a corrupt record that
    /// [`EmbeddingStore::search_similar`] skips and counts. Otherwise
    /// behaves as [`EmbeddingStore::insert`].
    pub fn insert_raw(&mut self, text: &str, blob: &Vec<u8>, metadata: Option<&str>) -> (r: Result<
        i64,
        StorageError,
    >)
        requires
            old(self).wf(),
        ensures
            final(self).wf(),
            !old(self).schema_present() ==> (r matches Err(e) && e is SchemaMissing && *final(self)
                == *old(self)),
            old(self).schema_present() ==> (r matches Err(e) ==> !(e is SchemaMissing)),
            old(self).schema_present() && old(self).next_id() > i64::MAX ==> r is Err,
            r matches Ok(id) ==> old(self).schema_present() && final(self).schema_present()
                && id as int == old(self).next_id() && final(self).next_id() == id + 1
                && final(self).rows() == old(self).rows().push((text@, blob@, opt_str_view(metadata))),
            r is Err ==> final(self).schema_present() == old(self).schema_present()
                && final(self).rows() == old(self).rows() && final(self).next_id() == old(self).next_id(),
    {
        if !self.schema_ready {
            return Err(StorageError::SchemaMissing);
        }
        if self.last_id == i64::MAX {
            return Err(StorageError::Backend("row id space exhausted".to_owned()));
        }
        match insert_row(&mut self.conn, text, blob, metadata) {
            Ok(id) => {
                self.last_id = id;
                Ok(id)
            },
            Err(m) => Err(StorageError::Backend(m)),
        }
    }

    /// The number of stored records. Fails with
    /// [`StorageError::SchemaMissing`] exactly when the schema is absent.
    pub fn count(&self) -> (r: Result<i64, StorageError>)
        requires
            self.wf(),
        ensures
            !self.schema_present() ==> (r matches Err(e) && e is SchemaMissing),
            self.schema_present() ==> (r matches Err(e) ==> !(e is SchemaMissing)),
            r matches Ok(n) ==> self.schema_present() && n as int == self.rows().len(),
    {
        if !self.schema_ready {
            return Err(StorageError::SchemaMissing);
        }
        match count_rows(&self.conn) {
            Ok(n) => Ok(n),
            Err(m) => Err(StorageError::Backend(m)),
        }
    }

    /// Scans every stored record, scores the decodable ones against the
    /// query by cosine similarity, and returns the `limit` highest-scoring
    /// (text, score) pairs by descending score, ties in scan order —
    /// exactly [`search_spec`]. A record whose embedding blob is corrupt
    /// (its length not a multiple of four) is skipped and counted, not an
    /// error. Fails with [`StorageError::SchemaMissing`] exactly when the
    /// schema is absent.
    pub fn search_similar(&self, query: &Vec<u32>, limit: usize) -> (r: Result<
        SearchOutcome,
        StorageError,
    >)
        requires
            self.wf(),
        ensures
            !self.schema_present() ==> (r matches Err(e) && e is SchemaMissing),
            self.schema_present() ==> (r matches Err(e) ==> !(e is SchemaMissing)),
            r matches Ok(out) ==> self.schema_present() && hits_view(out.hits@) == search_spec(
                query@,
                self.rows(),
                limit as int,
            ) && out.skipped as int == self.rows().len() - scored_rows(query@, self.rows()).len()
                && out.hits@.len() == min_int(
                limit as int,
                scored_rows(query@, self.rows()).len() as int,
            ),
            r matches Ok(out) ==> forall|i: int, j: int|
                0 <= i < j < out.hits@.len() ==> (#[trigger] out.hits@[i]).score
                    >= (#[trigger] out.hits@[j]).score,
    {
        if !self.schema_ready {
            return Err(StorageError::SchemaMissing);
        }
        let raw = match select_rows(&self.conn) {
            Ok(v) => v,
            Err(m) => {
                return Err(StorageError::Backend(m));
            },
        };
        let ghost rows = db_rows(self.conn);
        let n: usize = raw.len();
        let mut sorted: Vec<SearchHit> = Vec::new();
        let mut skipped: usize = 0;
        proof {
            assert(rows.take(0int) =~= Seq::<RowModel>::empty());
            assert(hits_view(sorted@) =~= Seq::<(Seq<char>, int)>::empty());
        }
        for i in 0..n
            invariant
                self.wf(),
                self.schema_ready,
                rows == db_rows(self.conn),
                n == raw@.len(),
                n == rows.len(),
                forall|k: int|
                    0 <= k < n ==> (#[trigger] raw@[k]).0@ == rows[k].0 && raw@[k].1@ == rows[k].1,
                hits_view(sorted@) == sort_desc(scored_rows(query@, rows.take(i as int))),
                skipped as int == rows.take(i as int).len() - scored_rows(
                    query@,
                    rows.take(i as int),
                ).len(),
                sorted@.len() == scored_rows(query@, rows.take(i as int)).len(),
        {
            let ghost prefix = rows.take(i as int);
            let ghost prefix2 = rows.take(i + 1);
            proof {
                assert(prefix2.drop_last() =~= prefix);
                assert(prefix2.last() == rows[i as int]);
                lemma_scored_len(query@, prefix2);
            }
            match decode_embedding(&raw[i].1) {
                Ok(words) => {
                    let score = cosine_similarity(query, &words);
                    let hit = SearchHit { text: raw[i].0.clone(), score };
                    let ghost hv = (hit.text@, hit.score as int);
                    proof {
                        assert(words@ == decode_words(rows[i as int].1));
                        assert(hv == (rows[i as int].0, score_of(
                            query@,
                            decode_words(rows[i as int].1),
                        )));
                        assert(scored_rows(query@, prefix2) == scored_rows(query@, prefix).push(
                            hv,
                        ));
                    }
                    let mut pos: usize = 0;
                    while pos < sorted.len() && sorted[pos].score >= hit.score
                        invariant
                            pos <= sorted@.len(),
                            forall|k: int|
                                0 <= k < pos ==> !(hv.1 > (#[trigger] hits_view(sorted@)[k]).1),
                            hv == (hit.text@, hit.score as int),
                        decreases sorted@.len() - pos,
                    {
                        proof {
                            assert(hits_view(sorted@)[pos as int].1 == sorted@[pos as int].score);
                        }
                        pos = pos + 1;
                    }
                    let ghost before = sorted@;
                    proof {
                        assert(pos < sorted@.len() ==> hv.1 > hits_view(before)[pos as int].1);
                        lemma_insert_desc_at(hv, hits_view(before), pos as int);
                    }
                    sorted.insert(pos, hit);
                    proof {
                        assert(sorted@ == before.insert(pos as int, hit));
                        assert(hits_view(sorted@) =~= hits_view(before).take(pos as int) + seq![
                            hv,
                        ] + hits_view(before).skip(pos as int));
                        assert(scored_rows(query@, prefix2).drop_last() =~= scored_rows(
                            query@,
                            prefix,
                        ));
                        assert(scored_rows(query@, prefix2).last() == hv);
                        assert(sort_desc(scored_rows(query@, prefix2)) == insert_desc(
                            hv,
                            sort_desc(scored_rows(query@, prefix)),
                        ));
                    }
                },
                Err(_) => {
                    proof {
                        assert(scored_rows(query@, prefix2) == scored_rows(query@, prefix));
                        assert(sorted@.len() <= prefix.len());
                    }
                    skipped = skipped + 1;
                },
            }
        }
        proof {
            assert(rows.take(n as int) =~= rows);
        }
        if sorted.len() > limit {
            sorted.truncate(limit);
            proof {
                assert(hits_view(sorted@) =~= sort_desc(scored_rows(query@, rows)).take(
                    limit as int,
                ));
            }
        } else {
            proof {
                assert(hits_view(sorted@) =~= sort_desc(scored_rows(query@, rows)).take(
                    sorted@.len() as int,
                ));
            }
        }
        proof {
            let full = sort_desc(scored_rows(query@, rows));
            lemma_sort_desc_sorted(scored_rows(query@, rows));
            assert forall|i: int, j: int| 0 <= i < j < sorted@.len() implies (#[trigger] sorted@[i]).score
                >= (#[trigger] sorted@[j]).score by {
                assert(hits_view(sorted@)[i] == full[i]);
                assert(hits_view(sorted@)[j] == full[j]);
                assert(full[i].1 >= full[j].1);
            }
        }
        Ok(SearchOutcome { hits: sorted, skipped })
    }
}

/// No more rows can be scored than exist.
proof fn lemma_scored_len(q: Seq<u32>, rows: Seq<RowModel>)
    ensures
        scored_rows(q, rows).len() <= rows.len(),
    decreases rows.len(),
{
    if rows.len() > 0 {
        lemma_scored_len(q, rows.drop_last());
    }
}

// ---------------------------------------------------------------------------
// Laws of the search
// ---------------------------------------------------------------------------
/// RANKING LAW, insertion step: inserting into a descending-sorted
/// sequence keeps it descending-sorted.
proof fn lemma_insert_desc_sorted(x: (Seq<char>, int), s: Seq<(Seq<char>, int)>)
    requires
        forall|i: int, j: int| 0 <= i < j < s.len() ==> (#[trigger] s[i]).1 >= (#[trigger] s[j]).1,
    ensures
        forall|i: int, j: int|
            0 <= i < j < insert_desc(x, s).len() ==> (#[trigger] insert_desc(x, s)[i]).1
                >= (#[trigger] insert_desc(x, s)[j]).1,
    decreases s.len(),
{
    let r = insert_desc(x, s);
    if s.len() == 0 {
    } else if x.1 > s.first().1 {
        assert forall|i: int, j: int| 0 <= i < j < r.len() implies (#[trigger] r[i]).1
            >= (#[trigger] r[j]).1 by {
            if i == 0 {
                assert(r[j] == s[j - 1]);
                if j > 1 {
                    assert(s[0].1 >= s[j - 1].1);
                }
            } else {
                assert(r[i] == s[i - 1] && r[j] == s[j - 1]);
            }
        }
    } else {
        let t = s.drop_first();
        assert(forall|i: int, j: int|
            0 <= i < j < t.len() ==> (#[trigger] t[i]).1 >= (#[trigger] t[j]).1) by {
            assert(forall|k: int| 0 <= k < t.len() ==> #[trigger] t[k] == s[k + 1]);
        }
        lemma_insert_desc_sorted(x, t);
        let rt = insert_desc(x, t);
        assert forall|i: int, j: int| 0 <= i < j < r.len() implies (#[trigger] r[i]).1
            >= (#[trigger] r[j]).1 by {
            assert(r == seq![s.first()] + rt);
            if i == 0 {
                assert(r[j] == rt[j - 1]);
                lemma_insert_desc_head_le(x, t, j - 1);
                assert(s.first().1 >= x.1);
            } else {
                assert(r[i] == rt[i - 1] && r[j] == rt[j - 1]);
            }
        }
    }
}

/// Every element of `insert_desc(x, s)` scores at most the larger of `x`
/// and the elements of `s`.
proof fn lemma_insert_desc_head_le(x: (Seq<char>, int), s: Seq<(Seq<char>, int)>, k: int)
    requires
        0 <= k < insert_desc(x, s).len(),
    ensures
        insert_desc(x, s)[k].1 == x.1 || exists|m: int|
            0 <= m < s.len() && (#[trigger] s[m].1) == insert_desc(x, s)[k].1,
    decreases s.len(),
{
    let r = insert_desc(x, s);
    if s.len() == 0 {
    } else if x.1 > s.first().1 {
        if k > 0 {
            assert(r[k] == s[k - 1]);
            assert(s[k - 1].1 == r[k].1);
        }
    } else {
        if k == 0 {
            assert(r[0] == s.first());
            assert(s[0].1 == r[0].1);
        } else {
            let t = s.drop_first();
            lemma_insert_desc_head_le(x, t, k - 1);
            assert(r[k] == insert_desc(x, t)[k - 1]);
            if insert_desc(x, t)[k - 1].1 != x.1 {
                let m = choose|m: int|
                    0 <= m < t.len() && (#[trigger] t[m].1) == insert_desc(x, t)[k - 1].1;
                assert(s[m + 1].1 == r[k].1);
            }
        }
    }
}

/// RANKING LAW: the sorted scores descend — earlier hits never score
/// below later ones.
pub proof fn lemma_sort_desc_sorted(s: Seq<(Seq<char>, int)>)
    ensures
        forall|i: int, j: int|
            0 <= i < j < sort_desc(s).len() ==> (#[trigger] sort_desc(s)[i]).1
                >= (#[trigger] sort_desc(s)[j]).1,
    decreases s.len(),
{
    if s.len() > 0 {
        lemma_sort_desc_sorted(s.drop_last());
        lemma_insert_desc_sorted(s.last(), sort_desc(s.drop_last()));
    }
}

/// ROUND-TRIP LAW: a record inserted with an encoded embedding is scored
/// against a query on exactly that embedding — the byte codec loses
/// nothing on the way through the store.
pub proof fn lemma_encoded_row_scored(
    q: Seq<u32>,
    rows: Seq<RowModel>,
    text: Seq<char>,
    emb: Seq<u32>,
    meta: Option<Seq<char>>,
)
    ensures
        scored_rows(q, rows.push((text, encode_words(emb), meta))) == scored_rows(q, rows).push(
            (text, score_of(q, emb)),
        ),
{
    let row = (text, encode_words(emb), meta);
    let all = rows.push(row);
    crate::codec::lemma_encode_len(emb);
    crate::codec::lemma_decode_encode(emb);
    assert(all.drop_last() =~= rows);
    assert(all.last() == row);
    assert(row.1.len() % 4 == 0);
    assert(decode_words(row.1) == emb);
}


} // verus!
