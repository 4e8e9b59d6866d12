//! Ingestion into relational tables: each string column is interned into a
//! names table of its own, and each document becomes one row of `versions`
//! that holds the ids.

use vstd::hash_map::StringHashMap;
use vstd::hash_set::HashSetWithView;
use vstd::prelude::*;

use crate::doc::{opt_view, AttachmentStatus, Checksum, Doc};
use crate::text::{text_eq, trim, trimmed};

verus! {

broadcast use vstd::std_specs::hash::group_hash_axioms;

/// `rusqlite::Connection`, held as an opaque value.
#[verifier::external_type_specification]
#[verifier::external_body]
pub struct ExConnection(rusqlite::Connection);

/// `rusqlite::Error`, held as an opaque value.
#[verifier::external_type_specification]
#[verifier::external_body]
pub struct ExSqlError(rusqlite::Error);

/// The tables that the ingestion writes to, created where they are missing.
pub const SCHEMA: &'static str = "
create table if not exists versions (
  id integer primary key,
  group_id integer not null,
  artifact_id integer not null,
  version varchar not null,
  classifier_id integer,
  extension_id integer not null,
  packaging_id integer,
  last_modified_seconds integer not null,
  size integer,
  checksum_hex varchar,
  source_attached boolean,
  javadoc_attached boolean,
  signature_attached boolean,
  name_id integer,
  desc_id integer
);
";

/// A string column, with its table of names.
#[derive(Clone, Copy, Debug, PartialEq, Eq, Structural)]
pub enum Column {
    Group,
    Artifact,
    Name,
    Desc,
    Packaging,
    Classifier,
}

impl Column {
    pub open spec fn label_text(self) -> Seq<char> {
        match self {
            Column::Group => "group"@,
            Column::Artifact => "artifact"@,
            Column::Name => "name"@,
            Column::Desc => "desc"@,
            Column::Packaging => "packaging"@,
            Column::Classifier => "classifier"@,
        }
    }

    /// The name of the column, which prefixes its table: `<label>_names`.
    pub fn label(self) -> (r: &'static str)
        ensures
            r@ == self.label_text(),
    {
        match self {
            Column::Group => "group",
            Column::Artifact => "artifact",
            Column::Name => "name",
            Column::Desc => "desc",
            Column::Packaging => "packaging",
            Column::Classifier => "classifier",
        }
    }

    /// Creates the column's names table where it is missing.
    pub fn create_sql(self) -> (r: String)
        ensures
            r@ == "create table if not exists "@ + self.label_text()
                + "_names (id integer primary key, name varchar not null unique)"@,
    {
        "create table if not exists ".to_owned().concat(self.label()).concat(
            "_names (id integer primary key, name varchar not null unique)",
        )
    }

    /// Inserts one name into the column's names table.
    pub fn insert_sql(self) -> (r: String)
        ensures
            r@ == "insert into "@ + self.label_text() + "_names (name) values (?)"@,
    {
        "insert into ".to_owned().concat(self.label()).concat("_names (name) values (?)")
    }

    /// Finds the id of one name in the column's names table.
    pub fn select_sql(self) -> (r: String)
        ensures
            r@ == "select id from "@ + self.label_text() + "_names where name=?"@,
    {
        "select id from ".to_owned().concat(self.label()).concat("_names where name=?")
    }
}

const INSERT_VERSION: &'static str = "insert into versions (group_id, artifact_id, version, classifier_id, extension_id, packaging_id, last_modified_seconds, size, checksum_hex, source_attached, javadoc_attached, signature_attached, name_id, desc_id) values (?,?,?,?,?,?,?,?,?,?,?,?,?,?)";

const FIND_VERSIONS: &'static str = "select version from versions where group_id=(select id from group_names where name=?) and artifact_id=(select id from artifact_names where name=?)";

/// Why ingestion failed.
#[derive(Debug)]
pub enum DbError {
    /// A string that is empty or `null` once trimmed, for the column.
    IllegalString(Column),
    /// A size too large for a signed 64-bit column.
    SizeOutOfRange(u64),
    /// The names table refused a name as a duplicate, yet holds no row for
    /// it.
    MissingName(Column),
    /// The names table gave a name an id that another name already has.
    IdReused(Column, i64),
    /// The store failed.
    Store(rusqlite::Error),
}

/// How an insertion into a names table failed.
#[derive(Debug)]
pub enum InsertFailure {
    /// The name is there already.
    Duplicate,
    Store(rusqlite::Error),
}

/// Relies on `rusqlite::Connection::execute`: runs one statement without
/// parameters.
#[verifier::external_body]
fn execute_sql(conn: &rusqlite::Connection, sql: &str) -> (r: Result<(), rusqlite::Error>) {
    conn.execute(sql, ())?;
    Ok(())
}

/// Relies on `rusqlite::Connection::prepare_cached` and
/// `rusqlite::Statement::insert`: inserts one name and gives the new row's
/// id; a failure of a UNIQUE constraint is told apart.
#[verifier::external_body]
fn insert_name(conn: &rusqlite::Connection, sql: &str, name: &str) -> (r: Result<
    i64,
    InsertFailure,
>) {
    let mut st = match conn.prepare_cached(sql) {
        Ok(st) => st,
        Err(e) => return Err(InsertFailure::Store(e)),
    };
    match st.insert((name,)) {
        Ok(id) => Ok(id),
        Err(rusqlite::Error::SqliteFailure(e, _)) if e.code
            == rusqlite::ErrorCode::ConstraintViolation => Err(InsertFailure::Duplicate),
        Err(e) => Err(InsertFailure::Store(e)),
    }
}

/// Relies on `rusqlite::Connection::prepare_cached`,
/// `rusqlite::Statement::query_row` and `OptionalExtension::optional`: the
/// id of a name, if the table holds it.
#[verifier::external_body]
fn select_id(conn: &rusqlite::Connection, sql: &str, name: &str) -> (r: Result<
    Option<i64>,
    rusqlite::Error,
>) {
    let mut st = conn.prepare_cached(sql)?;
    rusqlite::OptionalExtension::optional(st.query_row((name,), |row| row.get(0)))
}

/// Relies on `rusqlite::Connection::prepare_cached` and
/// `rusqlite::Statement::insert`: inserts one row of `versions`.
#[verifier::external_body]
fn insert_version(conn: &rusqlite::Connection, sql: &str, row: &VersionRow) -> (r: Result<
    (),
    rusqlite::Error,
>) {
    let params = (
        row.group_id, row.artifact_id, &row.version, row.classifier_id, row.extension_id,
        row.packaging_id, row.last_modified_seconds, row.size, &row.checksum_hex,
        row.source_attached, row.javadoc_attached, row.signature_attached, row.name_id, row.desc_id,
    );
    conn.prepare_cached(sql)?.insert(params)?;
    Ok(())
}

/// Relies on `rusqlite::Connection::prepare_cached` and
/// `rusqlite::Statement::query_map`: the first column of each row, in the
/// order the store gives them.
#[verifier::external_body]
fn query_strings(conn: &rusqlite::Connection, sql: &str, a: &str, b: &str) -> (r: Result<
    Vec<String>,
    rusqlite::Error,
>) {
    let mut st = conn.prepare_cached(sql)?;
    let rows = st.query_map((a, b), |row| row.get(0))?;
    rows.collect()
}

/// The lowercase hex digit of a value below 16.
pub open spec fn hex_digit(d: int) -> char {
    if d < 10 {
        (48 + d) as char
    } else {
        (87 + d) as char
    }
}

/// The lowercase hex text of bytes: two digits each, the high half first.
pub open spec fn hex_lower(b: Seq<u8>) -> Seq<char> {
    Seq::new(
        2 * b.len(),
        |i: int|
            if i % 2 == 0 {
                hex_digit(b[i / 2] as int / 16)
            } else {
                hex_digit(b[i / 2] as int % 16)
            },
    )
}

/// Relies on `hex::encode`: two lowercase digits for each byte.
#[verifier::external_body]
fn encode_hex(b: &Checksum) -> (r: String)
    ensures
        r@ == hex_lower(b@),
{
    hex::encode(b)
}

/// Whether a string may be interned: not empty and not `null` once trimmed.
pub open spec fn legal_name(s: Seq<char>) -> bool {
    trimmed(s).len() > 0 && trimmed(s) != "null"@
}

/// Whether `s` is neither empty nor `null`.
pub fn empty_filter(s: &str) -> (r: bool)
    ensures
        r == (s@.len() > 0 && s@ != "null"@),
{
    !s.is_empty() && !text_eq(s, "null")
}

/// Whether no two names have one id.
pub open spec fn injective(m: Map<Seq<char>, i64>) -> bool {
    forall|a: Seq<char>, b: Seq<char>|
        m.contains_key(a) && m.contains_key(b) && a != b ==> #[trigger] m[a] != #[trigger] m[b]
}

/// What interning `s` in column `c` does to the ids `old`, giving `r` and
/// the ids `new`: a known name gets its id again and nothing changes; a new
/// legal name may get an id of its own; an illegal name is refused.
pub open spec fn interned(
    old: Map<Seq<char>, i64>,
    s: Seq<char>,
    r: Result<i64, DbError>,
    new: Map<Seq<char>, i64>,
    c: Column,
) -> bool {
    &&& old.contains_key(s) ==> (r matches Ok(id) && id == old[s] && new == old)
    &&& !old.contains_key(s) ==> match r {
        Ok(id) => legal_name(s) && new == old.insert(s, id),
        Err(e) => new == old && (!legal_name(s) ==> (e matches DbError::IllegalString(col)
            && col == c)),
    }
    &&& !legal_name(s) ==> r is Err
    &&& r matches Err(e) ==> !(e is SizeOutOfRange) && (e matches DbError::IllegalString(col) ==> col
        == c && !legal_name(s))
    &&& r matches Err(DbError::IdReused(col, id)) ==> col == c && !old.contains_key(s) && legal_name(s)
        && exists|k: Seq<char>| old.contains_key(k) && old[k] == id
    &&& !old.contains_key(s) ==> (r matches Ok(id) ==> forall|k: Seq<char>|
        #[trigger] old.contains_key(k) ==> old[k] != id)
}

/// Interning a name a second time gives the id it was given the first time,
/// and changes nothing.
pub proof fn lemma_intern_idempotent(
    m0: Map<Seq<char>, i64>,
    m1: Map<Seq<char>, i64>,
    m2: Map<Seq<char>, i64>,
    s: Seq<char>,
    id: i64,
    r: Result<i64, DbError>,
    c: Column,
)
    requires
        interned(m0, s, Ok(id), m1, c),
        interned(m1, s, r, m2, c),
    ensures
        r == Ok::<i64, DbError>(id),
        m2 == m1,
{
}

/// Two different names interned in one column get different ids.
pub proof fn lemma_intern_distinct(
    m0: Map<Seq<char>, i64>,
    m1: Map<Seq<char>, i64>,
    m2: Map<Seq<char>, i64>,
    s1: Seq<char>,
    s2: Seq<char>,
    id1: i64,
    id2: i64,
    c: Column,
)
    requires
        interned(m0, s1, Ok(id1), m1, c),
        interned(m1, s2, Ok(id2), m2, c),
        injective(m2),
        s1 != s2,
    ensures
        id1 != id2,
{
    assert(m2.contains_key(s1) && m2[s1] == id1);
    assert(m2.contains_key(s2) && m2[s2] == id2);
}

/// The id that a names table gave a new name, from the outcome of the
/// insertion and, where the name was there already, of the look-up that
/// followed: the inserted row's id, else the id of the row found.
pub fn stored_id(
    column: Column,
    inserted: Result<i64, InsertFailure>,
    selected: Option<Result<Option<i64>, rusqlite::Error>>,
) -> (r: Result<i64, DbError>)
    ensures
        match inserted {
            Ok(id) => r matches Ok(x) && x == id,
            Err(InsertFailure::Store(e)) => r matches Err(DbError::Store(x)) && x == e,
            Err(InsertFailure::Duplicate) => match selected {
                Some(Ok(Some(id))) => r matches Ok(x) && x == id,
                Some(Err(e)) => r matches Err(DbError::Store(x)) && x == e,
                _ => r matches Err(DbError::MissingName(c)) && c == column,
            },
        },
{
    match inserted {
        Ok(id) => Ok(id),
        Err(InsertFailure::Store(e)) => Err(DbError::Store(e)),
        Err(InsertFailure::Duplicate) => match selected {
            Some(Ok(Some(id))) => Ok(id),
            Some(Err(e)) => Err(DbError::Store(e)),
            _ => Err(DbError::MissingName(column)),
        },
    }
}

/// A write-through cache of the names table of one column.
pub struct Interner {
    column: Column,
    cache: StringHashMap<i64>,
    ids: HashSetWithView<i64>,
}

impl View for Interner {
    type V = Map<Seq<char>, i64>;

    closed spec fn view(&self) -> Map<Seq<char>, i64> {
        self.cache@
    }
}

impl Interner {
    pub closed spec fn column(&self) -> Column {
        self.column
    }

    pub closed spec fn ids_known(&self) -> bool {
        &&& forall|k: Seq<char>| #[trigger]
            self.cache@.contains_key(k) ==> self.ids@.contains(self.cache@[k])
        &&& forall|id: i64| #[trigger]
            self.ids@.contains(id) ==> exists|k: Seq<char>|
                self.cache@.contains_key(k) && self.cache@[k] == id
    }

    pub open spec fn wf(&self) -> bool {
        &&& self.ids_known()
        &&& injective(self@)
        &&& forall|k: Seq<char>| #[trigger] self@.contains_key(k) ==> legal_name(k)
    }

    pub fn new(column: Column) -> (r: Interner)
        ensures
            r.wf(),
            r.column() == column,
            r@ == Map::<Seq<char>, i64>::empty(),
    {
        Interner { column, cache: StringHashMap::new(), ids: HashSetWithView::new() }
    }

    /// The id of `val` in the names table, inserting it there if it is new.
    pub fn intern(&mut self, conn: &rusqlite::Connection, val: &str) -> (r: Result<i64, DbError>)
        requires
            old(self).wf(),
        ensures
            final(self).wf(),
            final(self).column() == old(self).column(),
            interned(old(self)@, val@, r, final(self)@, old(self).column()),
    {
        if let Some(id) = self.cache.get(val) {
            return Ok(*id);
        }
        let t = trim(val);
        if !empty_filter(t) {
            return Err(DbError::IllegalString(self.column));
        }
        let inserted = insert_name(conn, self.column.insert_sql().as_str(), val);
        let selected = if matches!(inserted, Err(InsertFailure::Duplicate)) {
            Some(select_id(conn, self.column.select_sql().as_str(), val))
        } else {
            None
        };
        let id = stored_id(self.column, inserted, selected)?;
        if self.ids.contains(&id) {
            return Err(DbError::IdReused(self.column, id));
        }
        let ghost before = self.cache@;
        self.cache.insert(val.to_owned(), id);
        self.ids.insert(id);
        proof {
            assert forall|x: i64| #[trigger] self.ids@.contains(x) implies exists|k: Seq<char>|
                self.cache@.contains_key(k) && self.cache@[k] == x by {
                if x == id {
                    assert(self.cache@.contains_key(val@) && self.cache@[val@] == x);
                } else {
                    let k = choose|k: Seq<char>| before.contains_key(k) && before[k] == x;
                    assert(self.cache@.contains_key(k) && self.cache@[k] == x);
                }
            }
        }
        Ok(id)
    }

    /// The id of `val`, or none where it is absent, empty or `null` once
    /// trimmed.
    pub fn intern_optional(&mut self, conn: &rusqlite::Connection, val: Option<&String>) -> (r: Result<
        Option<i64>,
        DbError,
    >)
        requires
            old(self).wf(),
        ensures
            final(self).wf(),
            final(self).column() == old(self).column(),
            match val {
                None => (r matches Ok(None) && final(self)@ == old(self)@),
                Some(s) => if !legal_name(s@) {
                    (r matches Ok(None) && final(self)@ == old(self)@)
                } else {
                    match r {
                        Ok(Some(id)) => final(self)@ == old(self)@.insert(s@, id) && (
                        old(self)@.contains_key(s@) ==> id == old(self)@[s@]),
                        Ok(None) => false,
                        Err(e) => final(self)@ == old(self)@ && !old(self)@.contains_key(s@)
                            && !(e is IllegalString) && !(e is SizeOutOfRange),
                    }
                },
            },
    {
        match val {
            None => Ok(None),
            Some(s) => {
                if !empty_filter(trim(s.as_str())) {
                    return Ok(None);
                }
                let id = self.intern(conn, s.as_str())?;
                proof {
                    if old(self)@.contains_key(s@) {
                        assert(old(self)@.insert(s@, id) =~= old(self)@);
                    }
                }
                Ok(Some(id))
            },
        }
    }
}

/// One row of `versions`: a document with its strings replaced by ids.
#[derive(Clone, Debug, PartialEq, Eq)]
pub struct VersionRow {
    pub group_id: i64,
    pub artifact_id: i64,
    pub version: String,
    pub classifier_id: Option<i64>,
    pub extension_id: i64,
    pub packaging_id: Option<i64>,
    pub last_modified_seconds: i64,
    pub size: Option<i64>,
    pub checksum_hex: Option<String>,
    pub source_attached: Option<bool>,
    pub javadoc_attached: Option<bool>,
    pub signature_attached: Option<bool>,
    pub name_id: Option<i64>,
    pub desc_id: Option<i64>,
}

/// An attachment flag as a nullable boolean.
pub open spec fn spec_attached(status: AttachmentStatus) -> Option<bool> {
    match status {
        AttachmentStatus::Absent => Some(false),
        AttachmentStatus::Present => Some(true),
        AttachmentStatus::Unavailable => None,
    }
}

pub fn attached_bool(status: AttachmentStatus) -> (r: Option<bool>)
    ensures
        r == spec_attached(status),
{
    match status {
        AttachmentStatus::Absent => Some(false),
        AttachmentStatus::Present => Some(true),
        AttachmentStatus::Unavailable => None,
    }
}

/// The id of an optional string: none where it is absent or not a legal
/// name.
pub open spec fn optional_id(m: Map<Seq<char>, i64>, s: Option<Seq<char>>) -> Option<i64> {
    match s {
        Some(v) => if legal_name(v) {
            Some(m[v])
        } else {
            None
        },
        None => None,
    }
}

/// Where an optional string that is present and legal has an id.
pub open spec fn optional_known(m: Map<Seq<char>, i64>, s: Option<Seq<char>>) -> bool {
    match s {
        Some(v) => legal_name(v) ==> m.contains_key(v),
        None => true,
    }
}

pub open spec fn opt_i64(o: Option<u64>) -> Option<i64> {
    match o {
        Some(v) => Some(v as i64),
        None => None,
    }
}

/// Where column `c` would intern a string of the document that is not legal.
pub open spec fn illegal_in(doc: Doc, c: Column) -> bool {
    match c {
        Column::Group => !legal_name(doc.id.group@),
        Column::Artifact => !legal_name(doc.id.artifact@),
        Column::Packaging => !legal_name(doc.object_info.extension@),
        Column::Classifier => doc.id.classifier matches Some(x) && !legal_name(x@),
        _ => false,
    }
}

/// Where the size fits a signed 64-bit column.
pub open spec fn size_fits(doc: Doc) -> bool {
    doc.object_info.size matches Some(s) ==> s <= i64::MAX
}

/// Writes documents into `versions`, interning their strings.
pub struct DbBuilder<'t> {
    conn: &'t rusqlite::Connection,
    group_cache: Interner,
    artifact_cache: Interner,
    name_cache: Interner,
    desc_cache: Interner,
    packaging_cache: Interner,
    classifier_cache: Interner,
}

impl<'t> DbBuilder<'t> {
    /// The ids that the column's names have been given.
    pub closed spec fn names(&self, c: Column) -> Map<Seq<char>, i64> {
        match c {
            Column::Group => self.group_cache@,
            Column::Artifact => self.artifact_cache@,
            Column::Name => self.name_cache@,
            Column::Desc => self.desc_cache@,
            Column::Packaging => self.packaging_cache@,
            Column::Classifier => self.classifier_cache@,
        }
    }

    /// Where the group, artifact, name, description and packaging of the
    /// document need no call to the store: each has an id, or is an optional
    /// string that will be left out.
    pub open spec fn knows_leading(&self, doc: Doc) -> bool {
        &&& self.names(Column::Group).contains_key(doc.id.group@)
        &&& self.names(Column::Artifact).contains_key(doc.id.artifact@)
        &&& optional_known(self.names(Column::Name), opt_view(doc.name))
        &&& optional_known(self.names(Column::Desc), opt_view(doc.description))
        &&& optional_known(self.names(Column::Packaging), Some(doc.object_info.packaging@))
    }

    /// Where no string of the document needs a call to the store.
    pub open spec fn knows(&self, doc: Doc) -> bool {
        &&& self.knows_leading(doc)
        &&& self.names(Column::Packaging).contains_key(doc.object_info.extension@)
        &&& (doc.id.classifier matches Some(c) ==> self.names(Column::Classifier).contains_key(c@))
    }

    pub closed spec fn wf(&self) -> bool {
        &&& self.group_cache.wf() && self.group_cache.column() == Column::Group
        &&& self.artifact_cache.wf() && self.artifact_cache.column() == Column::Artifact
        &&& self.name_cache.wf() && self.name_cache.column() == Column::Name
        &&& self.desc_cache.wf() && self.desc_cache.column() == Column::Desc
        &&& self.packaging_cache.wf() && self.packaging_cache.column() == Column::Packaging
        &&& self.classifier_cache.wf() && self.classifier_cache.column() == Column::Classifier
    }

    /// Each column's ids are distinct, and only legal names have one.
    pub proof fn lemma_names_wf(&self, c: Column)
        requires
            self.wf(),
        ensures
            injective(self.names(c)),
            forall|k: Seq<char>| #[trigger] self.names(c).contains_key(k) ==> legal_name(k),
    {
    }

    /// Creates the names tables where they are missing, and interns the most
    /// frequent names first, so that they have the smallest ids.
    pub fn new(conn: &'t rusqlite::Connection) -> (r: Result<DbBuilder<'t>, DbError>)
        ensures
            r matches Ok(d) ==> d.wf() && forall|c: Column| #[trigger] d.names(c).dom()
                == preload(c).to_set(),
            r matches Err(e) ==> preload_error(e),
    {
        let mut us = DbBuilder {
            conn,
            group_cache: Interner::new(Column::Group),
            artifact_cache: Interner::new(Column::Artifact),
            name_cache: Interner::new(Column::Name),
            desc_cache: Interner::new(Column::Desc),
            packaging_cache: Interner::new(Column::Packaging),
            classifier_cache: Interner::new(Column::Classifier),
        };
        us.create_string_tables()?;
        us.write_examples()?;
        proof {
            assert forall|c: Column| #[trigger] us.names(c).dom() == preload(c).to_set() by {
                assert(Set::<Seq<char>>::empty().union(preload(c).to_set()) =~= preload(c).to_set());
            }
        }
        Ok(us)
    }

    /// Creates each column's names table where it is missing.
    pub fn create_string_tables(&self) -> (r: Result<(), DbError>)
        ensures
            r matches Err(e) ==> e is Store,
    {
        let columns = [
            Column::Group,
            Column::Artifact,
            Column::Name,
            Column::Desc,
            Column::Packaging,
            Column::Classifier,
        ];
        let mut i: usize = 0;
        while i < 6
            invariant
                i <= 6,
            decreases 6 - i,
        {
            match execute_sql(self.conn, columns[i].create_sql().as_str()) {
                Ok(()) => {},
                Err(e) => return Err(DbError::Store(e)),
            }
            i = i + 1;
        }
        Ok(())
    }

    /// Interns the frequent names of each column, `preload(c)`.
    pub fn write_examples(&mut self) -> (r: Result<(), DbError>)
        requires
            old(self).wf(),
        ensures
            final(self).wf(),
            r matches Err(e) ==> preload_error(e),
            r is Ok ==> forall|c: Column| #[trigger] final(self).names(c).dom() == old(
                self,
            ).names(c).dom().union(preload(c).to_set()),
    {
        match write_examples(self.conn, &mut self.group_cache, &preload_list(Column::Group)) {
            Ok(()) => {},
            Err(e) => return Err(e),
        }
        match write_examples(self.conn, &mut self.artifact_cache, &preload_list(Column::Artifact)) {
            Ok(()) => {},
            Err(e) => return Err(e),
        }
        match write_examples(self.conn, &mut self.name_cache, &preload_list(Column::Name)) {
            Ok(()) => {},
            Err(e) => return Err(e),
        }
        match write_examples(self.conn, &mut self.desc_cache, &preload_list(Column::Desc)) {
            Ok(()) => {},
            Err(e) => return Err(e),
        }
        match write_examples(self.conn, &mut self.packaging_cache, &preload_list(Column::Packaging)) {
            Ok(()) => {},
            Err(e) => return Err(e),
        }
        match write_examples(self.conn, &mut self.classifier_cache, &preload_list(Column::Classifier)) {
            Ok(()) => {},
            Err(e) => return Err(e),
        }
        Ok(())
    }

    /// The row of `versions` for a document, interning its strings: the
    /// group, artifact, name, description, packaging, extension and
    /// classifier, in that order. The packaging and the extension share a
    /// names table.
    pub fn resolve(&mut self, doc: &Doc) -> (r: Result<VersionRow, DbError>)
        requires
            old(self).wf(),
        ensures
            final(self).wf(),
            forall|c: Column| #[trigger] old(self).names(c).submap_of(final(self).names(c)),
            doc.id.classifier is None ==> final(self).names(Column::Classifier) == old(self).names(
                Column::Classifier,
            ),
            doc.name is None ==> final(self).names(Column::Name) == old(self).names(Column::Name),
            doc.description is None ==> final(self).names(Column::Desc) == old(self).names(
                Column::Desc,
            ),
            r matches Ok(row) ==> {
                let n = |c: Column| final(self).names(c);
                &&& n(Column::Group).contains_key(doc.id.group@)
                &&& row.group_id == n(Column::Group)[doc.id.group@]
                &&& n(Column::Artifact).contains_key(doc.id.artifact@)
                &&& row.artifact_id == n(Column::Artifact)[doc.id.artifact@]
                &&& row.version@ == doc.id.version@
                &&& match doc.id.classifier {
                    Some(c) => n(Column::Classifier).contains_key(c@) && row.classifier_id == Some(
                        n(Column::Classifier)[c@],
                    ),
                    None => row.classifier_id is None,
                }
                &&& n(Column::Packaging).contains_key(doc.object_info.extension@)
                &&& row.extension_id == n(Column::Packaging)[doc.object_info.extension@]
                &&& optional_known(n(Column::Packaging), Some(doc.object_info.packaging@))
                &&& row.packaging_id == optional_id(
                    n(Column::Packaging),
                    Some(doc.object_info.packaging@),
                )
                &&& row.last_modified_seconds == doc.object_info.last_modified / 1000
                &&& row.size == opt_i64(doc.object_info.size)
                &&& opt_view(row.checksum_hex) == match doc.checksum {
                    Some(c) => Some(hex_lower(c@)),
                    None => None,
                }
                &&& row.source_attached == spec_attached(doc.object_info.source_attached)
                &&& row.javadoc_attached == spec_attached(doc.object_info.javadoc_attached)
                &&& row.signature_attached == spec_attached(doc.object_info.signature_attached)
                &&& optional_known(n(Column::Name), opt_view(doc.name))
                &&& row.name_id == optional_id(n(Column::Name), opt_view(doc.name))
                &&& optional_known(n(Column::Desc), opt_view(doc.description))
                &&& row.desc_id == optional_id(n(Column::Desc), opt_view(doc.description))
            },
            old(self).knows(*doc) && size_fits(*doc) ==> r is Ok,
            !legal_name(doc.id.group@) ==> (r matches Err(DbError::IllegalString(c)) && c
                == Column::Group),
            old(self).names(Column::Group).contains_key(doc.id.group@) && !legal_name(
                doc.id.artifact@,
            ) ==> (r matches Err(DbError::IllegalString(c)) && c == Column::Artifact),
            old(self).knows_leading(*doc) && !legal_name(doc.object_info.extension@) ==> (r matches Err(
                DbError::IllegalString(c),
            ) && c == Column::Packaging),
            old(self).knows_leading(*doc) && old(self).names(Column::Packaging).contains_key(
                doc.object_info.extension@,
            ) && (doc.id.classifier matches Some(x) && !legal_name(x@)) ==> (r matches Err(
                DbError::IllegalString(c),
            ) && c == Column::Classifier),
            !legal_name(doc.id.artifact@) ==> r is Err,
            !legal_name(doc.object_info.extension@) ==> r is Err,
            doc.id.classifier matches Some(c) && !legal_name(c@) ==> r is Err,
            !size_fits(*doc) ==> r is Err,
            r matches Err(DbError::IllegalString(c)) ==> illegal_in(*doc, c),
            r matches Err(DbError::SizeOutOfRange(s)) ==> doc.object_info.size == Some(s) && s
                > i64::MAX,
    {
        let group_id = self.group_cache.intern(self.conn, doc.id.group.as_str())?;
        let artifact_id = self.artifact_cache.intern(self.conn, doc.id.artifact.as_str())?;
        let name_id = self.name_cache.intern_optional(self.conn, doc.name.as_ref())?;
        let desc_id = self.desc_cache.intern_optional(self.conn, doc.description.as_ref())?;
        let packaging_id = self.packaging_cache.intern_optional(
            self.conn,
            Some(&doc.object_info.packaging),
        )?;
        let ghost pkg_names = self.packaging_cache@;
        let extension_id = self.packaging_cache.intern(
            self.conn,
            doc.object_info.extension.as_str(),
        )?;
        let classifier_id = match &doc.id.classifier {
            Some(c) => Some(self.classifier_cache.intern(self.conn, c.as_str())?),
            None => None,
        };
        let size = match doc.object_info.size {
            Some(s) => {
                if s > i64::MAX as u64 {
                    return Err(DbError::SizeOutOfRange(s));
                }
                Some(s as i64)
            },
            None => None,
        };
        let checksum_hex = match &doc.checksum {
            Some(c) => Some(encode_hex(c)),
            None => None,
        };
        Ok(
            VersionRow {
                group_id,
                artifact_id,
                version: doc.id.version.clone(),
                classifier_id,
                extension_id,
                packaging_id,
                last_modified_seconds: (doc.object_info.last_modified / 1000) as i64,
                size,
                checksum_hex,
                source_attached: attached_bool(doc.object_info.source_attached),
                javadoc_attached: attached_bool(doc.object_info.javadoc_attached),
                signature_attached: attached_bool(doc.object_info.signature_attached),
                name_id,
                desc_id,
            },
        )
    }

    /// Inserts the row of a document into `versions`: the row that
    /// `resolve` gives.
    pub fn add(&mut self, doc: &Doc) -> (r: Result<(), DbError>)
        requires
            old(self).wf(),
        ensures
            final(self).wf(),
            forall|c: Column| #[trigger] old(self).names(c).submap_of(final(self).names(c)),
            doc.id.classifier is None ==> final(self).names(Column::Classifier) == old(self).names(
                Column::Classifier,
            ),
            doc.name is None ==> final(self).names(Column::Name) == old(self).names(Column::Name),
            doc.description is None ==> final(self).names(Column::Desc) == old(self).names(
                Column::Desc,
            ),
            r is Ok ==> {
                let n = |c: Column| final(self).names(c);
                &&& n(Column::Group).contains_key(doc.id.group@)
                &&& n(Column::Artifact).contains_key(doc.id.artifact@)
                &&& n(Column::Packaging).contains_key(doc.object_info.extension@)
                &&& (doc.id.classifier matches Some(c) ==> n(Column::Classifier).contains_key(c@))
            },
            !legal_name(doc.id.group@) ==> (r matches Err(DbError::IllegalString(c)) && c
                == Column::Group),
            old(self).names(Column::Group).contains_key(doc.id.group@) && !legal_name(
                doc.id.artifact@,
            ) ==> (r matches Err(DbError::IllegalString(c)) && c == Column::Artifact),
            old(self).knows_leading(*doc) && !legal_name(doc.object_info.extension@) ==> (r matches Err(
                DbError::IllegalString(c),
            ) && c == Column::Packaging),
            old(self).knows_leading(*doc) && old(self).names(Column::Packaging).contains_key(
                doc.object_info.extension@,
            ) && (doc.id.classifier matches Some(x) && !legal_name(x@)) ==> (r matches Err(
                DbError::IllegalString(c),
            ) && c == Column::Classifier),
            !legal_name(doc.id.artifact@) ==> r is Err,
            !legal_name(doc.object_info.extension@) ==> r is Err,
            doc.id.classifier matches Some(c) && !legal_name(c@) ==> r is Err,
            !size_fits(*doc) ==> r is Err,
            r matches Err(DbError::IllegalString(c)) ==> illegal_in(*doc, c),
            r matches Err(DbError::SizeOutOfRange(s)) ==> doc.object_info.size == Some(s) && s
                > i64::MAX,
    {
        let row = self.resolve(doc)?;
        match insert_version(self.conn, INSERT_VERSION, &row) {
            Ok(()) => Ok(()),
            Err(e) => Err(DbError::Store(e)),
        }
    }

    /// The versions of an artifact, in the order the store gives them.
    pub fn find_versions(&self, group: &str, artifact: &str) -> (r: Result<Vec<String>, DbError>)
        ensures
            r matches Err(e) ==> e is Store,
    {
        find_versions(self.conn, group, artifact)
    }
}

/// An error of interning the preloaded names: a failure of the store, or an
/// illegal name in a list.
pub open spec fn preload_error(e: DbError) -> bool {
    &&& !(e is SizeOutOfRange)
    &&& e matches DbError::IllegalString(c) ==> exists|i: int|
        0 <= i < preload(c).len() && !legal_name(#[trigger] preload(c)[i])
}

/// The views of a list of names.
pub open spec fn strs(v: Seq<&str>) -> Seq<Seq<char>> {
    v.map_values(|s: &str| s@)
}

/// The names that a builder interns first, column by column, so that the
/// most frequent ones have the smallest ids.
pub open spec fn preload(c: Column) -> Seq<Seq<char>> {
    match c {
        Column::Artifact => seq![
            "core"@, "parent"@, "common"@, "library"@, "metrics"@, "logging"@, "utils"@,
            "bootstrap"@, "management"@, "jenkins"@, "client"@, "prometheus"@, "commons"@, "api"@,
            "social"@, "scala-library"@, "config"@, "testing"@, "sdk"@, "project"@, "jmx"@,
            "json"@, "server"@, "model"@, "examples"@,
        ],
        Column::Group => seq![
            "com.google.apis"@, "com.amazonaws"@, "org.wso2.carbon.identity.framework"@,
            "com.lihaoyi"@, "org.apache.camel"@, "org.wso2.carbon.apimgt"@, "com.liferay"@,
            "org.apereo.cas"@, "org.webjars.npm"@,
        ],
        Column::Name => seq![
            "${project.groupId}:${project.artifactId}"@, "${project.artifactId}"@,
            "${project.groupId}.${project.artifactId}"@, "core"@, "Grails"@, "Groovy"@,
            "Apache ServiceMix :: Bundles :: ${pkgArtifactId}"@,
            "Restcomm :: Diameter Resources"@, "Restcomm :: Resources :: ${pom.artifactId}"@,
        ],
        Column::Desc => seq![
            "${project.name}"@, "Grails Web Application Framework"@,
            "Groovy: A powerful, dynamic language for the JVM"@, "core"@,
            "This is the core module of the project."@,
            "This OSGi bundle wraps ${pkgArtifactId} ${pkgVersion} jar file."@,
        ],
        _ => Seq::empty(),
    }
}

/// The names of `preload(c)`.
pub fn preload_list(c: Column) -> (r: Vec<&'static str>)
    ensures
        strs(r@) == preload(c),
{
    let r = match c {
        Column::Artifact => vec![
            "core", "parent", "common", "library", "metrics", "logging", "utils", "bootstrap",
            "management", "jenkins", "client", "prometheus", "commons", "api", "social",
            "scala-library", "config", "testing", "sdk", "project", "jmx", "json", "server", "model",
            "examples",
        ],
        Column::Group => vec![
            "com.google.apis", "com.amazonaws", "org.wso2.carbon.identity.framework",
            "com.lihaoyi", "org.apache.camel", "org.wso2.carbon.apimgt", "com.liferay",
            "org.apereo.cas", "org.webjars.npm",
        ],
        Column::Name => vec![
            "${project.groupId}:${project.artifactId}", "${project.artifactId}",
            "${project.groupId}.${project.artifactId}", "core", "Grails", "Groovy",
            "Apache ServiceMix :: Bundles :: ${pkgArtifactId}", "Restcomm :: Diameter Resources",
            "Restcomm :: Resources :: ${pom.artifactId}",
        ],
        Column::Desc => vec![
            "${project.name}", "Grails Web Application Framework",
            "Groovy: A powerful, dynamic language for the JVM", "core",
            "This is the core module of the project.",
            "This OSGi bundle wraps ${pkgArtifactId} ${pkgVersion} jar file.",
        ],
        _ => Vec::new(),
    };
    assert(strs(r@) =~= preload(c));
    r
}

fn write_examples(conn: &rusqlite::Connection, cache: &mut Interner, names: &Vec<&str>) -> (r: Result<
    (),
    DbError,
>)
    requires
        old(cache).wf(),
    ensures
        final(cache).wf(),
        final(cache).column() == old(cache).column(),
        r is Ok ==> final(cache)@.dom() == old(cache)@.dom().union(strs(names@).to_set()),
        r matches Err(e) ==> !(e is SizeOutOfRange) && (e matches DbError::IllegalString(c) ==> c
            == old(cache).column() && exists|i: int|
            0 <= i < names.len() && !legal_name(#[trigger] strs(names@)[i])),
{
    let mut i: usize = 0;
    while i < names.len()
        invariant
            cache.wf(),
            cache.column() == old(cache).column(),
            i <= names.len(),
            cache@.dom() == old(cache)@.dom().union(strs(names@.take(i as int)).to_set()),
        decreases names.len() - i,
    {
        let ghost before = cache@;
        match cache.intern(conn, names[i]) {
            Ok(_) => {},
            Err(e) => {
                assert(strs(names@)[i as int] == names@[i as int]@);
                return Err(e);
            },
        }
        proof {
            assert(strs(names@.take(i as int + 1)) =~= strs(names@.take(i as int)).push(names@[i as int]@));
            assert(cache@.dom() =~= before.dom().insert(names@[i as int]@));
            strs(names@.take(i as int)).lemma_push_to_set_commute(names@[i as int]@);
            assert(cache@.dom() =~= old(cache)@.dom().union(strs(names@.take(i as int + 1)).to_set()));
        }
        i = i + 1;
    }
    assert(names@.take(names.len() as int) =~= names@);
    Ok(())
}

/// The versions of an artifact, in the order the store gives them.
pub fn find_versions(conn: &rusqlite::Connection, group: &str, artifact: &str) -> (r: Result<
    Vec<String>,
    DbError,
>)
    ensures
        r matches Err(e) ==> e is Store,
{
    match query_strings(conn, FIND_VERSIONS, group, artifact) {
        Ok(v) => Ok(v),
        Err(e) => Err(DbError::Store(e)),
    }
}

} // verus!
