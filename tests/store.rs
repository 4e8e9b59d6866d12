use nexers::db::{
    attached_bool, empty_filter, find_versions, preload_list, stored_id, Column, DbBuilder,
    DbError, InsertFailure, Interner, SCHEMA,
};
use nexers::doc::{AttachmentStatus, Doc, DocError, FullInfo, UniqId};
use nexers::ingest::{outcome, route, IngestError};
use nexers::nexus::Event;

fn connection() -> rusqlite::Connection {
    let conn = rusqlite::Connection::open_in_memory().unwrap();
    conn.execute_batch(SCHEMA).unwrap();
    conn
}

fn doc(group: &str, artifact: &str, version: &str, classifier: Option<&str>) -> Doc {
    Doc {
        id: UniqId {
            group: group.to_string(),
            artifact: artifact.to_string(),
            version: version.to_string(),
            classifier: classifier.map(|c| c.to_string()),
            extension: None,
        },
        object_info: FullInfo {
            packaging: "jar".to_string(),
            last_modified: 1_634_567_890_999,
            size: Some(2_500),
            source_attached: AttachmentStatus::Absent,
            javadoc_attached: AttachmentStatus::Present,
            signature_attached: AttachmentStatus::Unavailable,
            extension: "jar".to_string(),
        },
        modified: 1_634_567_899_999,
        name: Some("Guava".to_string()),
        description: None,
        checksum: None,
    }
}

fn count(conn: &rusqlite::Connection, sql: &str) -> i64 {
    conn.query_row(sql, (), |r| r.get(0)).unwrap()
}

#[test]
fn duplicate_strings_share_one_id() {
    let conn = connection();
    let mut db = DbBuilder::new(&conn).unwrap();
    db.add(&doc("com.google.guava", "guava", "31.0.1-jre", None)).unwrap();
    db.add(&doc("com.google.guava", "guava-testlib", "31.0.1-jre", None)).unwrap();
    assert_eq!(
        1,
        count(&conn, "select count(*) from group_names where name='com.google.guava'")
    );
    assert_eq!(1, count(&conn, "select count(distinct group_id) from versions"));
    assert_eq!(2, count(&conn, "select count(*) from versions"));
}

#[test]
fn find_versions_of_an_artifact() {
    let conn = connection();
    let mut db = DbBuilder::new(&conn).unwrap();
    db.add(&doc("com.google.guava", "guava", "31.0.1-jre", None)).unwrap();
    db.add(&doc("com.google.guava", "guava", "32.0.0-jre", None)).unwrap();
    db.add(&doc("com.google.guava", "failureaccess", "1.0.1", None)).unwrap();
    let mut found = db.find_versions("com.google.guava", "guava").unwrap();
    found.sort();
    assert_eq!(vec!["31.0.1-jre".to_string(), "32.0.0-jre".to_string()], found);
    let mut found = find_versions(&conn, "com.google.guava", "guava").unwrap();
    found.sort();
    assert_eq!(vec!["31.0.1-jre".to_string(), "32.0.0-jre".to_string()], found);
    assert!(find_versions(&conn, "org.nowhere", "guava").unwrap().is_empty());
}

#[test]
fn absent_classifier_has_no_id() {
    let conn = connection();
    let mut db = DbBuilder::new(&conn).unwrap();
    let row = db.resolve(&doc("g", "a", "1", None)).unwrap();
    assert_eq!(None, row.classifier_id);
    db.add(&doc("g", "a", "1", None)).unwrap();
    assert_eq!(1, count(&conn, "select count(*) from versions where classifier_id is null"));
    let row = db.resolve(&doc("g", "a", "1", Some("sources"))).unwrap();
    assert!(row.classifier_id.is_some());
}

#[test]
fn empty_or_null_classifier_is_illegal() {
    let conn = connection();
    let mut db = DbBuilder::new(&conn).unwrap();
    let err = db.add(&doc("g", "a", "1", Some(""))).unwrap_err();
    assert!(matches!(err, DbError::IllegalString(Column::Classifier)));
    let err = db.add(&doc("g", "a", "1", Some("null"))).unwrap_err();
    assert!(matches!(err, DbError::IllegalString(Column::Classifier)));
    let err = db.add(&doc("g", "a", "1", Some(" null "))).unwrap_err();
    assert!(matches!(err, DbError::IllegalString(Column::Classifier)));
    assert_eq!(0, count(&conn, "select count(*) from versions"));
}

#[test]
fn illegal_group_is_refused() {
    let conn = connection();
    let mut db = DbBuilder::new(&conn).unwrap();
    let err = db.add(&doc("  ", "a", "1", None)).unwrap_err();
    assert!(matches!(err, DbError::IllegalString(Column::Group)));
}

#[test]
fn row_values() {
    let conn = connection();
    let mut db = DbBuilder::new(&conn).unwrap();
    let mut d = doc("g", "a", "1", None);
    d.checksum = Some([
        0x01, 0x23, 0x45, 0x67, 0x89, 0xab, 0xcd, 0xef, 0x00, 0xff, 0x10, 0x20, 0x30, 0x40, 0x50,
        0x60, 0x70, 0x80, 0x90, 0xa0,
    ]);
    let row = db.resolve(&d).unwrap();
    assert_eq!(1_634_567_890, row.last_modified_seconds);
    assert_eq!(Some(2_500), row.size);
    assert_eq!(
        Some("0123456789abcdef00ff102030405060708090a0".to_string()),
        row.checksum_hex
    );
    assert_eq!(Some(false), row.source_attached);
    assert_eq!(Some(true), row.javadoc_attached);
    assert_eq!(None, row.signature_attached);
    assert!(row.name_id.is_some());
    assert_eq!(None, row.desc_id);
    assert_eq!(row.extension_id, row.packaging_id.unwrap());
    assert_eq!("1", row.version);
}

#[test]
fn stored_seconds_are_floored() {
    let conn = connection();
    let mut db = DbBuilder::new(&conn).unwrap();
    let mut d = doc("g", "a", "1", None);
    d.object_info.last_modified = 1_999;
    db.add(&d).unwrap();
    assert_eq!(1, count(&conn, "select last_modified_seconds from versions"));
}

#[test]
fn size_absent_or_stored() {
    let conn = connection();
    let mut db = DbBuilder::new(&conn).unwrap();
    let mut d = doc("g", "a", "1", None);
    d.object_info.size = None;
    db.add(&d).unwrap();
    d.object_info.size = Some(12);
    db.add(&d).unwrap();
    assert_eq!(1, count(&conn, "select count(*) from versions where size is null"));
    assert_eq!(1, count(&conn, "select count(*) from versions where size = 12"));
    d.object_info.size = Some(u64::MAX);
    assert!(matches!(db.add(&d).unwrap_err(), DbError::SizeOutOfRange(u64::MAX)));
}

#[test]
fn optional_names_that_are_empty_are_absent() {
    let conn = connection();
    let mut db = DbBuilder::new(&conn).unwrap();
    let mut d = doc("g", "a", "1", None);
    d.name = Some("null".to_string());
    d.description = Some(" ".to_string());
    let row = db.resolve(&d).unwrap();
    assert_eq!(None, row.name_id);
    assert_eq!(None, row.desc_id);
}

#[test]
fn interned_id_selects_its_name() {
    let conn = connection();
    let _db = DbBuilder::new(&conn).unwrap();
    let mut names = Interner::new(Column::Group);
    let id = names.intern(&conn, "org.example").unwrap();
    let stored: String = conn
        .query_row("select name from group_names where id = ?", (id,), |r| r.get(0))
        .unwrap();
    assert_eq!("org.example", stored);
    assert_eq!(id, names.intern(&conn, "org.example").unwrap());
}

#[test]
fn different_strings_get_different_ids() {
    let conn = connection();
    let _db = DbBuilder::new(&conn).unwrap();
    let mut names = Interner::new(Column::Artifact);
    let a = names.intern(&conn, "core").unwrap();
    let b = names.intern(&conn, " core").unwrap();
    let c = names.intern(&conn, "guava").unwrap();
    assert_ne!(a, b);
    assert_ne!(a, c);
    assert_ne!(b, c);
}

#[test]
fn existing_name_is_found_after_a_conflict() {
    let conn = connection();
    let _db = DbBuilder::new(&conn).unwrap();
    conn.execute("insert into classifier_names (id, name) values (77, 'tests')", ())
        .unwrap();
    let mut names = Interner::new(Column::Classifier);
    assert_eq!(77, names.intern(&conn, "tests").unwrap());
}

#[test]
fn frequent_names_come_first() {
    let conn = connection();
    let _db = DbBuilder::new(&conn).unwrap();
    assert_eq!(1, count(&conn, "select id from artifact_names where name='core'"));
    assert_eq!(1, count(&conn, "select id from group_names where name='com.google.apis'"));
}

#[test]
fn k_docs_give_k_rows() {
    let conn = connection();
    let mut db = DbBuilder::new(&conn).unwrap();
    for v in 0..5 {
        db.add(&doc("g", "a", &v.to_string(), None)).unwrap();
    }
    assert_eq!(5, count(&conn, "select count(*) from versions"));
}

#[test]
fn store_failure_is_reported() {
    let conn = rusqlite::Connection::open_in_memory().unwrap();
    let mut db = DbBuilder::new(&conn).unwrap();
    assert!(matches!(db.add(&doc("g", "a", "1", None)).unwrap_err(), DbError::Store(_)));
}

#[test]
fn flag_and_filter_helpers() {
    assert_eq!(Some(false), attached_bool(AttachmentStatus::Absent));
    assert_eq!(Some(true), attached_bool(AttachmentStatus::Present));
    assert_eq!(None, attached_bool(AttachmentStatus::Unavailable));
    assert!(empty_filter("x"));
    assert!(!empty_filter(""));
    assert!(!empty_filter("null"));
    assert!(empty_filter(" null"));
}

#[test]
fn pipeline_routes_and_outcomes() {
    let d = doc("g", "a", "1", None);
    assert!(matches!(route(Event::Doc(d)), Ok(Some(_))));
    let id = doc("g", "a", "1", None).id;
    assert!(matches!(route(Event::Delete(id)), Ok(None)));
    let failed = route(Event::Error {
        error: DocError::Modified,
        raw: vec![],
    });
    assert!(matches!(
        failed,
        Err(IngestError::Record { error: DocError::Modified, .. })
    ));

    assert!(matches!(outcome::<u8>(None, Ok(())), Err(IngestError::Panicked)));
    assert!(matches!(
        outcome::<u8>(Some(Err(DbError::MissingName(Column::Group))), Err(IngestError::QueueClosed)),
        Err(IngestError::Store(DbError::MissingName(Column::Group)))
    ));
    assert!(matches!(outcome(Some(Ok(7u8)), Err(IngestError::QueueClosed)), Err(IngestError::QueueClosed)));
    assert!(matches!(outcome(Some(Ok(7u8)), Ok(())), Ok(7)));
}

#[test]
fn duplicate_insert_takes_the_found_id() {
    assert!(matches!(stored_id(Column::Group, Ok(5), None), Ok(5)));
    assert!(matches!(
        stored_id(Column::Group, Err(InsertFailure::Duplicate), Some(Ok(Some(9)))),
        Ok(9)
    ));
    assert!(matches!(
        stored_id(Column::Desc, Err(InsertFailure::Duplicate), Some(Ok(None))),
        Err(DbError::MissingName(Column::Desc))
    ));
    assert!(matches!(
        stored_id(
            Column::Desc,
            Err(InsertFailure::Duplicate),
            Some(Err(rusqlite::Error::QueryReturnedNoRows))
        ),
        Err(DbError::Store(_))
    ));
    assert!(matches!(
        stored_id(Column::Name, Err(InsertFailure::Store(rusqlite::Error::InvalidQuery)), None),
        Err(DbError::Store(_))
    ));
}

#[test]
fn statements_name_the_column_table() {
    assert_eq!(
        "create table if not exists packaging_names (id integer primary key, name varchar not null unique)",
        Column::Packaging.create_sql()
    );
    assert_eq!("insert into desc_names (name) values (?)", Column::Desc.insert_sql());
    assert_eq!("select id from group_names where name=?", Column::Group.select_sql());
}

#[test]
fn preload_lists() {
    assert_eq!(25, preload_list(Column::Artifact).len());
    assert_eq!("com.google.apis", preload_list(Column::Group)[0]);
    assert!(preload_list(Column::Classifier).is_empty());
}

#[test]
fn builder_runs_twice_on_one_store() {
    let conn = connection();
    let _first = DbBuilder::new(&conn).unwrap();
    let mut second = DbBuilder::new(&conn).unwrap();
    second.add(&doc("com.amazonaws", "core", "1", None)).unwrap();
    assert_eq!(2, count(&conn, "select group_id from versions"));
}
