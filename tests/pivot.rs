use nexers::doc::{AttachmentStatus, Doc, FullInfo, UniqId};
use nexers::java::{DataInput, InputError};
use nexers::pivot::{Db, PivotError, StringPool};

fn pivot_doc(group: &str, artifact: &str, version: &str, classifier: Option<&str>) -> Doc {
    Doc {
        id: UniqId {
            group: group.to_string(),
            artifact: artifact.to_string(),
            version: version.to_string(),
            classifier: classifier.map(|c| c.to_string()),
            extension: Some("jar".to_string()),
        },
        object_info: FullInfo {
            packaging: "jar".to_string(),
            last_modified: 1,
            size: None,
            source_attached: AttachmentStatus::Absent,
            javadoc_attached: AttachmentStatus::Absent,
            signature_attached: AttachmentStatus::Absent,
            extension: "jar".to_string(),
        },
        modified: 2,
        name: None,
        description: None,
        checksum: None,
    }
}

#[test]
fn pivot_finds_versions_in_order() {
    let mut db = Db::default();
    db.add(&pivot_doc("com.google.guava", "guava", "31.0.1-jre", None)).unwrap();
    db.add(&pivot_doc("com.google.guava", "guava", "32.0.0-jre", None)).unwrap();
    db.add(&pivot_doc("com.google.guava", "guava", "31.0.1-jre", Some("sources"))).unwrap();
    db.add(&pivot_doc("com.google.guava", "failureaccess", "1.0.1", None)).unwrap();
    db.add(&pivot_doc("org.example", "guava", "9", None)).unwrap();
    assert_eq!(
        vec!["31.0.1-jre".to_string(), "32.0.0-jre".to_string()],
        db.find_versions("com.google.guava", "guava").unwrap()
    );
    assert_eq!(vec!["9".to_string()], db.find_versions("org.example", "guava").unwrap());
    assert_eq!((2, 2, 2, 4), db.stats());
}

#[test]
fn pivot_same_doc_twice() {
    let mut db = Db::new();
    let d = pivot_doc("g", "a", "1", Some("sources"));
    db.add(&d).unwrap();
    db.add(&d).unwrap();
    assert_eq!(vec!["1".to_string()], db.find_versions("g", "a").unwrap());
    assert_eq!((1, 1, 1, 1), db.stats());
}

#[test]
fn pivot_errors() {
    let mut db = Db::new();
    db.add(&pivot_doc("g", "a", "1", None)).unwrap();
    db.add(&pivot_doc("h", "b", "1", None)).unwrap();
    assert_eq!(Err(PivotError::NoSuchGroup), db.find_versions("x", "a"));
    assert_eq!(Err(PivotError::NoSuchArtifact), db.find_versions("g", "x"));
    assert_eq!(Err(PivotError::NotInGroup), db.find_versions("g", "b"));
}

#[test]
fn string_pool_ids() {
    let mut pool = StringPool::new();
    assert_eq!(0, pool.len());
    assert_eq!(1, pool.insert("a"));
    assert_eq!(2, pool.insert("b"));
    assert_eq!(1, pool.insert("a"));
    assert_eq!(0, pool.insert_option(None));
    assert_eq!(3, pool.insert_option(Some(&"c".to_string())));
    assert_eq!(Some(2), pool.get("b"));
    assert_eq!(None, pool.get("z"));
    assert_eq!(Some("c"), pool.invert(3));
    assert_eq!(None, pool.invert(0));
    assert_eq!(None, pool.invert(4));
    assert_eq!(3, pool.len());
}

#[test]
fn data_input_reads_big_endian() {
    let bytes = [
        0xff, 0x12, 0x34, 0xff, 0xff, 0xff, 0xfe, 0x00, 0x00, 0x00, 0x00, 0x00, 0x00, 0x01, 0x00,
        b'h', b'i',
    ];
    let mut input = DataInput::new(&bytes);
    assert_eq!(Ok(-1), input.read_byte());
    assert_eq!(Ok(0x1234), input.read_unsigned_short());
    assert_eq!(Ok(-2), input.read_int());
    assert_eq!(Ok(256), input.read_long());
    assert!(!input.check_eof());
    assert_eq!(Ok("hi".to_string()), input.read_utf8(2));
    assert!(input.check_eof());
    assert_eq!(Err(InputError::Truncated), input.read_byte());
    assert_eq!(Err(InputError::Truncated), input.read_utf8(1));
    assert_eq!(Ok(String::new()), input.read_utf8(0));
}

#[test]
fn data_input_rejects_bad_text() {
    let bytes = [0xc0, 0x81];
    let mut input = DataInput::new(&bytes);
    assert_eq!(Err(InputError::InvalidText), input.read_utf8(2));
}
