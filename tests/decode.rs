use nexers::doc::{classify, AttachmentStatus, DocError, Name};
use nexers::nexus::{read, DecodeError, Decoder, Event, FrameError};
use nexers::text::{parse_u64, split_pipe, text_eq};

const HEADER: [u8; 9] = [1, 0, 0, 1, 0x7f, 0, 0, 0, 5];

fn field_bytes(out: &mut Vec<u8>, flags: u8, name: &[u8], value: &[u8]) {
    out.push(flags);
    out.extend_from_slice(&(name.len() as u16).to_be_bytes());
    out.extend_from_slice(name);
    out.extend_from_slice(&(value.len() as i32).to_be_bytes());
    out.extend_from_slice(value);
}

fn record(out: &mut Vec<u8>, fields: &[(&str, &str)]) {
    out.extend_from_slice(&(fields.len() as i32).to_be_bytes());
    for (name, value) in fields {
        field_bytes(out, 0x05, name.as_bytes(), value.as_bytes());
    }
}

fn stream(records: &[&[(&str, &str)]]) -> Vec<u8> {
    let mut out = HEADER.to_vec();
    for r in records {
        record(&mut out, r);
    }
    out
}

const U: (&str, &str) = ("u", "com.google.guava|guava|31.0.1-jre|NA");
const I: (&str, &str) = ("i", "jar|1634567890123|3000000|1|1|2|jar");
const M: (&str, &str) = ("m", "1634567899999");

fn only_doc(bytes: &[u8]) -> nexers::nexus::Doc {
    let mut events = read(bytes).unwrap();
    assert_eq!(1, events.len());
    match events.pop().unwrap() {
        Event::Doc(d) => d,
        other => panic!("unexpected event: {:?}", other),
    }
}

fn only_error(bytes: &[u8]) -> (DocError, Vec<(Name, String)>) {
    let mut events = read(bytes).unwrap();
    assert_eq!(1, events.len());
    match events.pop().unwrap() {
        Event::Error { error, raw } => (error, raw),
        other => panic!("unexpected event: {:?}", other),
    }
}

#[test]
fn doc_fields_are_parsed() {
    let d = only_doc(&stream(&[&[
        U,
        I,
        M,
        ("n", "Guava"),
        ("d", "Google core libraries"),
        ("1", "0123456789abcdefABCDEF0123456789abcdef01"),
    ]]));
    assert_eq!("com.google.guava", d.id.group);
    assert_eq!("guava", d.id.artifact);
    assert_eq!("31.0.1-jre", d.id.version);
    assert_eq!(None, d.id.classifier);
    assert_eq!(None, d.id.extension);
    assert_eq!("jar", d.object_info.packaging);
    assert_eq!(1634567890123, d.object_info.last_modified);
    assert_eq!(Some(3000000), d.object_info.size);
    assert_eq!(AttachmentStatus::Present, d.object_info.source_attached);
    assert_eq!(AttachmentStatus::Present, d.object_info.javadoc_attached);
    assert_eq!(AttachmentStatus::Unavailable, d.object_info.signature_attached);
    assert_eq!("jar", d.object_info.extension);
    assert_eq!(1634567899999, d.modified);
    assert_eq!(Some("Guava".to_string()), d.name);
    assert_eq!(Some("Google core libraries".to_string()), d.description);
    assert_eq!(
        Some([
            0x01, 0x23, 0x45, 0x67, 0x89, 0xab, 0xcd, 0xef, 0xab, 0xcd, 0xef, 0x01, 0x23, 0x45,
            0x67, 0x89, 0xab, 0xcd, 0xef, 0x01
        ]),
        d.checksum
    );
}

#[test]
fn classifier_and_extension_parts() {
    let d = only_doc(&stream(&[&[("u", "g|a|1.0|sources|jar"), I, M]]));
    assert_eq!(Some("sources".to_string()), d.id.classifier);
    assert_eq!(Some("jar".to_string()), d.id.extension);
}

#[test]
fn parts_after_the_extension_are_ignored() {
    let d = only_doc(&stream(&[&[("u", "g|a|1|c|e|x"), I, M]]));
    assert_eq!(Some("c".to_string()), d.id.classifier);
    assert_eq!(Some("e".to_string()), d.id.extension);
}

#[test]
fn later_field_of_a_name_wins() {
    let d = only_doc(&stream(&[&[U, I, M, ("m", "7")]]));
    assert_eq!(7, d.modified);
}

#[test]
fn empty_input_after_header() {
    let events = read(&HEADER).unwrap();
    assert!(events.is_empty());
}

#[test]
fn trailing_partial_record_is_fatal() {
    let mut bytes = stream(&[&[U, I, M]]);
    let offset = bytes.len();
    bytes.extend_from_slice(&[0, 0, 0, 3, 0x05, 0, 1]);
    let err = read(&bytes).unwrap_err();
    assert_eq!(
        DecodeError { offset, field: Some(0), kind: FrameError::Truncated },
        err
    );
}

#[test]
fn truncated_field_count() {
    let mut bytes = HEADER.to_vec();
    bytes.extend_from_slice(&[0, 0]);
    let err = read(&bytes).unwrap_err();
    assert_eq!(DecodeError { offset: 9, field: None, kind: FrameError::Truncated }, err);
}

#[test]
fn bad_version_byte() {
    let mut bytes = HEADER.to_vec();
    bytes[0] = 2;
    assert_eq!(
        DecodeError { offset: 0, field: None, kind: FrameError::Version(2) },
        read(&bytes).unwrap_err()
    );
    bytes[0] = 0xff;
    assert_eq!(
        DecodeError { offset: 0, field: None, kind: FrameError::Version(-1) },
        read(&bytes).unwrap_err()
    );
}

#[test]
fn short_header() {
    assert_eq!(FrameError::Truncated, read(&[]).unwrap_err().kind);
    assert_eq!(FrameError::Truncated, read(&[1, 0, 0, 0]).unwrap_err().kind);
}

#[test]
fn negative_field_count() {
    let mut bytes = HEADER.to_vec();
    bytes.extend_from_slice(&(-1i32).to_be_bytes());
    assert_eq!(
        DecodeError { offset: 9, field: None, kind: FrameError::FieldCount(-1) },
        read(&bytes).unwrap_err()
    );
}

#[test]
fn unknown_flag_bits() {
    let mut bytes = HEADER.to_vec();
    bytes.extend_from_slice(&1i32.to_be_bytes());
    field_bytes(&mut bytes, 0x10, b"u", b"x");
    assert_eq!(
        DecodeError { offset: 9, field: Some(0), kind: FrameError::Flags(0x10) },
        read(&bytes).unwrap_err()
    );
}

#[test]
fn all_known_flags_are_accepted() {
    let mut bytes = HEADER.to_vec();
    bytes.extend_from_slice(&1i32.to_be_bytes());
    field_bytes(&mut bytes, 0x0f, b"x", b"y");
    let (error, raw) = only_error(&bytes);
    assert_eq!(DocError::UnrecognisedDocType, error);
    assert_eq!(vec![(Name::Other("x".to_string()), "y".to_string())], raw);
}

#[test]
fn empty_field_name() {
    let mut bytes = HEADER.to_vec();
    bytes.extend_from_slice(&2i32.to_be_bytes());
    field_bytes(&mut bytes, 0, b"n", b"x");
    field_bytes(&mut bytes, 0, b"", b"x");
    assert_eq!(
        DecodeError { offset: 9, field: Some(1), kind: FrameError::EmptyName },
        read(&bytes).unwrap_err()
    );
}

#[test]
fn negative_value_length() {
    let mut bytes = HEADER.to_vec();
    bytes.extend_from_slice(&1i32.to_be_bytes());
    bytes.extend_from_slice(&[0, 0, 1, b'u']);
    bytes.extend_from_slice(&(-5i32).to_be_bytes());
    assert_eq!(
        DecodeError { offset: 9, field: Some(0), kind: FrameError::ValueLength(-5) },
        read(&bytes).unwrap_err()
    );
}

#[test]
fn invalid_text_is_fatal() {
    let mut bytes = HEADER.to_vec();
    bytes.extend_from_slice(&1i32.to_be_bytes());
    field_bytes(&mut bytes, 0, b"u", &[0xff, 0xfe]);
    assert_eq!(
        DecodeError { offset: 9, field: Some(0), kind: FrameError::InvalidText },
        read(&bytes).unwrap_err()
    );
}

#[test]
fn modified_utf8_text() {
    let mut bytes = HEADER.to_vec();
    bytes.extend_from_slice(&2i32.to_be_bytes());
    field_bytes(&mut bytes, 0, b"ab", &[b'a', 0xc0, 0x80, b'b']);
    field_bytes(&mut bytes, 0, "n\u{e9}".as_bytes(), &[0xed, 0xa0, 0x81, 0xed, 0xb0, 0x81]);
    let (_, raw) = only_error(&bytes);
    assert_eq!(
        vec![
            (Name::Other("ab".to_string()), "a\u{0}b".to_string()),
            (Name::Other("n\u{e9}".to_string()), "\u{10401}".to_string()),
        ],
        raw
    );
}

#[test]
fn one_byte_names() {
    let mut bytes = HEADER.to_vec();
    bytes.extend_from_slice(&2i32.to_be_bytes());
    field_bytes(&mut bytes, 0, b"x", b"1");
    field_bytes(&mut bytes, 0, b"1", b"3");
    let (_, raw) = only_error(&bytes);
    assert_eq!(
        vec![
            (Name::Other("x".to_string()), "1".to_string()),
            (Name::Checksum, "3".to_string()),
        ],
        raw
    );
}

#[test]
fn one_byte_name_outside_ascii_is_fatal() {
    let mut bytes = HEADER.to_vec();
    bytes.extend_from_slice(&1i32.to_be_bytes());
    field_bytes(&mut bytes, 0, &[0xe9], b"2");
    assert_eq!(
        DecodeError { offset: 9, field: Some(0), kind: FrameError::InvalidText },
        read(&bytes).unwrap_err()
    );
}

#[test]
fn deletion_record() {
    let mut events = read(&stream(&[&[("del", "org.example|lib|2.0|NA|jar")]])).unwrap();
    assert_eq!(1, events.len());
    match events.pop().unwrap() {
        Event::Delete(id) => {
            assert_eq!("org.example", id.group);
            assert_eq!("lib", id.artifact);
            assert_eq!("2.0", id.version);
            assert_eq!(None, id.classifier);
            assert_eq!(Some("jar".to_string()), id.extension);
        }
        other => panic!("unexpected event: {:?}", other),
    }
}

#[test]
fn malformed_deletion_is_an_error_event() {
    let (error, raw) = only_error(&stream(&[&[("del", "org.example|lib")]]));
    assert_eq!(DocError::UniqParts, error);
    assert_eq!(vec![(Name::Other("del".to_string()), "org.example|lib".to_string())], raw);
}

#[test]
fn metadata_record_is_skipped() {
    let events = read(&stream(&[
        &[("DESCRIPTOR", "NexusIndex"), ("IDXINFO", "1.0|index")],
        &[("rootGroups", "com|org"), ("rootGroupsList", "com|org")],
        &[("allGroups", "allGroups"), ("allGroupsList", "com.google.guava")],
    ]))
    .unwrap();
    assert!(events.is_empty());
}

#[test]
fn metadata_with_another_field_is_not_skipped() {
    let (error, _) = only_error(&stream(&[&[
        ("DESCRIPTOR", "NexusIndex"),
        ("IDXINFO", "1.0|index"),
        ("n", "x"),
    ]]));
    assert_eq!(DocError::UnrecognisedDocType, error);
}

#[test]
fn malformed_doc_does_not_stop_the_stream() {
    let events = read(&stream(&[&[U, M], &[U, I, M]])).unwrap();
    assert_eq!(2, events.len());
    match &events[0] {
        Event::Error { error, raw } => {
            assert_eq!(DocError::UnrecognisedDocType, *error);
            assert_eq!(2, raw.len());
            assert_eq!(Name::U, raw[0].0);
            assert_eq!(Name::M, raw[1].0);
        }
        other => panic!("unexpected event: {:?}", other),
    }
    assert!(matches!(events[1], Event::Doc(_)));
}

#[test]
fn malformed_checksum_is_dropped() {
    let d = only_doc(&stream(&[&[U, I, M, ("1", "not-a-digest")]]));
    assert_eq!(None, d.checksum);
    let d = only_doc(&stream(&[&[U, I, M, ("1", "0123456789abcdef0123456789abcdef012345")]]));
    assert_eq!(None, d.checksum);
}

#[test]
fn size_minus_one_is_absent() {
    let d = only_doc(&stream(&[&[U, ("i", "pom|5|-1|0|0|0|pom"), M]]));
    assert_eq!(None, d.object_info.size);
    let d = only_doc(&stream(&[&[U, ("i", "pom|5|0|0|0|0|pom"), M]]));
    assert_eq!(Some(0), d.object_info.size);
    let d = only_doc(&stream(&[&[U, ("i", "pom|5|+18446744073709551615|0|0|0|pom"), M]]));
    assert_eq!(Some(u64::MAX), d.object_info.size);
}

#[test]
fn doc_errors() {
    let cases: Vec<(Vec<(&str, &str)>, DocError)> = vec![
        (vec![("u", "g|a|1.0"), I, M], DocError::UniqParts),
        (vec![U, ("i", "jar|1|2|0|0|0"), I, M], DocError::InfoParts),
        (vec![U, ("i", "jar|1|2|0|0|0|jar|x"), M], DocError::InfoParts),
        (vec![U, ("i", "jar|soon|2|0|0|0|jar"), M], DocError::LastModified),
        (vec![U, ("i", "jar|1|-2|0|0|0|jar"), M], DocError::Size),
        (vec![U, ("i", "jar|1|18446744073709551616|0|0|0|jar"), M], DocError::Size),
        (vec![U, ("i", "jar|1|2|3|0|0|jar"), M], DocError::Attachment),
        (vec![U, ("i", "jar|1|2|0|0|x|jar"), M], DocError::Attachment),
        (vec![U, I, ("m", "-4")], DocError::Modified),
        (vec![U, I, ("m", "")], DocError::Modified),
    ];
    for (fields, expected) in cases {
        let (error, raw) = only_error(&stream(&[&fields]));
        assert_eq!(expected, error);
        assert_eq!(fields.len(), raw.len());
    }
}

#[test]
fn classify_one_record() {
    let fields = vec![
        (Name::U, "g|a|1|NA".to_string()),
        (Name::I, "jar|1|-1|0|1|2|jar".to_string()),
        (Name::M, "9".to_string()),
    ];
    match classify(fields) {
        Some(Event::Doc(d)) => {
            assert_eq!("g", d.id.group);
            assert_eq!(AttachmentStatus::Absent, d.object_info.source_attached);
        }
        other => panic!("unexpected event: {:?}", other),
    }
    assert!(classify(vec![]).is_some());
}

#[test]
fn decoder_streams_events() {
    let mut bytes = stream(&[&[U, I, M], &[("DESCRIPTOR", "x"), ("IDXINFO", "y")], &[U, M]]);
    bytes.push(0);
    let mut d = Decoder::new(&bytes).unwrap();
    assert!(matches!(d.next_event(), Ok(Some(Event::Doc(_)))));
    assert!(matches!(d.next_event(), Ok(Some(Event::Error { .. }))));
    assert_eq!(FrameError::Truncated, d.next_event().unwrap_err().kind);
}

#[test]
fn decoder_ends_cleanly() {
    let bytes = stream(&[&[U, I, M]]);
    let mut d = Decoder::new(&bytes).unwrap();
    assert!(matches!(d.next_event(), Ok(Some(Event::Doc(_)))));
    assert!(matches!(d.next_event(), Ok(None)));
}

#[test]
fn error_record_reencodes_to_its_bytes() {
    let fields: &[(&str, &str)] = &[("u", "g|a"), ("zz", "value")];
    let mut expected = Vec::new();
    record(&mut expected, fields);
    let (_, raw) = only_error(&stream(&[fields]));
    let names: Vec<String> = raw
        .iter()
        .map(|(n, _)| match n {
            Name::U => "u".to_string(),
            Name::Other(s) => s.clone(),
            other => panic!("unexpected name: {:?}", other),
        })
        .collect();
    let pairs: Vec<(&str, &str)> =
        names.iter().zip(raw.iter()).map(|(n, (_, v))| (n.as_str(), v.as_str())).collect();
    let mut again = Vec::new();
    record(&mut again, &pairs);
    assert_eq!(expected, again);
}

#[test]
fn decimal_parsing() {
    assert_eq!(Some(5), parse_u64("+5"));
    assert_eq!(Some(0), parse_u64("000"));
    assert_eq!(Some(u64::MAX), parse_u64("18446744073709551615"));
    assert_eq!(None, parse_u64("18446744073709551616"));
    assert_eq!(None, parse_u64(""));
    assert_eq!(None, parse_u64("+"));
    assert_eq!(None, parse_u64("-1"));
    assert_eq!(None, parse_u64(" 1"));
    assert_eq!(None, parse_u64("1x"));
}

#[test]
fn pipe_splitting() {
    assert_eq!(vec!["a", "", "b"], split_pipe("a||b"));
    assert_eq!(vec![""], split_pipe(""));
    assert_eq!(vec!["", ""], split_pipe("|"));
    assert!(text_eq("NA", "NA"));
    assert!(!text_eq("NA", "na"));
}
