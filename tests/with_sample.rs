use nexers::nexus::Event;

fn push_field(out: &mut Vec<u8>, name: &str, value: &str) {
    out.push(0x07);
    out.extend_from_slice(&(name.len() as u16).to_be_bytes());
    out.extend_from_slice(name.as_bytes());
    out.extend_from_slice(&(value.len() as i32).to_be_bytes());
    out.extend_from_slice(value.as_bytes());
}

fn push_record(out: &mut Vec<u8>, fields: &[(&str, &str)]) {
    out.extend_from_slice(&(fields.len() as i32).to_be_bytes());
    for (name, value) in fields {
        push_field(out, name, value);
    }
}

fn tiny_file() -> Vec<u8> {
    let mut out = vec![1, 0, 0, 0, 0, 0, 0, 0, 0];
    push_record(
        &mut out,
        &[
            ("u", "yom|yom|1.0-alpha-2|NA"),
            ("i", "jar|1234000|-1|0|0|0|jar"),
            ("m", "1234"),
        ],
    );
    push_record(
        &mut out,
        &[
            ("u", "yom|yom|1.0-alpha-1|NA"),
            ("i", "jar|1234000|-1|0|0|0|jar"),
            ("m", "1234"),
        ],
    );
    out
}

#[test]
fn load() {
    let events = nexers::nexus::read(&tiny_file()).unwrap();

    assert_eq!(2, events.len());

    let d = match &events[0] {
        Event::Doc(d) => d,
        other => panic!("unexpected event: {:?}", other),
    };

    assert_eq!("yom", d.id.group);
    assert_eq!("yom", d.id.artifact);
    assert_eq!("1.0-alpha-2", d.id.version);
    assert_eq!(None, d.id.classifier);
    assert_eq!("jar", d.object_info.packaging);

    let d = match &events[1] {
        Event::Doc(d) => d,
        other => panic!("unexpected event: {:?}", other),
    };

    assert_eq!("yom", d.id.group);
    assert_eq!("yom", d.id.artifact);
    assert_eq!("1.0-alpha-1", d.id.version);
    assert_eq!(None, d.id.classifier);
    assert_eq!("jar", d.object_info.packaging);
}
