use interflux::parser::{
    delimiter_to_equal_sign, field, fields, get_measurement_name, get_timestamp, measurement,
    parse, tag, tags, until_terminator,
};

#[test]
fn check_until_terminator_with_comma() {
    let t = b"requests,method=GET";
    match until_terminator(t) {
        Some((remaining, value)) => {
            assert_eq!(value, b"requests");
            assert_eq!(remaining[0], b',');
        }
        None => panic!("no terminator found"),
    };
}

#[test]
fn check_until_terminator_with_space() {
    let t = b"requests count=1i";
    match until_terminator(t) {
        Some((remaining, value)) => {
            assert_eq!(value, b"requests");
            assert_eq!(remaining[0], b' ');
        }
        None => panic!("no terminator found"),
    };
}

#[test]
fn check_until_terminator_with_newline() {
    let t = b"requests\n";
    match until_terminator(t) {
        Some((remaining, value)) => {
            assert_eq!(value, b"requests");
            assert_eq!(remaining[0], b'\n');
        }
        None => panic!("no terminator found"),
    };
}

#[test]
fn check_delimiter_to_equal_sign() {
    let t = b",method=GET\n";
    match delimiter_to_equal_sign(t) {
        Some((_remaining, value)) => {
            assert_eq!(value, b"method");
        }
        None => panic!("no key found"),
    };
}

#[test]
fn check_field_with_trailing_space() {
    let t = b"method=GET ";
    match field(t) {
        Some((_remaining, (name, value))) => {
            assert_eq!(name, b"method");
            assert_eq!(value, b"GET");
        }
        None => panic!("no field found"),
    };
}

#[test]
fn check_field_with_trailing_comma() {
    let t = b"method=GET,";
    match field(t) {
        Some((_remaining, (name, value))) => {
            assert_eq!(name, b"method");
            assert_eq!(value, b"GET");
        }
        None => panic!("no field found"),
    };
}

#[test]
fn check_field_with_leading_comma_and_trailing_comma() {
    let t = b",method=GET,";
    match field(t) {
        Some((_remaining, (name, value))) => {
            assert_eq!(name, b"method");
            assert_eq!(value, b"GET");
        }
        None => panic!("no field found"),
    };
}

#[test]
fn check_measurement() {
    let t = b"requests count=1 1234567890\n";
    match measurement(t) {
        Some((remaining, value)) => {
            assert_eq!(value, b"requests");
            assert_eq!(remaining, b" count=1 1234567890\n");
        }
        None => panic!("no measurement found"),
    };
}

#[test]
fn check_timestamp_with_newline() {
    let t = b" 1234567890\n";
    let (_remaining, timestamp) = get_timestamp(t);
    assert_eq!(timestamp.unwrap(), b"1234567890");
}

#[test]
fn check_timestamp_with_no_newline() {
    let t = b" 1234567890";
    let (_remaining, timestamp) = get_timestamp(t);
    assert_eq!(timestamp.unwrap(), b"1234567890");
}

#[test]
fn check_tag_with_trailing_comma() {
    let t = b",method=GET,blah";
    match tag(t) {
        Some((_remaining, (key, value))) => {
            assert_eq!(key, b"method");
            assert_eq!(value, b"GET");
        }
        None => panic!("no tag found"),
    };
}

#[test]
fn check_tag_with_trailing_space() {
    let t = b",method=GET ";
    match tag(t) {
        Some((_remaining, (key, value))) => {
            assert_eq!(key, b"method");
            assert_eq!(value, b"GET");
        }
        None => panic!("no tag found"),
    };
}

#[test]
fn check_tags() {
    let t = b",method=GET,host=foo ";
    let (_remaining, vec) = tags(t);
    assert_eq!(vec.len(), 2);
    let (key, value) = vec[0];
    assert_eq!(key, b"method");
    assert_eq!(value, b"GET");
    let (key, value) = vec[1];
    assert_eq!(key, b"host");
    assert_eq!(value, b"foo");
}

#[test]
fn check_fields() {
    let t = b" count=1,duration=5 ";
    match fields(t) {
        Some((_remaining, vec)) => {
            assert_eq!(vec.len(), 2);
            let (key, value) = vec[0];
            assert_eq!(key, b"count");
            assert_eq!(value, b"1");
            let (key, value) = vec[1];
            assert_eq!(key, b"duration");
            assert_eq!(value, b"5");
        }
        None => panic!("no fields found"),
    };
}

#[test]
fn check_get_measurement_name_splits_record() {
    let t = b"requests,method=GET duration=101\n";
    match get_measurement_name(t) {
        Some((remaining, name)) => {
            assert_eq!(name, b"requests");
            assert_eq!(remaining, b",method=GET duration=101\n");
        }
        None => panic!("no measurement found"),
    };
}

#[test]
fn check_parse_full_record() {
    let line = parse(b"requests,method=GET,host=foo duration=101,count=2 123456789\n")
        .expect("well-formed record");
    assert_eq!(line.measurement, b"requests");
    assert_eq!(line.tags.len(), 2);
    assert_eq!(line.tags[0].0, b"method");
    assert_eq!(line.tags[0].1, b"GET");
    assert_eq!(line.tags[1].0, b"host");
    assert_eq!(line.tags[1].1, b"foo");
    assert_eq!(line.fields.len(), 2);
    assert_eq!(line.fields[0].0, b"duration");
    assert_eq!(line.fields[0].1, b"101");
    assert_eq!(line.fields[1].0, b"count");
    assert_eq!(line.fields[1].1, b"2");
    assert_eq!(line.timestamp.as_deref(), Some(&b"123456789"[..]));
}

#[test]
fn check_parse_no_tags_no_timestamp() {
    let line = parse(b"requests duration=5").expect("well-formed record");
    assert_eq!(line.measurement, b"requests");
    assert!(line.tags.is_empty());
    assert_eq!(line.fields.len(), 1);
    assert_eq!(line.fields[0].0, b"duration");
    assert_eq!(line.fields[0].1, b"5");
    assert_eq!(line.timestamp, None);
}

#[test]
fn check_parse_rejects_missing_field() {
    assert!(parse(b"requests,method=GET\n").is_none());
    assert!(parse(b"requests\n").is_none());
    assert!(parse(b"\n").is_none());
    assert!(parse(b"").is_none());
}

#[test]
fn check_parse_rejects_missing_measurement_delimiter() {
    assert!(parse(b"requests").is_none());
}

#[test]
fn check_parse_empty_line_is_malformed() {
    // An empty line flows through the pipeline and fails only here, at the
    // grammar: no measurement delimiter is ever found.
    assert!(parse(b"").is_none());
}
