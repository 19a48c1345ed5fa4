use interflux::processors::{pipeline, run, MetricProcessor, PolicyTable, RunOutcome};
use interflux::settings::{build_processors, Measurement, Settings};

fn table_for(measurement: &str, strip: &[&str]) -> PolicyTable {
    let settings = Settings {
        measurements: Some(vec![(
            measurement.to_string(),
            Measurement {
                server: "http://localhost:8086".to_string(),
                db: "metrics".to_string(),
                rp: None,
                strip_tags: Some(strip.iter().map(|s| s.to_string()).collect()),
            },
        )]),
    };
    build_processors(&settings)
}

#[test]
fn fragmented_record_is_reassembled_and_forwarded() {
    let fragments = vec![
        b"requests,method".to_vec(),
        b"=GET dur".to_vec(),
        b"ation=101 123456789\n".to_vec(),
    ];
    let table = table_for("requests", &[]);
    let out = pipeline(fragments, &table);
    assert_eq!(out.len(), 1);
    assert_eq!(&out[0][..], b"requests,method=GET duration=101 123456789\n");
}

#[test]
fn configured_tag_is_stripped() {
    let fragments = vec![
        b"requests,method".to_vec(),
        b"=GET dur".to_vec(),
        b"ation=101 123456789\n".to_vec(),
    ];
    let table = table_for("requests", &["method"]);
    let out = pipeline(fragments, &table);
    assert_eq!(out.len(), 1);
    assert_eq!(&out[0][..], b"requests duration=101 123456789\n");
}

#[test]
fn record_without_tags_or_timestamp_passes_unchanged() {
    let table = table_for("requests", &[]);
    let out = pipeline(vec![b"requests duration=5\n".to_vec()], &table);
    assert_eq!(out.len(), 1);
    assert_eq!(&out[0][..], b"requests duration=5\n");
}

#[test]
fn unrouted_measurement_is_never_forwarded() {
    let table = table_for("requests", &[]);
    let out = pipeline(vec![b"unknown_measurement tag=1 field=2\n".to_vec()], &table);
    assert!(out.is_empty());
    let outcome = run(b"unknown_measurement tag=1 field=2", &table);
    assert!(matches!(outcome, RunOutcome::Unrouted));
}

#[test]
fn malformed_line_does_not_stop_later_lines() {
    let table = table_for("requests", &[]);
    let stream = b"requests duration=1\nrequests,broken\nrequests duration=2\n".to_vec();
    let out = pipeline(vec![stream], &table);
    assert_eq!(out.len(), 2);
    assert_eq!(&out[0][..], b"requests duration=1\n");
    assert_eq!(&out[1][..], b"requests duration=2\n");
}

#[test]
fn malformed_line_outcomes() {
    let table = table_for("requests", &[]);
    assert!(matches!(run(b"requests,broken", &table), RunOutcome::Malformed));
    assert!(matches!(run(b"requests", &table), RunOutcome::Malformed));
    assert!(matches!(run(b"", &table), RunOutcome::Malformed));
}

#[test]
fn stripping_twice_equals_stripping_once() {
    let table = table_for("requests", &["method"]);
    let once = match run(b"requests,method=GET,host=a duration=3", &table) {
        RunOutcome::Forwarded(line) => line,
        _ => panic!("expected a forwarded line"),
    };
    assert_eq!(&once[..], b"requests,host=a duration=3\n");
    let body: Vec<u8> = once[..once.len() - 1].to_vec();
    let twice = match run(&body, &table) {
        RunOutcome::Forwarded(line) => line,
        _ => panic!("expected a forwarded line"),
    };
    assert_eq!(&twice[..], &once[..]);
}

#[test]
fn serialize_then_decode_round_trips() {
    let table = table_for("requests", &[]);
    let original = b"requests,method=GET,host=a duration=3,count=9 777\n";
    let forwarded = match run(&original[..original.len() - 1], &table) {
        RunOutcome::Forwarded(line) => line,
        _ => panic!("expected a forwarded line"),
    };
    assert_eq!(&forwarded[..], &original[..]);
    let reparsed = interflux::parser::parse(&forwarded[..]).expect("round trip");
    assert_eq!(reparsed.measurement, b"requests");
    assert_eq!(reparsed.tags.len(), 2);
    assert_eq!(reparsed.fields.len(), 2);
    assert_eq!(reparsed.timestamp.as_deref(), Some(&b"777"[..]));
}

#[test]
fn processor_keeps_only_unstripped_tags() {
    let processor = MetricProcessor::new(vec!["a".to_string()]);
    assert_eq!(processor.tags.len(), 1);
    assert_eq!(processor.tags[0], b"a");
    let out = processor
        .process(b"requests", b",a=1,b=2 f=3")
        .expect("well-formed record");
    assert_eq!(&out[..], b"requests,b=2 f=3\n");
}

#[test]
fn processor_rejects_record_without_fields() {
    let processor = MetricProcessor::new(Vec::new());
    assert!(processor.process(b"requests", b",a=1").is_none());
}

#[test]
fn empty_policy_table_routes_nothing() {
    let table = PolicyTable::new();
    assert!(matches!(run(b"requests duration=5", &table), RunOutcome::Unrouted));
    let settings = Settings { measurements: None };
    let table2 = build_processors(&settings);
    assert!(matches!(run(b"requests duration=5", &table2), RunOutcome::Unrouted));
}

#[test]
fn drain_forwards_complete_lines_and_keeps_the_tail() {
    let table = table_for("m", &[]);
    let mut reader = interflux::lines::Reader::new();
    reader.push_chunk(b"m f=1\nm f=2\nm f".to_vec());
    let out = interflux::processors::drain(&mut reader, &table);
    assert_eq!(out.len(), 2);
    assert_eq!(&out[0][..], b"m f=1\n");
    assert_eq!(&out[1][..], b"m f=2\n");
    reader.push_chunk(b"=3\n".to_vec());
    let out2 = interflux::processors::drain(&mut reader, &table);
    assert_eq!(out2.len(), 1);
    assert_eq!(&out2[0][..], b"m f=3\n");
}

#[test]
fn first_policy_entry_wins() {
    let settings = Settings {
        measurements: Some(vec![
            (
                "m".to_string(),
                Measurement {
                    server: "one".to_string(),
                    db: "one".to_string(),
                    rp: Some("rp".to_string()),
                    strip_tags: Some(vec!["a".to_string()]),
                },
            ),
            (
                "m".to_string(),
                Measurement {
                    server: "two".to_string(),
                    db: "two".to_string(),
                    rp: None,
                    strip_tags: None,
                },
            ),
        ]),
    };
    let table = build_processors(&settings);
    let out = match run(b"m,a=1,b=2 f=3", &table) {
        RunOutcome::Forwarded(line) => line,
        _ => panic!("expected a forwarded line"),
    };
    assert_eq!(&out[..], b"m,b=2 f=3\n");
}
