use interflux::lines::{framed_lines, Reader};

#[test]
fn empty_reader_yields_no_line() {
    let mut reader = Reader::new();
    assert!(reader.read_line().is_none());
}

#[test]
fn one_line_per_call_even_when_more_are_buffered() {
    let mut reader = Reader::new();
    reader.push_chunk(b"first=1\nsecond=2\n".to_vec());
    let l1 = reader.read_line().expect("first line");
    assert_eq!(&l1[..], b"first=1");
    let l2 = reader.read_line().expect("second line");
    assert_eq!(&l2[..], b"second=2");
    assert!(reader.read_line().is_none());
}

#[test]
fn line_spanning_fragments_is_assembled() {
    let mut reader = Reader::new();
    reader.push_chunk(b"ab".to_vec());
    assert!(reader.read_line().is_none());
    reader.push_chunk(b"c\nd".to_vec());
    let l = reader.read_line().expect("assembled line");
    assert_eq!(&l[..], b"abc");
    assert!(reader.read_line().is_none());
    reader.push_chunk(b"\n".to_vec());
    let l2 = reader.read_line().expect("line after late terminator");
    assert_eq!(&l2[..], b"d");
}

#[test]
fn empty_lines_are_emitted() {
    let mut reader = Reader::new();
    reader.push_chunk(b"\n\nx=1\n".to_vec());
    assert_eq!(&reader.read_line().expect("empty line")[..], b"");
    assert_eq!(&reader.read_line().expect("empty line")[..], b"");
    assert_eq!(&reader.read_line().expect("line")[..], b"x=1");
    assert!(reader.read_line().is_none());
}

#[test]
fn one_byte_fragments_still_frame_one_line() {
    let frags: Vec<Vec<u8>> = b"a b=1\n".iter().map(|&b| vec![b]).collect();
    assert_eq!(frags.len(), 6);
    let lines = framed_lines(frags);
    assert_eq!(lines.len(), 1);
    assert_eq!(&lines[0][..], b"a b=1");
}

#[test]
fn framing_is_invariant_under_refragmentation() {
    let stream = b"m,a=1 f=2\nn f=3\n".to_vec();
    let whole = framed_lines(vec![stream.clone()]);
    let split: Vec<Vec<u8>> = stream.chunks(3).map(|c| c.to_vec()).collect();
    let pieces = framed_lines(split);
    assert_eq!(whole.len(), pieces.len());
    for (a, b) in whole.iter().zip(pieces.iter()) {
        assert_eq!(&a[..], &b[..]);
    }
}

#[test]
fn truncated_stream_emits_no_partial_line() {
    let lines = framed_lines(vec![b"abc".to_vec()]);
    assert!(lines.is_empty());
    let lines2 = framed_lines(vec![b"m f=1\norphan".to_vec()]);
    assert_eq!(lines2.len(), 1);
    assert_eq!(&lines2[0][..], b"m f=1");
}
