use qbroker::errors::FragmentationProcessorError;
use qbroker::stream_processor::{deserialize, encode_frame, serialize, StreamProcessor};

#[test]
fn serialize_extracts_first_frame() {
    let (r, consumed) = serialize(b"hello\nworld");
    assert_eq!(r.unwrap(), "hello");
    assert_eq!(consumed, 6);
}

#[test]
fn serialize_without_delimiter_is_incomplete() {
    let (r, consumed) = serialize(b"abc");
    assert!(r == Err(FragmentationProcessorError::UnexpectedError));
    assert_eq!(consumed, 0);
}

#[test]
fn serialize_empty_frame() {
    let (r, consumed) = serialize(b"\nrest");
    assert_eq!(r.unwrap(), "");
    assert_eq!(consumed, 1);
}

#[test]
fn serialize_decodes_invalid_bytes_leniently() {
    let (r, consumed) = serialize(&[0xff, 0x0a]);
    assert_eq!(r.unwrap(), "\u{FFFD}");
    assert_eq!(consumed, 2);
}

#[test]
fn deserialize_yields_utf8_bytes() {
    let s = String::from("abc");
    assert_eq!(deserialize(&s), &b"abc"[..]);
}

#[test]
fn encode_frame_appends_delimiter() {
    let s = String::from("abc");
    assert_eq!(encode_frame(&s), &b"abc\n"[..]);
}

#[test]
fn stream_processor_handles_fragmented_reads() {
    let mut sp = StreamProcessor::new();
    sp.ingest(b"he");
    assert_eq!(sp.next_frame(), None);
    sp.ingest(b"llo\nwo");
    assert_eq!(sp.next_frame(), Some(String::from("hello")));
    assert_eq!(sp.next_frame(), None);
    sp.ingest(b"rld\n");
    assert_eq!(sp.next_frame(), Some(String::from("world")));
    assert_eq!(sp.next_frame(), None);
}

#[test]
fn stream_processor_consumes_frames_one_at_a_time() {
    let mut sp = StreamProcessor::new();
    sp.ingest(b"a\nb\n");
    assert_eq!(sp.next_frame(), Some(String::from("a")));
    assert_eq!(sp.next_frame(), Some(String::from("b")));
    assert_eq!(sp.next_frame(), None);
}
