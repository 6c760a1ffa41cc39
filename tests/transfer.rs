use quic_transfer::digest::{checksum_hex, checksums_match};
use quic_transfer::echo::{decimal_text, debug_text_of, EchoProtocol, MSG_TYPE_ACK, PROTO_VERSION};
use quic_transfer::framing::{find_delimiter, FrameReader, FramingError};
use quic_transfer::header::{decode_fields, read_string, Header, ParseError};
use quic_transfer::session::{
    build_request, next_phase, request_header, response_filename, Event, Phase, ServerSession,
    SessionError, Upload,
};

const HELLO_MD5: &str = "5d41402abc4b2a76b9719d911017c592";

fn run_session(chunks: &[&[u8]]) -> Result<Upload, SessionError> {
    let mut session = ServerSession::new();
    for chunk in chunks {
        session.receive(chunk);
    }
    session.end_of_input()
}

fn upload(r: Result<Upload, SessionError>) -> Upload {
    match r {
        Ok(u) => u,
        Err(e) => panic!("session refused: {:?}", e),
    }
}

fn refusal(r: Result<Upload, SessionError>) -> SessionError {
    match r {
        Ok(_) => panic!("session accepted"),
        Err(e) => e,
    }
}

#[test]
fn constructor_sanity() {
    let message = EchoProtocol::create(1, "Hello, world!".to_string());
    assert_eq!(message.mtype, 1);
}

#[test]
fn create_sets_current_version() {
    let message = EchoProtocol::create(MSG_TYPE_ACK, "ok".to_string());
    assert_eq!(message.ver, PROTO_VERSION);
    assert_eq!(message.msg, "ok");
}

#[test]
fn debug_string_is_pretty_form() {
    let message = EchoProtocol::create(2, "Hi \"there\"".to_string());
    assert_eq!(
        message.debug_string(),
        "EchoProtocol {\n    ver: 1,\n    mtype: 2,\n    msg: \"Hi \\\"there\\\"\",\n}"
    );
}

#[test]
fn debug_text_of_large_numbers() {
    assert_eq!(
        debug_text_of(255, 100, "\"x\""),
        "EchoProtocol {\n    ver: 255,\n    mtype: 100,\n    msg: \"x\",\n}"
    );
}

#[test]
fn decimal_text_values() {
    assert_eq!(decimal_text(0), "0");
    assert_eq!(decimal_text(7), "7");
    assert_eq!(decimal_text(42), "42");
    assert_eq!(decimal_text(105), "105");
    assert_eq!(decimal_text(255), "255");
}

#[test]
fn digest_of_hello() {
    assert_eq!(checksum_hex(b"hello"), HELLO_MD5);
}

#[test]
fn digest_of_empty() {
    assert_eq!(checksum_hex(b""), "d41d8cd98f00b204e9800998ecf8427e");
}

#[test]
fn checksum_comparison_ignores_case() {
    assert!(checksums_match("5D41402ABC4B2A76B9719D911017C592", HELLO_MD5));
    assert!(checksums_match(HELLO_MD5, HELLO_MD5));
    assert!(!checksums_match("5d41402abc4b2a76b9719d911017c593", HELLO_MD5));
    assert!(!checksums_match("5d41", HELLO_MD5));
}

#[test]
fn header_encodes_as_compact_record() {
    let h = Header::new("a.txt".to_string(), HELLO_MD5.to_string());
    let expected = format!("{{\"filename\":\"a.txt\",\"checksum\":\"{}\"}}", HELLO_MD5);
    assert_eq!(h.encode(), expected.into_bytes());
}

#[test]
fn header_round_trip() {
    let h = Header::new("dir/a b.txt".to_string(), checksum_hex(b"content"));
    let d = Header::decode(&h.encode()).unwrap_or_else(|e| panic!("{:?}", e));
    assert_eq!(d.filename, "dir/a b.txt");
    assert_eq!(d.checksum, checksum_hex(b"content"));
}

#[test]
fn header_round_trip_with_escapes() {
    let name = "q\"b\\s\nt\té.txt";
    let h = Header::new(name.to_string(), "ab".to_string());
    let bytes = h.encode();
    assert_eq!(
        bytes,
        "{\"filename\":\"q\\\"b\\\\s\\u000at\\u0009é.txt\",\"checksum\":\"ab\"}".as_bytes().to_vec()
    );
    assert!(!bytes.contains(&b'\n'));
    let d = Header::decode(&bytes).unwrap_or_else(|e| panic!("{:?}", e));
    assert_eq!(d.filename, name);
    assert_eq!(d.checksum, "ab");
}

#[test]
fn header_decode_rejects_malformed() {
    let missing_field = b"{\"filename\":\"a.txt\"}";
    assert!(matches!(Header::decode(missing_field), Err(ParseError::Malformed)));
    let extra_field = b"{\"filename\":\"a\",\"checksum\":\"b\",\"x\":\"c\"}";
    assert!(matches!(Header::decode(extra_field), Err(ParseError::Malformed)));
    assert!(matches!(Header::decode(b""), Err(ParseError::Malformed)));
    assert!(matches!(Header::decode(b"not json"), Err(ParseError::Malformed)));
    let unterminated = b"{\"filename\":\"a";
    assert!(matches!(Header::decode(unterminated), Err(ParseError::Malformed)));
    let raw_control = b"{\"filename\":\"a\tb\",\"checksum\":\"c\"}";
    assert!(matches!(Header::decode(raw_control), Err(ParseError::Malformed)));
}

#[test]
fn header_decode_rejects_invalid_text() {
    let mut bytes = b"{\"filename\":\"".to_vec();
    bytes.push(0xff);
    bytes.extend_from_slice(b"\",\"checksum\":\"c\"}");
    assert!(matches!(Header::decode(&bytes), Err(ParseError::InvalidText)));
}

#[test]
fn decode_fields_gives_raw_bytes() {
    let (f, c) = decode_fields(b"{\"filename\":\"x\\u001fy\",\"checksum\":\"z\"}").unwrap();
    assert_eq!(f, vec![b'x', 0x1f, b'y']);
    assert_eq!(c, b"z".to_vec());
}

#[test]
fn read_string_stops_at_closing_quote() {
    let (s, end) = read_string(b"ab\\\"c\"rest", 0).unwrap();
    assert_eq!(s, b"ab\"c".to_vec());
    assert_eq!(end, 6);
    assert!(read_string(b"abc", 0).is_none());
}

#[test]
fn find_delimiter_positions() {
    assert_eq!(find_delimiter(b"ab\ncd\n"), Some(2));
    assert_eq!(find_delimiter(b"\n"), Some(0));
    assert_eq!(find_delimiter(b"abc"), None);
}

fn framed(chunks: &[&[u8]]) -> Result<(Vec<u8>, Vec<u8>), FramingError> {
    let mut reader = FrameReader::new();
    for chunk in chunks {
        reader.feed(chunk);
    }
    reader.finish()
}

#[test]
fn framing_delimiter_alone_in_first_chunk() {
    let (h, p) = framed(&[b"\n", b"payload"]).unwrap();
    assert!(h.is_empty());
    assert_eq!(p, b"payload".to_vec());
}

#[test]
fn framing_delimiter_last_byte_of_chunk() {
    let (h, p) = framed(&[b"hea", b"der\n", b"pay", b"load"]).unwrap();
    assert_eq!(h, b"header".to_vec());
    assert_eq!(p, b"payload".to_vec());
}

#[test]
fn framing_delimiter_mid_chunk() {
    let (h, p) = framed(&[b"head", b"er\npay\nlo", b"ad"]).unwrap();
    assert_eq!(h, b"header".to_vec());
    assert_eq!(p, b"pay\nload".to_vec());
}

#[test]
fn framing_missing_delimiter() {
    assert_eq!(framed(&[b"header", b"without end"]), Err(FramingError::MissingSeparator));
    assert_eq!(framed(&[]), Err(FramingError::MissingSeparator));
}

#[test]
fn framing_reports_separator() {
    let mut reader = FrameReader::new();
    reader.feed(b"abc");
    assert!(!reader.separator_found());
    reader.feed(b"d\ne");
    assert!(reader.separator_found());
}

#[test]
fn end_to_end_hello() {
    let request = build_request("a.txt".to_string(), b"hello");
    let mut expected = format!("{{\"filename\":\"a.txt\",\"checksum\":\"{}\"}}", HELLO_MD5).into_bytes();
    expected.push(b'\n');
    expected.extend_from_slice(b"hello");
    assert_eq!(request, expected);
    let u = upload(run_session(&[&request]));
    assert_eq!(u.header.filename, "a.txt");
    assert_eq!(u.header.checksum, HELLO_MD5);
    assert_eq!(u.payload, b"hello".to_vec());
    assert!(u.checksum_ok);
    assert_eq!(response_filename("a.txt"), "received_a.txt");
}

#[test]
fn request_header_declares_digest() {
    let h = request_header("f".to_string(), b"hello");
    assert_eq!(h.filename, "f");
    assert_eq!(h.checksum, HELLO_MD5);
}

#[test]
fn digest_independent_of_chunking() {
    let request = build_request("b.bin".to_string(), b"some longer content\nwith newlines\n");
    let whole = upload(run_session(&[&request]));
    for split in 1..request.len() {
        let (x, y) = request.split_at(split);
        let parts = upload(run_session(&[x, y]));
        assert_eq!(parts.payload, whole.payload);
        assert_eq!(parts.header.checksum, whole.header.checksum);
        assert!(parts.checksum_ok);
    }
    let bytes: Vec<&[u8]> = request.chunks(1).collect();
    let single = upload(run_session(&bytes));
    assert_eq!(single.payload, whole.payload);
    assert!(single.checksum_ok);
}

#[test]
fn mismatch_is_reported_not_fatal() {
    let h = Header::new("m.txt".to_string(), HELLO_MD5.to_string());
    let mut request = h.encode();
    request.push(b'\n');
    request.extend_from_slice(b"goodbye");
    let u = upload(run_session(&[&request]));
    assert_eq!(u.header.filename, "m.txt");
    assert_eq!(u.payload, b"goodbye".to_vec());
    assert!(!u.checksum_ok);
}

#[test]
fn uppercase_declared_checksum_matches() {
    let h = Header::new("u.txt".to_string(), HELLO_MD5.to_uppercase());
    let mut request = h.encode();
    request.push(b'\n');
    request.extend_from_slice(b"hello");
    assert!(upload(run_session(&[&request])).checksum_ok);
}

#[test]
fn session_errors() {
    assert_eq!(
        refusal(run_session(&[b"no delimiter here"])),
        SessionError::Framing(FramingError::MissingSeparator)
    );
    assert_eq!(refusal(run_session(&[b"{}\nbody"])), SessionError::Parse(ParseError::Malformed));
    let mut bad = b"{\"filename\":\"\xfe\",\"checksum\":\"c\"}".to_vec();
    bad.push(b'\n');
    assert_eq!(refusal(run_session(&[&bad])), SessionError::Parse(ParseError::InvalidText));
}

#[test]
fn concurrent_sessions_are_independent() {
    let good = build_request("one.txt".to_string(), b"first file");
    let mut ok = ServerSession::new();
    let mut broken = ServerSession::new();
    let (a, b) = good.split_at(good.len() / 2);
    ok.receive(a);
    broken.receive(b"{\"filename\":\"two.txt\"");
    ok.receive(b);
    broken.receive(b" and never a delimiter");
    assert!(ok.header_complete());
    assert!(!broken.header_complete());
    assert_eq!(refusal(broken.end_of_input()), SessionError::Framing(FramingError::MissingSeparator));
    let u = upload(ok.end_of_input());
    assert_eq!(u.header.filename, "one.txt");
    assert_eq!(u.payload, b"first file".to_vec());
    assert!(u.checksum_ok);
}

#[test]
fn phases_of_a_successful_session() {
    let mut p = Phase::AwaitingHeader;
    for (e, expected) in [
        (Event::HeaderComplete, Phase::AwaitingPayload),
        (Event::EndOfInput, Phase::Verifying),
        (Event::Checked, Phase::Persisting),
        (Event::Stored, Phase::Echoing),
        (Event::Sent, Phase::Closed),
        (Event::Failed, Phase::Closed),
    ] {
        p = next_phase(p, e);
        assert_eq!(p, expected);
    }
}

#[test]
fn phases_of_failed_sessions() {
    assert_eq!(next_phase(Phase::AwaitingHeader, Event::EndOfInput), Phase::Aborted);
    assert_eq!(next_phase(Phase::Persisting, Event::Failed), Phase::Aborted);
    assert_eq!(next_phase(Phase::Aborted, Event::HeaderComplete), Phase::Aborted);
    assert_eq!(next_phase(Phase::Verifying, Event::Stored), Phase::Verifying);
}

#[test]
fn session_phase_follows_delimiter() {
    let mut s = ServerSession::new();
    assert_eq!(s.phase(), Phase::AwaitingHeader);
    s.receive(b"{\"filename\"");
    assert_eq!(s.phase(), Phase::AwaitingHeader);
    s.receive(b":\"x\",\"checksum\":\"y\"}\nrest");
    assert_eq!(s.phase(), Phase::AwaitingPayload);
}

#[test]
fn header_decode_accepts_short_escapes() {
    let bytes = b"{\"filename\":\"a\\nb\\/c\\td\\r\\b\\f\",\"checksum\":\"x\"}";
    let d = Header::decode(bytes).unwrap_or_else(|e| panic!("{:?}", e));
    assert_eq!(d.filename, "a\nb/c\td\r\u{8}\u{c}");
    assert_eq!(d.checksum, "x");
    assert!(matches!(Header::decode(b"{\"filename\":\"a\\q\",\"checksum\":\"x\"}"), Err(ParseError::Malformed)));
}
