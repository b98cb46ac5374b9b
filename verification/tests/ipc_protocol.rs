use kairowiki::ipc::{
    decode_frame, decode_update, encode_frame, encode_update, parse_ref_line, FrameResult, Update,
};
use kairowiki::oid::Oid;

const PARENT: &str = "3fc1961eb2ce860a1c05b4cd6a36ca9521127e78";
const NEW: &str = "0123456789abcdef0123456789abcdef01234567";

fn update() -> Update {
    Update {
        parent_commit_id: Oid::parse(PARENT).unwrap(),
        new_commit_id: Oid::parse(NEW).unwrap(),
    }
}

#[test]
fn update_encoding_round_trips() {
    let bytes = encode_update(&update());
    let decoded = decode_update(&bytes).unwrap();
    assert_eq!(decoded.parent_commit_id.as_str(), PARENT);
    assert_eq!(decoded.new_commit_id.as_str(), NEW);
}

#[test]
fn update_encoding_is_the_documented_json() {
    let bytes = encode_update(&update());
    let text = String::from_utf8(bytes).unwrap();
    assert_eq!(
        text,
        format!("{{\"parent_revision\":\"{}\",\"new_revision\":\"{}\"}}", PARENT, NEW)
    );
}

#[test]
fn malformed_message_is_dropped_and_next_one_processed() {
    // An invalid message decodes to an error and is dropped...
    let garbage = b"{not json at all".to_vec();
    assert!(decode_update(&garbage).is_err());
    // ...and a well-formed message on the next connection still goes
    // through and would trigger a rebuild.
    let good = encode_update(&update());
    let decoded = decode_update(&good).unwrap();
    assert_eq!(decoded.new_commit_id.as_str(), NEW);
}

#[test]
fn tampered_digest_is_rejected() {
    let mut bytes = encode_update(&update());
    // Replace one hex digit of the parent digest with a non-hex byte.
    let pos = bytes.iter().position(|&b| b == b'3').unwrap();
    bytes[pos] = b'G';
    assert!(decode_update(&bytes).is_err());
}

#[test]
fn frame_round_trips_and_reports_incomplete_buffers() {
    let body = encode_update(&update());
    let framed = encode_frame(&body);
    assert_eq!(framed.len(), body.len() + 4);
    match decode_frame(&framed) {
        FrameResult::Frame(decoded, rest) => {
            assert_eq!(decoded, body);
            assert!(rest.is_empty());
        }
        FrameResult::Incomplete => panic!("expected a whole frame"),
    }
    let partial = framed[..framed.len() - 1].to_vec();
    assert!(matches!(decode_frame(&partial), FrameResult::Incomplete));
    assert!(matches!(decode_frame(&vec![0, 0]), FrameResult::Incomplete));
}

#[test]
fn ref_lines_only_match_the_tracked_branch() {
    let line = format!("{} {} refs/heads/master", PARENT, NEW);
    let update = parse_ref_line(&line).unwrap();
    assert_eq!(update.parent_commit_id.as_str(), PARENT);
    assert_eq!(update.new_commit_id.as_str(), NEW);
    assert!(parse_ref_line(&format!("{} {} refs/heads/other", PARENT, NEW)).is_none());
    assert!(parse_ref_line("one two").is_none());
    assert!(parse_ref_line("").is_none());
}
