use hanoi::protocol::{
    classify_reply, decode_frame, encode_frame, frame_length, own_results_end_line,
    request_end_line, stream_end_line, trim_line, Reply,
};
use hanoi::server::{Mode, Request, Step};

#[test]
fn frame_round_trip() {
    let payload = b"some request bytes".to_vec();
    let framed = encode_frame(&payload);
    assert_eq!(framed.len(), payload.len() + 8);
    assert_eq!(frame_length(&framed[..8]), payload.len() as u64);
    assert_eq!(&framed[..8], &(payload.len() as u64).to_le_bytes()[..]);
    assert_eq!(decode_frame(&framed), Some(payload));
}

#[test]
fn frame_empty_and_short() {
    let framed = encode_frame(&[]);
    assert_eq!(framed, vec![0u8; 8]);
    assert_eq!(decode_frame(&framed), Some(Vec::new()));
    assert_eq!(decode_frame(&framed[..7]), None);
    let mut long = encode_frame(b"abc");
    long.pop();
    assert_eq!(decode_frame(&long), None);
}

#[test]
fn frame_length_value() {
    assert_eq!(frame_length(&[1, 2, 0, 0, 0, 0, 0, 0]), 513);
    assert_eq!(frame_length(&[0xff; 8]), u64::MAX);
}

#[test]
fn marker_lines() {
    assert_eq!(own_results_end_line(), b"###server_to_client_end###".to_vec());
    assert_eq!(request_end_line(), b"###server_to_server_end###".to_vec());
    assert_eq!(stream_end_line(), b"###main_server_end###".to_vec());
}

#[test]
fn classify_lines() {
    assert!(classify_reply(b"###server_to_client_end###") == Reply::OwnResultsEnd);
    assert!(classify_reply(b"###server_to_server_end###") == Reply::RequestEnd);
    assert!(classify_reply(b"###main_server_end###") == Reply::StreamEnd);
    assert!(classify_reply(b"") == Reply::Blank);
    assert!(classify_reply(b"/r/a.txt:1: ###main_server_end###") == Reply::Text);
}

#[test]
fn trimming() {
    assert_eq!(trim_line(b"  \t/r/a:1: x \r\n"), b"/r/a:1: x".to_vec());
    assert_eq!(trim_line(b" \n"), Vec::<u8>::new());
    assert_eq!(trim_line(b"###main_server_end###\n"), b"###main_server_end###".to_vec());
}

fn request(files: bool, term: Option<&str>, main_server: bool) -> Request {
    Request {
        mode: Mode::Client,
        root: None,
        client_pipe: Some("123".to_string()),
        files,
        word: false,
        main_server,
        term: term.map(|t| t.to_string()),
    }
}

#[test]
fn federation_plan_two_servers() {
    let req = request(false, Some("foo"), true);
    let plan = req.plan(1);
    assert!(plan == vec![Step::Search, Step::EndOwnResults, Step::Forward(0), Step::EndRequest, Step::EndStream]);
    let fwd = req.forwarded();
    assert!(!fwd.main_server);
    assert_eq!(fwd.term, Some("foo".to_string()));
    assert_eq!(fwd.client_pipe, Some("123".to_string()));
    let child = fwd.plan(0);
    assert!(child == vec![Step::Search, Step::EndOwnResults, Step::EndRequest]);
    let ends = plan.iter().filter(|s| **s == Step::EndStream).count();
    assert_eq!(ends, 1);
}

#[test]
fn plan_for_listing_and_no_term() {
    assert!(request(true, Some("x"), false).plan(0) == vec![Step::ListFiles, Step::EndOwnResults, Step::EndRequest]);
    assert!(request(false, None, false).plan(2) == vec![Step::EndOwnResults, Step::Forward(0), Step::Forward(1), Step::EndRequest]);
}
