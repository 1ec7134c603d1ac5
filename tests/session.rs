use edge_tts::{run_session, Frame, Session, SessionError};

const ID: &str = "0123456789abcdef0123456789abcdef";
const OTHER_ID: &str = "fedcba9876543210fedcba9876543210";

fn binary(headers: &str, payload: &[u8]) -> Vec<u8> {
    let h = headers.as_bytes();
    let mut out = vec![(h.len() / 256) as u8, (h.len() % 256) as u8];
    out.extend_from_slice(h);
    out.extend_from_slice(payload);
    out
}

fn audio(id: &str, payload: &[u8]) -> Frame {
    Frame::Binary(binary(
        &format!("X-RequestId:{}\r\nContent-Type:audio/mpeg\r\nPath:audio\r\n", id),
        payload,
    ))
}

fn turn_end(id: &str) -> Frame {
    Frame::Text(format!(
        "X-RequestId:{}\r\nContent-Type:application/json; charset=utf-8\r\nPath:turn.end\r\n\r\n{{}}",
        id
    ))
}

fn config_ack() -> Frame {
    Frame::Text(format!(
        "X-RequestId:{}\r\nContent-Type:application/json; charset=utf-8\r\nPath:turn.start\r\n\r\n{{\"context\":{{}}}}",
        ID
    ))
}

#[test]
fn audio_then_turn_end_returns_payload() {
    let frames = vec![config_ack(), audio(ID, &[0xAA, 0xBB]), turn_end(ID)];
    assert_eq!(run_session(ID, &frames), Ok(vec![0xAA, 0xBB]));
}

#[test]
fn turn_end_with_other_id_fails() {
    let frames = vec![config_ack(), audio(ID, &[0xAA, 0xBB]), turn_end(OTHER_ID)];
    assert_eq!(run_session(ID, &frames), Err(SessionError::IdMismatch));
}

#[test]
fn audio_with_other_id_fails() {
    let frames = vec![config_ack(), audio(OTHER_ID, &[0xCC]), turn_end(ID)];
    assert_eq!(run_session(ID, &frames), Err(SessionError::IdMismatch));
}

#[test]
fn audio_with_other_id_fails_and_keeps_no_payload() {
    let mut s = Session::new(ID);
    assert_eq!(s.handle_frame(&audio(ID, &[1])), Ok(false));
    assert_eq!(s.handle_frame(&audio(OTHER_ID, &[9, 9])), Err(SessionError::IdMismatch));
    assert_eq!(s.audio, vec![1]);
}

#[test]
fn binary_shorter_than_declared_header_fails() {
    let frame = vec![0u8, 40, b'P', b'a', b't', b'h'];
    let frames = vec![Frame::Binary(frame), turn_end(ID)];
    assert_eq!(
        run_session(ID, &frames),
        Err(SessionError::MalformedBinary { len: 6, header_len: 40 })
    );
}

#[test]
fn binary_header_length_is_big_endian() {
    let frame = vec![1u8, 2, 0, 0];
    let frames = vec![Frame::Binary(frame)];
    assert_eq!(
        run_session(ID, &frames),
        Err(SessionError::MalformedBinary { len: 4, header_len: 258 })
    );
}

#[test]
fn binary_of_one_byte_fails() {
    let frames = vec![Frame::Binary(vec![7]), turn_end(ID)];
    assert_eq!(
        run_session(ID, &frames),
        Err(SessionError::MalformedBinary { len: 1, header_len: 0 })
    );
}

#[test]
fn two_audio_frames_concatenate_in_order() {
    let frames = vec![audio(ID, &[1, 2]), audio(ID, &[3, 4]), turn_end(ID)];
    assert_eq!(run_session(ID, &frames), Ok(vec![1, 2, 3, 4]));
}

#[test]
fn text_without_blank_line_fails() {
    let frames = vec![
        Frame::Text(format!("X-RequestId:{}\r\nPath:turn.end\r\n", ID)),
        turn_end(ID),
    ];
    assert_eq!(run_session(ID, &frames), Err(SessionError::MalformedText));
}

#[test]
fn non_audio_binary_and_other_frames_are_ignored() {
    let meta = Frame::Binary(binary(&format!("X-RequestId:{}\r\nPath:audio.metadata\r\n", ID), &[5, 5]));
    let frames = vec![Frame::Other, meta, audio(ID, &[8]), Frame::Other, turn_end(ID)];
    assert_eq!(run_session(ID, &frames), Ok(vec![8]));
}

#[test]
fn empty_audio_frame_adds_nothing() {
    let frames = vec![audio(ID, &[]), turn_end(ID)];
    assert_eq!(run_session(ID, &frames), Ok(vec![]));
}

#[test]
fn channel_ending_before_turn_end_is_transport_error() {
    let frames = vec![audio(ID, &[1, 2])];
    assert_eq!(run_session(ID, &frames), Err(SessionError::Transport));
    assert_eq!(run_session(ID, &vec![]), Err(SessionError::Transport));
}

#[test]
fn frames_after_turn_end_are_not_read() {
    let frames = vec![audio(ID, &[1]), turn_end(ID), Frame::Text("broken".to_string())];
    assert_eq!(run_session(ID, &frames), Ok(vec![1]));
}

#[test]
fn turn_end_found_among_duplicate_headers() {
    let t = format!("Path:turn.start\r\nX-RequestId:{}\r\nPath:turn.end\r\nX-RequestId:{}\r\n\r\n", OTHER_ID, ID);
    let frames = vec![audio(ID, &[4]), Frame::Text(t)];
    assert_eq!(run_session(ID, &frames), Ok(vec![4]));
}

#[test]
fn handle_frame_reports_turn_end() {
    let mut s = Session::new(ID);
    assert_eq!(s.handle_frame(&audio(ID, &[0xAA, 0xBB])), Ok(false));
    assert_eq!(s.handle_frame(&config_ack()), Ok(false));
    assert_eq!(s.handle_frame(&turn_end(ID)), Ok(true));
    assert_eq!(s.audio, vec![0xAA, 0xBB]);
    assert_eq!(s.request_id, ID.as_bytes().to_vec());
}
