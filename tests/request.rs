use edge_tts::request::json_escape_str;
use edge_tts::{config_message, random_request_id, ssml_message};

#[test]
fn request_id_is_32_lowercase_hex_digits() {
    let id = random_request_id();
    assert_eq!(id.len(), 32);
    assert!(id.chars().all(|c| c.is_ascii_digit() || ('a'..='f').contains(&c)));
}

#[test]
fn request_ids_differ() {
    assert_ne!(random_request_id(), random_request_id());
}

#[test]
fn config_message_names_format() {
    assert_eq!(
        config_message("audio-24khz-48kbitrate-mono-mp3"),
        "Content-Type:application/json; charset=utf-8\r\nPath:speech.config\r\n\r\n{\"context\":{\"synthesis\":{\"audio\":{\"metadataoptions\":{\"sentenceBoundaryEnabled\":false,\"wordBoundaryEnabled\":true},\"outputFormat\":\"audio-24khz-48kbitrate-mono-mp3\"}}}}"
    );
}

#[test]
fn ssml_message_carries_id_and_document() {
    assert_eq!(
        ssml_message("00ff", "<speak/>"),
        "X-RequestId:00ff\r\nContent-Type:application/ssml+xml\r\nPath:ssml\r\n\r\n<speak/>"
    );
}

#[test]
fn config_message_escapes_format_as_json_string() {
    assert_eq!(
        config_message("a\"b\\c\n"),
        "Content-Type:application/json; charset=utf-8\r\nPath:speech.config\r\n\r\n{\"context\":{\"synthesis\":{\"audio\":{\"metadataoptions\":{\"sentenceBoundaryEnabled\":false,\"wordBoundaryEnabled\":true},\"outputFormat\":\"a\\\"b\\\\c\\u000a\"}}}}"
    );
}

#[test]
fn json_escape_writes_control_characters_as_unicode_escapes() {
    assert_eq!(json_escape_str("\u{1f}\t x"), "\\u001f\\u0009 x");
    assert_eq!(json_escape_str("晚上好"), "晚上好");
    assert_eq!(json_escape_str(""), "");
}
