use edge_tts::parse_headers;

fn pairs(v: &[(&str, &str)]) -> Vec<(Vec<u8>, Vec<u8>)> {
    v.iter().map(|(k, v)| (k.as_bytes().to_vec(), v.as_bytes().to_vec())).collect()
}

#[test]
fn parses_lines_in_order() {
    let h = parse_headers(b"X-RequestId:abc\r\nContent-Type:audio/mpeg\r\nPath:audio");
    assert_eq!(h, pairs(&[("X-RequestId", "abc"), ("Content-Type", "audio/mpeg"), ("Path", "audio")]));
}

#[test]
fn splits_at_first_colon_only() {
    let h = parse_headers(b"X-Timestamp:2024-01-01T10:20:30Z");
    assert_eq!(h, pairs(&[("X-Timestamp", "2024-01-01T10:20:30Z")]));
}

#[test]
fn line_without_colon_has_empty_value() {
    let h = parse_headers(b"novalue\r\nk:");
    assert_eq!(h, pairs(&[("novalue", ""), ("k", "")]));
}

#[test]
fn empty_lines_are_skipped_and_duplicates_kept() {
    let h = parse_headers(b"\r\nPath:a\r\n\r\nPath:b\r\n");
    assert_eq!(h, pairs(&[("Path", "a"), ("Path", "b")]));
}

#[test]
fn empty_block_has_no_headers() {
    assert_eq!(parse_headers(b""), pairs(&[]));
    assert_eq!(parse_headers(b"\r\n\r\n"), pairs(&[]));
}

#[test]
fn lone_carriage_return_stays_in_value() {
    let h = parse_headers(b"a:b\rc\nd");
    assert_eq!(h, pairs(&[("a", "b\rc\nd")]));
}
