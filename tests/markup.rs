use edge_tts::build_ssml;

const HEAD: &str = "<speak version=\"1.0\" xmlns=\"http://www.w3.org/2001/10/synthesis\" xmlns:mstts=\"https://www.w3.org/2001/mstts\" xml:lang=\"en-US\">";

#[test]
fn builds_plain_document() {
    let d = build_ssml("Hello", "zh-CN-XiaoxiaoNeural", "medium", "fast", "loud");
    assert_eq!(
        d,
        format!("{}<voice name=\"zh-CN-XiaoxiaoNeural\"><prosody pitch=\"medium\" rate=\"fast\" volume=\"loud\">Hello</prosody></voice></speak>", HEAD)
    );
}

#[test]
fn escapes_markup_in_text() {
    let d = build_ssml("a<b>&\"c'", "v", "p", "r", "x");
    assert_eq!(
        d,
        format!("{}<voice name=\"v\"><prosody pitch=\"p\" rate=\"r\" volume=\"x\">a&lt;b&gt;&amp;\"c'</prosody></voice></speak>", HEAD)
    );
}

#[test]
fn escapes_attribute_values() {
    let d = build_ssml("t", "a\"b", "<x>", "'&'", "l\nr\r");
    assert_eq!(
        d,
        format!("{}<voice name=\"a&quot;b\"><prosody pitch=\"&lt;x&gt;\" rate=\"&apos;&amp;&apos;\" volume=\"l&#xA;r&#xD;\">t</prosody></voice></speak>", HEAD)
    );
}

#[test]
fn keeps_non_ascii_text() {
    let d = build_ssml("晚上好<", "v", "p", "r", "x");
    assert!(d.ends_with(">晚上好&lt;</prosody></voice></speak>"));
}

#[test]
fn empty_values_leave_empty_slots() {
    let d = build_ssml("", "", "", "", "");
    assert_eq!(
        d,
        format!("{}<voice name=\"\"><prosody pitch=\"\" rate=\"\" volume=\"\"></prosody></voice></speak>", HEAD)
    );
}

#[test]
fn text_is_recoverable_from_content_region() {
    let text = "x < y && \"q\" > z";
    let d = build_ssml(text, "v", "p", "r", "x");
    let start = d.find("volume=\"x\">").unwrap() + "volume=\"x\">".len();
    let end = d.len() - "</prosody></voice></speak>".len();
    let region = &d[start..end];
    assert!(!region.contains('<'));
    let back = region.replace("&lt;", "<").replace("&gt;", ">").replace("&amp;", "&");
    assert_eq!(back, text);
}
