use searcher::codec;
use searcher::chars::str_to_chars;

#[test]
fn record_encode_expected_text() {
    let children = vec!["suffering".to_string(), "patience".to_string()];
    let line = codec::encode_record("book of job", &children);
    assert_eq!(line, "[\"book of job\",[\"suffering\",\"patience\"]]");
}

#[test]
fn record_encode_empty_children() {
    let children: Vec<String> = Vec::new();
    let line = codec::encode_record("title", &children);
    assert_eq!(line, "[\"title\",[]]");
}

#[test]
fn record_round_trip() {
    let children = vec!["a \"quoted\" one".to_string(), "back\\slash".to_string(), "line\nbreak".to_string()];
    let line = codec::encode_record("odd \t title", &children);
    let parsed = codec::parse_record(&str_to_chars(&line)).expect("round trip");
    assert_eq!(parsed.0, "odd \t title");
    assert_eq!(parsed.1, children);
}

#[test]
fn record_parse_unicode_escape() {
    // the \u0041 spelling decodes to a plain letter
    let parsed = codec::parse_record(&str_to_chars("[\"\\u0041b\",[]]")).expect("parses");
    assert_eq!(parsed.0, "Ab");
    assert!(parsed.1.is_empty());
}

#[test]
fn record_parse_rejects_malformed() {
    for bad in [
        "",
        "not json",
        "[\"title\"]",
        "[\"title\",[\"a\"]",
        "[\"title\",[\"a\"]] trailing",
        "[\"unterminated,[\"a\"]]",
        "[\"bad\\qescape\",[]]",
        "[\"surrogate\\uD800\",[]]",
    ] {
        assert!(codec::parse_record(&str_to_chars(bad)).is_none(), "accepted: {}", bad);
    }
}

#[test]
fn sidecar_encode_expected_text() {
    assert_eq!(codec::encode_sidecar_line(&vec![0u64, 7, 123]), "[0,7,123]");
    assert_eq!(codec::encode_sidecar_line(&Vec::new()), "[]");
}

#[test]
fn sidecar_round_trip() {
    for vals in [vec![], vec![0u64], vec![1u64, 2, 3], vec![u64::MAX]] {
        let line = codec::encode_sidecar_line(&vals);
        let parsed = codec::parse_sidecar_line(&str_to_chars(&line)).expect("round trip");
        assert_eq!(parsed, vals);
    }
}

#[test]
fn sidecar_rejects_malformed() {
    for bad in ["", "[", "[1,]", "[01]", "[1 2]", "[18446744073709551616]", "[1],"] {
        assert!(codec::parse_sidecar_line(&str_to_chars(bad)).is_none(), "accepted: {}", bad);
    }
}
