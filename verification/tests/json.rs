use ime::json::{error_response, write_json_string};

#[test]
fn error_response_quotes_the_error() {
    assert_eq!(error_response("invalid_event_kind"), "{\"ok\":false,\"error\":\"invalid_event_kind\"}");
    assert_eq!(error_response("null_handle"), "{\"ok\":false,\"error\":\"null_handle\"}");
}

#[test]
fn json_strings_escape_special_characters() {
    let mut out = String::from("x");
    write_json_string(&mut out, "a\"b\\c\nd\re\tf\u{1}\u{7f}日本");
    assert_eq!(out, "x\"a\\\"b\\\\c\\nd\\re\\tf\\u0001\\u007f日本\"");
}

#[test]
fn json_strings_read_back_unchanged() {
    for text in ["", "plain", "日本語", "quote\"back\\slash", "ctl\u{0}\u{1f}\u{7f}\u{9f}\n\r\t", "\u{a0}é"] {
        let mut out = String::new();
        write_json_string(&mut out, text);
        let back: String = serde_json::from_str(&out).unwrap();
        assert_eq!(back, text);
    }
}
