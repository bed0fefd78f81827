use docdb::document::{
    document_bytes, format_json, render, render_formatted, Formatted, RenderError,
};

#[test]
fn json_text_is_stored_as_it_stands() {
    assert_eq!(
        document_bytes("{\"a\": 1}").unwrap(),
        b"{\"a\": 1}".to_vec()
    );
    assert_eq!(document_bytes(" [1, 2,3 ] ").unwrap(), b" [1, 2,3 ] ".to_vec());
    assert_eq!(document_bytes("\"h\u{e9}\"").unwrap(), "\"h\u{e9}\"".as_bytes().to_vec());
    assert_eq!(document_bytes("null").unwrap(), b"null".to_vec());
}

#[test]
fn text_that_is_not_json_is_refused_with_the_parser_message() {
    assert_eq!(
        document_bytes("{\"a\": }").unwrap_err(),
        "expected value at line 1 column 7"
    );
    assert_eq!(
        document_bytes("").unwrap_err(),
        "EOF while parsing a value at line 1 column 0"
    );
    assert_eq!(
        document_bytes("1 2").unwrap_err(),
        "trailing characters at line 1 column 3"
    );
    assert!(document_bytes("not json").is_err());
}

#[test]
fn json_value_is_rendered_indented() {
    let shown = render(b"{\"b\":[1,2],\"a\":\"x\"}").unwrap();
    assert_eq!(
        shown.text,
        "{\n  \"a\": \"x\",\n  \"b\": [\n    1,\n    2\n  ]\n}"
    );
    assert_eq!(shown.warning, None);

    let shown = render(b"  42 ").unwrap();
    assert_eq!(shown.text, "42");
    assert_eq!(shown.warning, None);
}

#[test]
fn value_that_is_not_json_is_rendered_as_text() {
    let shown = render(b"value1").unwrap();
    assert_eq!(shown.text, "value1");
    assert_eq!(shown.warning, None);

    let shown = render("gr\u{fc}n {".as_bytes()).unwrap();
    assert_eq!(shown.text, "gr\u{fc}n {");
    assert_eq!(shown.warning, None);

    let shown = render(b"").unwrap();
    assert_eq!(shown.text, "");
}

#[test]
fn value_that_is_neither_json_nor_text_is_an_error() {
    assert!(matches!(render(&[0xff, 0xfe]), Err(RenderError::NotUtf8)));
    assert!(matches!(render(&[b'a', 0x80]), Err(RenderError::NotUtf8)));
}

#[test]
fn format_json_tells_json_from_the_rest() {
    assert!(matches!(format_json(b"[]"), Formatted::Pretty(text) if text == "[]"));
    assert!(matches!(
        format_json(b"{\"k\":null}"),
        Formatted::Pretty(text) if text == "{\n  \"k\": null\n}"
    ));
    assert!(matches!(format_json(b"value1"), Formatted::NotJson));
    assert!(matches!(format_json(&[0xff]), Formatted::NotJson));
    assert!(matches!(format_json(b""), Formatted::NotJson));
}

#[test]
fn render_formatted_follows_the_json_side() {
    let shown = render_formatted(b"ignored", Formatted::Pretty("[\n]".to_string()))
        .unwrap();
    assert_eq!(shown.text, "[\n]");
    assert_eq!(shown.warning, None);

    let shown = render_formatted(b"raw", Formatted::NotJson).unwrap();
    assert_eq!(shown.text, "raw");
    assert_eq!(shown.warning, None);

    let shown = render_formatted(b"raw", Formatted::Failed("why".to_string()))
        .unwrap();
    assert_eq!(shown.text, "raw");
    assert_eq!(shown.warning, Some("why".to_string()));

    assert!(matches!(
        render_formatted(&[0xc0], Formatted::NotJson),
        Err(RenderError::NotUtf8)
    ));
    assert!(matches!(
        render_formatted(&[0xc0], Formatted::Failed("why".to_string())),
        Err(RenderError::NotUtf8OrJson(why)) if why == "why"
    ));
}
