use bytes::Bytes;
use miasma::{escape_html_chunk, escape_html_item};

fn escape_str(s: &'static str) -> String {
    let pieces = escape_html_chunk(Bytes::from_static(s.as_bytes()));
    let mut buf = String::new();
    for piece in pieces {
        buf.push_str(std::str::from_utf8(&piece).unwrap());
    }
    buf
}

fn drain_items(items: Vec<Result<Bytes, String>>) -> String {
    let mut buf = String::new();
    for item in items {
        for out in escape_html_item(item) {
            buf.push_str(std::str::from_utf8(&out.unwrap()).unwrap());
        }
    }
    buf
}

#[test]
fn targeted_chars_escaped() {
    let test_cases = [
        ("<", "&lt;"),
        (">", "&gt;"),
        ("&", "&amp;"),
        ("<&>", "&lt;&amp;&gt;"),
    ];

    for (input, expected) in test_cases {
        let sanitized = escape_str(input);
        assert_eq!(sanitized, expected);
    }
}

#[test]
fn script_tag_is_escaped() {
    let input = "<script>console.log('foo');</script>";
    let sanitized = escape_str(input);
    assert!(!sanitized.contains("<script>"));
    assert!(!sanitized.contains("</script>"));
}

#[test]
fn content_is_preserved() {
    let input = "<p>The quick brown fox jumps over the lazy dog. & foo.</p>";
    let expected = "&lt;p&gt;The quick brown fox jumps over the lazy dog. &amp; foo.&lt;/p&gt;";
    let sanitized = escape_str(input);
    assert_eq!(sanitized, expected);
}

#[test]
fn pieces_split_at_each_escaped_byte() {
    let pieces = escape_html_chunk(Bytes::from_static(b"a<bc&"));
    let pieces: Vec<&[u8]> = pieces.iter().map(|p| p.as_ref()).collect();
    assert_eq!(pieces, vec![&b"a"[..], b"&lt;", b"bc", b"&amp;", b""]);
}

#[test]
fn single_escaped_byte_gives_empty_text_pieces() {
    let pieces = escape_html_chunk(Bytes::from_static(b"<"));
    let pieces: Vec<&[u8]> = pieces.iter().map(|p| p.as_ref()).collect();
    assert_eq!(pieces, vec![&b""[..], b"&lt;", b""]);
}

#[test]
fn plain_chunk_is_one_piece() {
    let pieces = escape_html_chunk(Bytes::from_static(b"plain text"));
    assert_eq!(pieces.len(), 1);
    assert_eq!(pieces[0].as_ref(), b"plain text");
    let empty = escape_html_chunk(Bytes::new());
    assert_eq!(empty.len(), 1);
    assert!(empty[0].is_empty());
}

#[test]
fn errors_pass_through_unchanged() {
    let out = escape_html_item::<String>(Err("boom".to_string()));
    assert_eq!(out.len(), 1);
    assert_eq!(out[0].as_ref().unwrap_err(), "boom");
}

#[test]
fn chunk_boundaries_do_not_change_the_output() {
    let whole = drain_items(vec![Ok(Bytes::from_static(b"<a href='x'>&</a>"))]);
    let split = drain_items(vec![
        Ok(Bytes::from_static(b"<a hr")),
        Ok(Bytes::from_static(b"ef='x'>")),
        Ok(Bytes::from_static(b"&</")),
        Ok(Bytes::from_static(b"a>")),
    ]);
    assert_eq!(whole, split);
    assert_eq!(whole, "&lt;a href='x'&gt;&amp;&lt;/a&gt;");
}

#[test]
fn escaped_output_has_no_angle_brackets() {
    let sanitized = escape_str("<<>>&<tag attr=\"1\">text</tag>");
    assert!(!sanitized.contains('<'));
    assert!(!sanitized.contains('>'));
}

#[test]
fn non_ascii_bytes_are_kept() {
    let sanitized = escape_str("héllo <wörld>");
    assert_eq!(sanitized, "héllo &lt;wörld&gt;");
}
