use guestbook::escape::dumb_html_escape;

#[test]
fn test_dumb_html_escape_text() {
    assert_eq!(
        dumb_html_escape("hello, world".as_bytes()),
        "hello, world".as_bytes().to_vec()
    );
}

#[test]
fn test_dumb_html_escape_html() {
    assert_eq!(
        dumb_html_escape("<script>console.log(\"hi\");</script>".as_bytes()),
        "!!script>console.log(\"hi\");!!!script".as_bytes().to_vec()
    );
}

#[test]
fn escape_open_tag_alone() {
    assert_eq!(dumb_html_escape(b"<a"), b"!!a".to_vec());
}

#[test]
fn escape_close_tag_alone() {
    assert_eq!(dumb_html_escape(b"</a>"), b"!!!a".to_vec());
}

#[test]
fn escape_open_and_close() {
    assert_eq!(dumb_html_escape(b"x<a y</b> z"), b"x!!a y!!!b z".to_vec());
}

#[test]
fn escape_leaves_bare_angle() {
    assert_eq!(dumb_html_escape(b"1 < 2 and 3 > 2"), b"1 < 2 and 3 > 2".to_vec());
}

#[test]
fn escape_unclosed_close_kept() {
    assert_eq!(dumb_html_escape(b"</a"), b"</a".to_vec());
}

#[test]
fn escape_double_angle() {
    assert_eq!(dumb_html_escape(b"<<b"), b"<!!b".to_vec());
}

#[test]
fn escape_empty() {
    assert_eq!(dumb_html_escape(b""), b"".to_vec());
}
