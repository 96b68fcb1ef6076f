use gst_backend::uri::file_uri;

#[test]
fn separators_stay_and_spaces_are_escaped() {
    assert_eq!(file_uri("/home/user/My Music/01 - Intro.mp3"), "file:/home/user/My%20Music/01%20-%20Intro.mp3");
}

#[test]
fn an_empty_path_has_an_empty_uri() {
    assert_eq!(file_uri(""), "file:");
}

#[test]
fn unreserved_bytes_stand_for_themselves() {
    assert_eq!(file_uri("/aZ09-._~"), "file:/aZ09-._~");
}

#[test]
fn other_bytes_are_escaped_in_utf_8() {
    assert_eq!(file_uri("/\u{e9}t\u{e9}/\u{4e2d}?#&%"), "file:/%C3%A9t%C3%A9/%E4%B8%AD%3F%23%26%25");
    assert_eq!(file_uri("a\nb"), "file:a%0Ab");
}

#[test]
fn an_escape_in_a_path_is_not_a_separator() {
    assert_eq!(file_uri("a%2Fb/c"), "file:a%252Fb/c");
    assert_ne!(file_uri("a%2Fb"), file_uri("a/b"));
}

#[test]
fn restoring_separators_agrees_with_replacing_them() {
    for path in ["//", "%/2F", "/%2/F", "2F/2F", "/%%2F/", "\u{1F3B5}/x y"] {
        let replaced = urlencoding::encode(path).replace("%2F", "/");
        assert_eq!(file_uri(path), format!("file:{}", replaced));
    }
}
