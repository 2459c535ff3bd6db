use interleaver::reader::read_lines;

fn strings(items: &[&str]) -> Vec<String> {
    let mut v = Vec::new();
    for item in items {
        v.push(String::from(*item));
    }
    v
}

#[test]
fn empty_buffer_has_no_lines() {
    let buffer: Vec<u8> = Vec::new();
    assert_eq!(read_lines(&buffer), Ok(strings(&[])));
}

#[test]
fn terminator_free_content_is_one_line() {
    let buffer = b"GET x".to_vec();
    assert_eq!(read_lines(&buffer), Ok(strings(&["GET x"])));
}

#[test]
fn lines_split_at_line_feeds() {
    let buffer = b"GET x\nSET y 2\nGET y".to_vec();
    assert_eq!(read_lines(&buffer), Ok(strings(&["GET x", "SET y 2", "GET y"])));
}

#[test]
fn trailing_line_feed_adds_no_line() {
    let buffer = b"a\nb\n".to_vec();
    assert_eq!(read_lines(&buffer), Ok(strings(&["a", "b"])));
}

#[test]
fn lone_line_feed_is_one_empty_line() {
    let buffer = b"\n".to_vec();
    assert_eq!(read_lines(&buffer), Ok(strings(&[""])));
}

#[test]
fn blank_lines_are_kept() {
    let buffer = b"a\n\nb".to_vec();
    assert_eq!(read_lines(&buffer), Ok(strings(&["a", "", "b"])));
}

#[test]
fn carriage_return_line_feed_is_stripped_together() {
    let buffer = b"a\r\nb\r\n".to_vec();
    assert_eq!(read_lines(&buffer), Ok(strings(&["a", "b"])));
}

#[test]
fn interior_carriage_return_is_kept() {
    let buffer = b"a\rb\nc".to_vec();
    assert_eq!(read_lines(&buffer), Ok(strings(&["a\rb", "c"])));
}

#[test]
fn unterminated_final_carriage_return_is_kept() {
    let buffer = b"a\r".to_vec();
    assert_eq!(read_lines(&buffer), Ok(strings(&["a\r"])));
}

#[test]
fn multibyte_text_decodes() {
    let buffer = "h\u{e9}llo\nw\u{f6}rld".as_bytes().to_vec();
    assert_eq!(read_lines(&buffer), Ok(strings(&["h\u{e9}llo", "w\u{f6}rld"])));
}

#[test]
fn invalid_utf8_is_a_read_error() {
    let buffer = vec![b'a', b'\n', 0xff, 0xfe];
    assert!(read_lines(&buffer).is_err());
}

#[test]
fn invalid_utf8_on_any_line_fails_the_whole_read() {
    let buffer = vec![0x80, b'\n', b'o', b'k'];
    assert!(read_lines(&buffer).is_err());
}
