use migi::header::{remove_header, HeaderParser};
use migi::config::is_markdown_file;

const DOC: &str = "---\ntitle: Hello\ntags: a b\n---\nBody";

#[test]
fn header_round_trip() {
    let d = HeaderParser::get_data(DOC).unwrap();
    assert_eq!(d.title, "Hello");
    assert_eq!(d.tags, vec!["a".to_string(), "b".to_string()]);
    let mut body = DOC.to_string();
    assert!(remove_header(&mut body));
    assert_eq!(body, "Body");
}

#[test]
fn blank_title_is_invalid() {
    assert!(HeaderParser::get_data("---\ntitle:   \t\n---\nBody").is_none());
    assert!(HeaderParser::get_data("---\ntitle:\n---\n").is_none());
}

#[test]
fn missing_header_gives_empty_metadata() {
    let d = HeaderParser::get_data("# Heading\ntitle: not a header\n").unwrap();
    assert_eq!(d.title, "");
    assert!(d.tags.is_empty());
    let mut body = "# Heading\ntext".to_string();
    assert!(!remove_header(&mut body));
    assert_eq!(body, "# Heading\ntext");
    assert_eq!(HeaderParser::get_header("plain"), None);
}

#[test]
fn title_token_ignores_case() {
    let d = HeaderParser::get_data("---\nTITLE:  Big News  \nTags: x\n---\n").unwrap();
    assert_eq!(d.title, "Big News");
    assert!(d.tags.is_empty());
}

#[test]
fn last_lines_win_and_crlf_is_stripped() {
    let d = HeaderParser::get_data("---\r\ntitle: One\r\ntags: a\r\ntitle: Two\r\ntags:  b\tc \r\n---\r\nx").unwrap();
    assert_eq!(d.title, "Two");
    assert_eq!(d.tags, vec!["b".to_string(), "c".to_string()]);
}

#[test]
fn header_lines_between_delimiters() {
    let h = HeaderParser::get_header("intro\n---\ntitle: T\nfoo\n----\nrest\n---\nmore").unwrap();
    assert_eq!(h, vec!["title: T".to_string(), "foo".to_string()]);
    assert_eq!(HeaderParser::get_header("---\n---\nbody"), None);
}

#[test]
fn single_line_helpers() {
    assert_eq!(HeaderParser::get_title("title:  Hi there "), Some("Hi there".to_string()));
    assert_eq!(HeaderParser::get_title("title:   "), None);
    assert_eq!(HeaderParser::get_title("name: x"), None);
    assert_eq!(HeaderParser::get_tags("tags: a  b c"), Some(vec!["a".to_string(), "b".to_string(), "c".to_string()]));
    assert_eq!(HeaderParser::get_tags("tags:"), Some(vec![]));
    assert_eq!(HeaderParser::get_tags("title: x"), None);
}

#[test]
fn body_follows_second_delimiter() {
    let cases = [
        ("---\ntitle: A\n---\nBody", "Body"),
        ("---\ntitle: A\ntags: x\nauthor: b\n---\nBody\nmore", "Body\nmore"),
        ("intro\n---\ntitle: A\n---\nBody", "Body"),
        ("---\ntitle: A\n---\n\nrest", "\nrest"),
        ("---\ntitle: A\n---\n---\nBody", "---\nBody"),
        ("---\r\ntitle: A\r\n---\r\nBody", "Body"),
        ("---\n---\n\n", "\n"),
        ("---\ntitle: A\n---", ""),
        ("---\ntitle: A\n", ""),
    ];
    for (text, body) in cases {
        let mut s = text.to_string();
        assert!(remove_header(&mut s));
        assert_eq!(s, body);
    }
}

#[test]
fn markdown_files_by_extension() {
    assert_eq!(is_markdown_file("content/a.md"), Some(true));
    assert_eq!(is_markdown_file("content/img/logo.png"), Some(false));
    assert_eq!(is_markdown_file("content/notes.MD"), Some(false));
    assert_eq!(is_markdown_file("content/drafts"), None);
    assert_eq!(is_markdown_file("content/.md"), None);
}

#[test]
fn header_without_title_line_is_invalid() {
    assert!(HeaderParser::get_data("---\ntags: a\n---\nBody").is_none());
    assert!(HeaderParser::get_data("---\nauthor: me\n---\n").is_none());
    assert!(HeaderParser::get_data("---\n---\nBody").is_some());
}
