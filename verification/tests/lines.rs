use vboxhelper::branch::{child_suffix, numbered_key, push_decimal};
use vboxhelper::flatmap::FlatMap;
use vboxhelper::strutils::{buf_to_strlines, substring, to_chars, trim_end, EmptyLine};
use vboxhelper::{get_vm_info_map, Error};

fn strings(items: &[&str]) -> Vec<String> {
    items.iter().map(|s| s.to_string()).collect()
}

#[test]
fn lines_are_split_at_line_feeds() {
    let buf = b"a\n\nb\n".to_vec();
    assert_eq!(buf_to_strlines(&buf, EmptyLine::Ignore).unwrap(), strings(&["a", "b"]));
    assert_eq!(buf_to_strlines(&buf, EmptyLine::Keep).unwrap(), strings(&["a", "", "b", ""]));
}

#[test]
fn an_empty_buffer_is_one_empty_line() {
    let buf: Vec<u8> = Vec::new();
    assert_eq!(buf_to_strlines(&buf, EmptyLine::Keep).unwrap(), strings(&[""]));
    assert!(buf_to_strlines(&buf, EmptyLine::Ignore).unwrap().is_empty());
}

#[test]
fn a_text_without_line_feed_is_one_line() {
    let buf = b"key=value".to_vec();
    assert_eq!(buf_to_strlines(&buf, EmptyLine::Ignore).unwrap(), strings(&["key=value"]));
}

#[test]
fn carriage_returns_stay_in_the_lines() {
    let buf = b"a\r\nb\r\n".to_vec();
    assert_eq!(buf_to_strlines(&buf, EmptyLine::Ignore).unwrap(), strings(&["a\r", "b\r"]));
}

#[test]
fn lines_agree_with_split_of_std() {
    let texts = ["", "\n", "a", "a\n", "\na", "a\n\n\nb", "x\ny\nz", "\n\n", "é\nü\n漢字"];
    for text in texts {
        let expected: Vec<String> = text.split('\n').map(|s| s.to_string()).collect();
        assert_eq!(buf_to_strlines(&text.as_bytes().to_vec(), EmptyLine::Keep).unwrap(), expected);
        let kept: Vec<String> = expected.into_iter().filter(|s| !s.is_empty()).collect();
        assert_eq!(buf_to_strlines(&text.as_bytes().to_vec(), EmptyLine::Ignore).unwrap(), kept);
    }
}

#[test]
fn text_beyond_ascii_is_decoded() {
    let buf = "naïve=\"café\"\n".as_bytes().to_vec();
    assert_eq!(buf_to_strlines(&buf, EmptyLine::Ignore).unwrap(), strings(&["naïve=\"café\""]));
}

#[test]
fn invalid_utf8_is_an_encoding_error() {
    let buf = vec![b'a', b'=', 0xff, 0xfe, b'\n'];
    match buf_to_strlines(&buf, EmptyLine::Ignore) {
        Err(Error::Encoding(message)) => assert_eq!(message, "Buffer not UTF-8"),
        other => panic!("unexpected result: {:?}", other),
    }
    assert!(matches!(get_vm_info_map(&buf), Err(Error::Encoding(_))));
    let truncated = vec![0xe2, 0x82];
    assert!(matches!(buf_to_strlines(&truncated, EmptyLine::Keep), Err(Error::Encoding(_))));
}

#[test]
fn chars_and_substrings_round_trip() {
    let chars = to_chars("héllo wörld");
    assert_eq!(chars.len(), 11);
    assert_eq!(substring(&chars, 0, 11), "héllo wörld");
    assert_eq!(substring(&chars, 1, 5), "éllo");
    assert_eq!(substring(&chars, 6, 6), "");
}

#[test]
fn trim_end_removes_trailing_white_space_only() {
    let cases = [
        ("abc  ", "abc"),
        ("  abc", "  abc"),
        ("a b\t\r", "a b"),
        ("", ""),
        ("   ", ""),
        ("x\u{00a0}\u{2003}", "x"),
        ("x\u{200b}", "x\u{200b}"),
    ];
    for (text, expected) in cases {
        let mut chars = to_chars(text);
        trim_end(&mut chars);
        assert_eq!(substring(&chars, 0, chars.len()), expected);
        assert_eq!(expected, text.trim_end());
    }
}

#[test]
fn decimal_numerals_agree_with_std() {
    let numbers = [0usize, 1, 9, 10, 11, 99, 100, 101, 12345, 4294967295, usize::MAX];
    for n in numbers {
        let mut text = String::from("x");
        push_decimal(&mut text, n);
        assert_eq!(text, format!("x{}", n));
        assert_eq!(numbered_key("nic", n), format!("nic{}", n));
        assert_eq!(child_suffix("-1-2", n), format!("-1-2-{}", n));
    }
    assert_eq!(child_suffix("", 1), "-1");
}

#[test]
fn flat_map_keeps_the_last_value_of_a_key() {
    let mut map = FlatMap::new();
    assert_eq!(map.len(), 0);
    assert!(map.get("a").is_none());
    map.insert("a".to_string(), "1".to_string());
    map.insert("b".to_string(), "2".to_string());
    map.insert("a".to_string(), "3".to_string());
    assert_eq!(map.len(), 2);
    assert_eq!(map.get("a"), Some(&"3".to_string()));
    assert_eq!(map.get("b"), Some(&"2".to_string()));
    assert!(map.contains_key("a"));
    assert!(!map.contains_key("c"));
}

#[test]
fn lines_build_a_flat_map() {
    let lines = strings(&["name=\"vm one\"", "\"quoted\"=\"x\"", "bare=y  ", "", "a=1", "a=2"]);
    let (map, ignored) = FlatMap::from_lines(&lines);
    assert_eq!(map.len(), 4);
    assert_eq!(map.get("name"), Some(&"vm one".to_string()));
    assert_eq!(map.get("quoted"), Some(&"x".to_string()));
    assert_eq!(map.get("bare"), Some(&"y".to_string()));
    assert_eq!(map.get("a"), Some(&"2".to_string()));
    assert_eq!(ignored, strings(&[""]));
}

#[test]
fn trailing_white_space_is_trimmed_before_decoding() {
    let lines = strings(&["key=\"value\" \t", "other=\"x\"\r"]);
    let (map, ignored) = FlatMap::from_lines(&lines);
    assert_eq!(map.get("key"), Some(&"value".to_string()));
    assert_eq!(map.get("other"), Some(&"x".to_string()));
    assert!(ignored.is_empty());
}

#[test]
fn a_garbage_line_is_dropped_and_the_rest_is_read() {
    let text = "first=\"1\"\ngarbage line without equals\nsecond=\"2\"\n";
    let map = get_vm_info_map(&text.as_bytes().to_vec()).unwrap();
    assert_eq!(map.len(), 2);
    assert_eq!(map.get("first"), Some(&"1".to_string()));
    assert_eq!(map.get("second"), Some(&"2".to_string()));
    assert!(!map.contains_key("garbage line without equals"));
    assert!(!map.contains_key("garbage"));
    let lines = buf_to_strlines(&text.as_bytes().to_vec(), EmptyLine::Ignore).unwrap();
    let (_, ignored) = FlatMap::from_lines(&lines);
    assert_eq!(ignored, strings(&["garbage line without equals"]));
}

#[test]
fn a_flat_map_lists_its_keys_in_the_order_of_their_coming() {
    let mut map = FlatMap::new();
    assert!(map.keys().is_empty());
    map.insert("b".to_string(), "1".to_string());
    map.insert("a".to_string(), "2".to_string());
    map.insert("b".to_string(), "3".to_string());
    map.insert("c".to_string(), "4".to_string());
    assert_eq!(map.keys(), &strings(&["b", "a", "c"]));
    assert_eq!(map.len(), 3);
    assert_eq!(map.get("b"), Some(&"3".to_string()));
}

#[test]
fn among_ascii_only_the_space_and_the_controls_from_tab_to_return_are_trimmed() {
    for code in 0u8..=127 {
        let c = code as char;
        let mut chars = vec!['x', c];
        trim_end(&mut chars);
        let white = c == ' ' || ('\x09'..='\x0d').contains(&c);
        assert_eq!(chars.len() == 1, white, "character {:?}", c);
        assert_eq!(c.is_whitespace(), white, "character {:?}", c);
    }
}

#[test]
fn a_quoted_line_keeps_what_stands_between_its_quotes() {
    let lines = strings(&["k=\"v \"", "\"q\"=\" w\"\t", "bare=some value  \r"]);
    let (map, ignored) = FlatMap::from_lines(&lines);
    assert_eq!(map.get("k"), Some(&"v ".to_string()));
    assert_eq!(map.get("q"), Some(&" w".to_string()));
    assert_eq!(map.get("bare"), Some(&"some value".to_string()));
    assert!(ignored.is_empty());
    for key in map.keys() {
        assert!(!key.contains('"') && !key.contains('='));
        let value = map.get(key).unwrap();
        assert!(!value.contains('"') && !value.contains('='));
    }
}
