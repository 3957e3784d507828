use regex::Regex;
use vboxhelper::keyval::{decode_chars, decode_chars_loosely, decode_line};
use vboxhelper::strutils::to_chars;

fn pair(key: &str, value: &str) -> Option<(String, String)> {
    Some((key.to_string(), value.to_string()))
}

#[test]
fn a_bare_key_with_a_quoted_value_is_decoded() {
    assert_eq!(decode_line("name=\"my vm\""), pair("name", "my vm"));
    assert_eq!(decode_line("name=\"\""), pair("name", ""));
    assert_eq!(decode_line("SnapshotUUID-1-2=\"x\""), pair("SnapshotUUID-1-2", "x"));
}

#[test]
fn a_quoted_key_with_a_quoted_value_is_decoded() {
    assert_eq!(decode_line("\"GuestOSType\"=\"Linux 64\""), pair("GuestOSType", "Linux 64"));
    assert_eq!(decode_line("\"k\"=\"\""), pair("k", ""));
}

#[test]
fn a_bare_key_with_a_bare_value_is_decoded() {
    assert_eq!(decode_line("memory=2048"), pair("memory", "2048"));
    assert_eq!(decode_line("memory="), pair("memory", ""));
    assert_eq!(decode_line("a key=a value"), pair("a key", "a value"));
}

#[test]
fn no_quote_stays_in_key_or_value() {
    let lines = ["k=\"v\"", "\"k\"=\"v\"", "k=v", "key with space=\"value with space\""];
    for line in lines {
        let (key, value) = decode_line(line).unwrap();
        assert!(!key.contains('"') && !key.contains('='));
        assert!(!value.contains('"') && !value.contains('='));
    }
}

#[test]
fn lines_of_another_shape_are_not_decoded() {
    let lines = [
        "",
        "=",
        "=value",
        "=\"value\"",
        "garbage line without equals",
        "key=\"value",
        "key=value\"",
        "key=\"va\"lue\"",
        "key=\"a=b\"",
        "key=a=b",
        "\"key=\"value\"",
        "\"key\"=value",
        "\"\"=\"value\"",
        "\"key\"",
        "\"key\"=",
        "\"key\"=\"value",
        "key=\"",
        "key=\"value\" ",
        "\"",
        "\"\"",
        "k\"ey=value",
    ];
    for line in lines {
        assert_eq!(decode_line(line), None, "line {:?}", line);
    }
}

#[test]
fn decoding_characters_and_decoding_a_line_agree() {
    let lines = ["a=\"b\"", "\"a\"=\"b\"", "a=b", "nothing", "é=\"ü\""];
    for line in lines {
        assert_eq!(decode_chars(&to_chars(line)), decode_line(line));
    }
    assert_eq!(decode_line("é=\"ü\""), pair("é", "ü"));
}

fn sample_lines() -> Vec<String> {
    let pieces = ["", "k", "key", "\"", "=", "v", "val ue", "\"\"", "=\"", "\"=", "é", " ", "-"];
    let mut lines = Vec::new();
    for a in pieces {
        for b in pieces {
            for c in pieces {
                for d in pieces {
                    lines.push(format!("{}{}{}{}", a, b, c, d));
                }
            }
        }
    }
    for key in ["k", "long key"] {
        for value in ["", "v", "some value"] {
            lines.push(format!("{}=\"{}\"", key, value));
            lines.push(format!("\"{}\"=\"{}\"", key, value));
            lines.push(format!("{}={}", key, value));
            lines.push(format!("\"{}={}", key, value));
            lines.push(format!("{}\"={}\"", key, value));
        }
    }
    lines
}

#[test]
fn the_decoder_agrees_with_the_three_patterns() {
    let first = Regex::new(r#"^(?P<key>[^"=]+)="(?P<val>[^"=]*)"$"#).unwrap();
    let second = Regex::new(r#"^"(?P<key>[^"=]+)"="(?P<val>[^"=]*)"$"#).unwrap();
    let third = Regex::new(r#"^(?P<key>[^"=]+)=(?P<val>[^"=]*)$"#).unwrap();
    for line in sample_lines() {
        let captures = first
            .captures(&line)
            .or_else(|| second.captures(&line))
            .or_else(|| third.captures(&line));
        let expected = captures.map(|cap| (cap[1].to_string(), cap[2].to_string()));
        assert_eq!(decode_line(&line), expected, "line {:?}", line);
    }
}

#[test]
fn the_loose_decoder_agrees_with_the_loose_pattern() {
    let loose = Regex::new(r#"^"?(?P<key>[^"=]+)"?="?(?P<val>[^"=]*)"?$"#).unwrap();
    for line in sample_lines() {
        let expected = loose.captures(&line).map(|cap| (cap[1].to_string(), cap[2].to_string()));
        assert_eq!(decode_chars_loosely(&to_chars(&line)), expected, "line {:?}", line);
    }
}

#[test]
fn the_loose_decoder_takes_any_of_the_four_quotes() {
    let lines = ["k=v", "\"k=v", "k\"=v", "k=\"v", "k=v\"", "\"k\"=\"v\"", "k=\"v\"", "\"k\"=v"];
    for line in lines {
        assert_eq!(decode_chars_loosely(&to_chars(line)), pair("k", "v"), "line {:?}", line);
    }
    assert_eq!(decode_chars_loosely(&to_chars("k=\"")), pair("k", ""));
    assert_eq!(decode_chars_loosely(&to_chars("k=\"\"")), pair("k", ""));
    assert_eq!(decode_chars_loosely(&to_chars("k=\"\"\"")), None);
    assert_eq!(decode_chars_loosely(&to_chars("\"\"k=v")), None);
    assert_eq!(decode_chars_loosely(&to_chars("k==v")), None);
}
