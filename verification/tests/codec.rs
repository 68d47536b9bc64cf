use cookie_todo::codec::{decode, encode};
use cookie_todo::entry::{Entry, ParseError};

fn entry(finished: bool, name: &str, description: &str) -> Entry {
    Entry { finished, name: String::from(name), description: String::from(description) }
}

#[test]
fn encode_is_field_tagged() {
    let e = entry(false, "", "");
    assert_eq!(encode(&e), "{\"finished\":false,\"name\":\"\",\"description\":\"\"}");
    let e = entry(true, "Buy milk", "two liters");
    assert_eq!(
        encode(&e),
        "{\"finished\":true,\"name\":\"Buy milk\",\"description\":\"two liters\"}"
    );
}

#[test]
fn encode_escapes_quotes_and_backslashes() {
    let e = entry(false, "say \"hi\"", "C:\\todo");
    assert_eq!(
        encode(&e),
        "{\"finished\":false,\"name\":\"say \\\"hi\\\"\",\"description\":\"C:\\\\todo\"}"
    );
}

#[test]
fn round_trip_plain() {
    let e = entry(true, "Buy milk", "two liters");
    let back = decode(&encode(&e)).unwrap();
    assert_eq!(back.finished, true);
    assert_eq!(back.name, "Buy milk");
    assert_eq!(back.description, "two liters");
}

#[test]
fn round_trip_awkward_texts() {
    let cases = [
        ("", ""),
        ("say \"hi\"", "C:\\todo"),
        ("\\\"\\", "\"\"\""),
        ("line\none", "tab\tseparated"),
        ("unicode: äöü 東京", "emoji: ☃"),
    ];
    for (name, description) in cases {
        let e = entry(false, name, description);
        let back = decode(&encode(&e)).unwrap();
        assert_eq!(back.finished, false);
        assert_eq!(back.name, name);
        assert_eq!(back.description, description);
    }
}

#[test]
fn decode_rejects_malformed_documents() {
    let bad = [
        "",
        "{}",
        "not json at all",
        "{\"finished\":false,\"name\":\"\"}",
        "{\"finished\":maybe,\"name\":\"\",\"description\":\"\"}",
        "{\"name\":\"\",\"description\":\"\",\"finished\":false}",
        "{\"finished\":false,\"name\":\"\",\"description\":\"\"} ",
        "{\"finished\":false,\"name\":\"\\x\",\"description\":\"\"}",
        "{\"finished\":false,\"name\":\"unterminated,\"description\":\"\"}",
    ];
    for s in bad {
        match decode(s) {
            Err(ParseError::InvalidEntry) => {},
            other => panic!("expected a value error for {:?}, got {:?}", s, other),
        }
    }
}
