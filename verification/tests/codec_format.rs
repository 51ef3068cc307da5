use kvs::codec::decode_command;
use kvs::codec::encode_command;
use kvs::codec::CommandLog;

fn encode_str(cmd: &CommandLog) -> String {
    encode_command(cmd).into_iter().collect()
}

fn decode_str(line: &str) -> Option<CommandLog> {
    decode_command(&line.chars().collect())
}

fn set_cmd(k: &str, v: &str) -> CommandLog {
    CommandLog::SetCmd { key: k.to_string(), value: v.to_string() }
}

fn remove_cmd(k: &str) -> CommandLog {
    CommandLog::RemoveCmd { key: k.to_string() }
}

fn serde_set_line(k: &str, v: &str) -> String {
    let mut inner = serde_json::Map::new();
    inner.insert("key".to_string(), serde_json::Value::String(k.to_string()));
    inner.insert("value".to_string(), serde_json::Value::String(v.to_string()));
    let mut outer = serde_json::Map::new();
    outer.insert("Set".to_string(), serde_json::Value::Object(inner));
    serde_json::to_string(&serde_json::Value::Object(outer)).unwrap()
}

fn serde_remove_line(k: &str) -> String {
    let mut inner = serde_json::Map::new();
    inner.insert("key".to_string(), serde_json::Value::String(k.to_string()));
    let mut outer = serde_json::Map::new();
    outer.insert("Remove".to_string(), serde_json::Value::Object(inner));
    serde_json::to_string(&serde_json::Value::Object(outer)).unwrap()
}

#[test]
fn encode_matches_canonical_json_writer() {
    let cases = [
        ("a", "1"),
        ("key", ""),
        ("", "empty key still encodes"),
        ("qu\"ote", "back\\slash"),
        ("tab\there", "new\nline"),
        ("bell\u{7}", "form\u{c}feed and \u{1f}"),
        ("caf\u{e9}", "\u{4e2d}\u{6587}"),
    ];
    for (k, v) in cases {
        assert_eq!(encode_str(&set_cmd(k, v)), serde_set_line(k, v), "key {:?}", k);
    }
    assert_eq!(encode_str(&remove_cmd("x\"y")), serde_remove_line("x\"y"));
}

#[test]
fn decode_round_trips_encoded_records() {
    let cases = [
        ("a", "1"),
        ("qu\"ote", "back\\slash"),
        ("tab\there", "new\nline"),
        ("bell\u{7}", "\u{1}\u{2}\u{3}"),
        ("caf\u{e9}", "\u{4e2d}\u{6587}"),
        ("k", ""),
    ];
    for (k, v) in cases {
        let line = encode_str(&set_cmd(k, v));
        match decode_str(&line) {
            Some(CommandLog::SetCmd { key, value }) => {
                assert_eq!(key, k);
                assert_eq!(value, v);
            }
            other => panic!("decode of {:?} gave {:?}", line, other.is_some()),
        }
    }
    let line = encode_str(&remove_cmd("gone"));
    match decode_str(&line) {
        Some(CommandLog::RemoveCmd { key }) => assert_eq!(key, "gone"),
        _ => panic!("remove record did not decode"),
    }
}

#[test]
fn decode_rejects_non_canonical_lines() {
    let bad = [
        "",
        "garbage",
        "{\"Set\": {\"key\":\"a\",\"value\":\"1\"}}", // a space serde never writes
        "{\"Set\":{\"key\":\"a\",\"value\":\"1\"}}x", // trailing junk
        "{\"Set\":{\"key\":\"a\"}}",                  // missing value field
        "{\"Remove\":{\"key\":\"a\",\"value\":\"1\"}}", // extra field
        "{\"Set\":{\"key\":\"\\u0041\",\"value\":\"1\"}}", // escape for a plain letter
        "{\"Set\":{\"key\":\"\\u000A\",\"value\":\"1\"}}", // uppercase hex
        "{\"Set\":{\"key\":\"\\u000a\",\"value\":\"1\"}}", // short-escape char spelled long
        "{\"Set\":{\"key\":\"a\",\"value\":\"\\",      // lone backslash
        "{\"Set\":{\"key\":\"a\",\"value\":\"1\"}",    // unbalanced braces
        "{\"Delete\":{\"key\":\"a\"}}",                // unknown tag
    ];
    for line in bad {
        assert!(decode_str(line).is_none(), "accepted {:?}", line);
    }
}

#[test]
fn decode_accepts_serde_written_lines() {
    // what the canonical JSON writer produces for awkward strings reads back
    let line = serde_set_line("a\u{8}b", "c\td\re\u{b}");
    match decode_str(&line) {
        Some(CommandLog::SetCmd { key, value }) => {
            assert_eq!(key, "a\u{8}b");
            assert_eq!(value, "c\td\re\u{b}");
        }
        _ => panic!("canonical line did not decode"),
    }
}
