use serde_json::Value;
use stryke_terminal::sanitize_json_control_bytes;

#[test]
fn sanitize_makes_raw_control_bytes_parseable() {
    let raw = b"{\"data\":\"\x1b[2;5HX\"}";
    assert!(serde_json::from_slice::<Value>(raw).is_err());
    let fixed = sanitize_json_control_bytes(raw);
    let v: Value = serde_json::from_slice(&fixed).unwrap();
    assert_eq!(v["data"].as_str().unwrap(), "\u{1b}[2;5HX");
}

#[test]
fn sanitize_leaves_normal_bytes_alone() {
    let input = "{\"data\":\"héllo 你\"}".as_bytes();
    assert_eq!(sanitize_json_control_bytes(input), input);
}

#[test]
fn sanitize_escapes_each_control_byte_in_lowercase_hex() {
    let out = sanitize_json_control_bytes(b"a\x00b\x1fc\x0a");
    assert_eq!(out, b"a\\u0000b\\u001fc\\u000a".to_vec());
}

#[test]
fn sanitize_keeps_space_and_delete() {
    let out = sanitize_json_control_bytes(b" \x7f");
    assert_eq!(out, b" \x7f".to_vec());
}

#[test]
fn sanitize_round_trips_bel_and_esc_through_json() {
    let raw = b"{\"data\":\"\x1b]2;t\x07\"}";
    let v: Value = serde_json::from_slice(&sanitize_json_control_bytes(raw)).unwrap();
    assert_eq!(v["data"].as_str().unwrap(), "\u{1b}]2;t\u{7}");
}
