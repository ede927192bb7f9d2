//! Releases newer than the running build.

use graviz::update::parse_release;
use serde_json::Value;

fn body(members: &[(&str, &str)]) -> Value {
    let mut map = serde_json::value::Map::new();
    for (key, text) in members {
        map.insert(key.to_string(), Value::String(text.to_string()));
    }
    Value::Object(map)
}

#[test]
fn newer_tag_yields_update_info() {
    let answer = body(&[("tag_name", "v0.2.0"), ("html_url", "https://github.com/x/y/releases/tag/v0.2.0")]);
    let info = parse_release(&answer, "0.1.0").expect("newer version should be reported");
    assert_eq!(info.version, "0.2.0");
    assert_eq!(info.url, "https://github.com/x/y/releases/tag/v0.2.0");
}

#[test]
fn matching_tag_yields_nothing() {
    let answer = body(&[("tag_name", "v0.1.0"), ("html_url", "https://github.com/x/y/releases/tag/v0.1.0")]);
    assert!(parse_release(&answer, "0.1.0").is_none());
}

#[test]
fn tag_without_a_leading_v_still_compares() {
    let answer = body(&[("tag_name", "0.1.0"), ("html_url", "https://github.com/x/y/releases/tag/0.1.0")]);
    assert!(parse_release(&answer, "0.1.0").is_none());
}

#[test]
fn malformed_response_yields_nothing() {
    assert!(parse_release(&body(&[]), "0.1.0").is_none());
    assert!(parse_release(&body(&[("tag_name", "v0.2.0")]), "0.1.0").is_none());
}
