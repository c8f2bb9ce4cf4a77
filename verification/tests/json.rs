use nocompile::json::{parse, Value};

fn s(text: &str) -> Value {
    parse(text).expect("valid json")
}

/// What a number is worth.
fn number(value: &Value) -> f64 {
    let Value::Number(text) = value else {
        panic!("expected a number, got {value:?}");
    };
    text.parse().expect("a number")
}

#[test]
fn parses_the_shape_cargo_emits() {
    let value = s(
        r#"{"reason":"compiler-message","target":{"name":"f0"},"message":{"rendered":"error: x\n","level":"error"}}"#,
    );
    assert_eq!(value.path_str(&["reason"]), Some("compiler-message"));
    assert_eq!(value.path_str(&["target", "name"]), Some("f0"));
    assert_eq!(value.path_str(&["message", "level"]), Some("error"));
    assert_eq!(value.path_str(&["message", "rendered"]), Some("error: x\n"));
}

#[test]
fn a_missing_path_is_none_rather_than_an_error() {
    let value = s(r#"{"a":{"b":1}}"#);
    assert_eq!(value.path_str(&["a", "missing"]), None);
    assert_eq!(value.path_str(&["missing", "b"]), None);
    // Present but not a string.
    assert_eq!(value.path_str(&["a", "b"]), None);
}

#[test]
fn unescapes_every_two_character_escape() {
    let value = s(r#""\" \\ \/ \b \f \n \r \t""#);
    assert_eq!(value.as_str(), Some("\" \\ / \u{8} \u{c} \n \r \t"));
}

#[test]
fn a_rendered_diagnostic_survives_verbatim() {
    // The reason a scanner will not do: braces, quotes and newlines all
    // appear inside the one field the goldens are made of.
    let raw = "error[E0308]: mismatched types\n --> src/bin/f0.rs:2:18\n  |\n2 | let _x: u8 = \"{}\";\n";
    let mut encoded = String::from("{\"rendered\":\"");
    for ch in raw.chars() {
        match ch {
            '"' => encoded.push_str("\\\""),
            '\n' => encoded.push_str("\\n"),
            other => encoded.push(other),
        }
    }
    encoded.push_str("\"}");
    assert_eq!(s(&encoded).path_str(&["rendered"]), Some(raw));
}

#[test]
fn joins_a_surrogate_pair() {
    assert_eq!(s(r#""\uD83E\uDD80""#).as_str(), Some("\u{1F980}"));
}

#[test]
fn keeps_non_ascii_that_was_not_escaped() {
    // `serde_json` emits raw UTF-8 rather than `\u` escapes, so this is the
    // form a diagnostic quoting a non-ASCII identifier actually arrives in.
    assert_eq!(s("\"identifiér ↦ ✓\"").as_str(), Some("identifiér ↦ ✓"));
}

#[test]
fn parses_a_basic_multilingual_plane_escape() {
    assert_eq!(s(r#""\u00e9\u2192""#).as_str(), Some("é→"));
}

#[test]
fn parses_nesting_and_the_other_value_kinds() {
    let value = s(r#"{"a":[1,-2.5,1e3,true,false,null,{},[]],"b":{}}"#);
    let Some(Value::Array(items)) = value.get("a") else {
        panic!("expected an array");
    };
    assert_eq!(items.len(), 8);
    assert_eq!(number(&items[0]), 1.0);
    assert_eq!(number(&items[1]), -2.5);
    assert_eq!(number(&items[2]), 1000.0);
    assert_eq!(items[3], Value::Bool(true));
    assert_eq!(items[4], Value::Bool(false));
    assert_eq!(items[5], Value::Null);
}

#[test]
fn accepts_whitespace_between_every_token() {
    let value = s(" { \"a\" : [ 1 , 2 ] } ");
    let Some(Value::Array(items)) = value.get("a") else {
        panic!("expected an array");
    };
    assert_eq!(items.len(), 2);
    assert_eq!(number(&items[0]), 1.0);
    assert_eq!(number(&items[1]), 2.0);
}

#[test]
fn accepts_empty_containers_and_the_empty_string() {
    assert_eq!(s("{}"), Value::Object(Vec::new()));
    assert_eq!(s("[]"), Value::Array(Vec::new()));
    assert_eq!(s(r#""""#), Value::String(String::new()));
}

/// Malformed input has to be loud. A parser that guessed would put the
/// guess into a golden.
#[test]
fn rejects_malformed_input() {
    for bad in [
        "",
        "{",
        "[",
        "{\"a\"}",
        "{\"a\":}",
        "{\"a\":1,}",
        "[1,]",
        "\"unterminated",
        "\"\\q\"",
        "\"\\u12\"",
        "\"\\uZZZZ\"",
        "tru",
        "01",
        "1.",
        "1e",
        "-",
        ".5",
        "{} trailing",
        "\"\u{1}\"",
    ] {
        assert!(parse(bad).is_err(), "should have rejected {bad:?}");
    }
}

#[test]
fn rejects_a_lone_surrogate() {
    assert!(parse(r#""\uD83E""#).is_err());
    assert!(parse(r#""\uD83E\u0041""#).is_err());
}

#[test]
fn an_error_names_where_it_stopped() {
    let error = parse("{\"a\": tru}").expect_err("should fail");
    assert!(error.to_string().contains("at byte"), "{error:?}");
}

#[test]
fn duplicate_keys_keep_the_first() {
    // Cargo never emits one; fixing the behaviour keeps it from being a
    // surprise if it ever does.
    let value = s(r#"{"a":1,"a":2}"#);
    assert_eq!(number(value.get("a").expect("a member")), 1.0);
}
