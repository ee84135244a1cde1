//! The DTCG-style JSON token format.

use themosis::primitives::DimensionUnit;
use themosis::source::SourceId;
use themosis::token_json::{parse, read_json, JsonValue};
use themosis::token_model::{TokenExpression, TokenKind, TokenValue};

const VALID: &str = r#"{
  "color": {
    "$type": "color",
    "primary": {
      "$value": { "colorSpace": "srgb", "components": [0.1, 0.2, 0.3], "alpha": 1.0 }
    },
    "accent": { "$value": "{color.primary}" }
  },
  "enabled": { "$type": "boolean", "$value": true },
  "label": { "$type": "string", "$value": "Continue" },
  "opacity": { "$type": "number", "$value": 0.8 },
  "spacing": {
    "$type": "dimension",
    "small": { "$value": { "value": 4, "unit": "px" } }
  }
}"#;

const STRUCTURE: &str = r#"{
  "untyped": { "$value": 1 },
  "fancy": { "$type": "gradient", "$value": "linear" },
  "odd": { "$type": "number", "$value": 1, "$unknown": true }
}"#;

const COLOR: &str = r#"{
  "brand": {
    "$type": "color",
    "$value": { "colorSpace": "srgb", "components": [1.5, 0.0, 0.0], "alpha": 1.0 }
  }
}"#;

#[test]
fn parses_supported_tokens_and_group_types() {
    let document = parse(SourceId::new(3), VALID).expect("fixture is valid");
    let paths: Vec<String> = document
        .tokens()
        .iter()
        .map(|token| token.path().to_string())
        .collect();

    assert_eq!(document.source(), SourceId::new(3));
    assert_eq!(
        paths,
        [
            "color.accent",
            "color.primary",
            "enabled",
            "label",
            "opacity",
            "spacing.small",
        ]
    );
    assert_eq!(document.tokens()[0].kind(), TokenKind::Color);
    assert!(matches!(
        document.tokens()[0].expression(),
        TokenExpression::Alias(path) if path.to_string() == "color.primary"
    ));
    assert!(matches!(
        document.tokens()[5].expression(),
        TokenExpression::Literal(TokenValue::Dimension(value))
            if value.unit() == DimensionUnit::Pixel
                && f64::from_bits(value.value().get()) == 4.0
    ));
}

#[test]
fn reports_all_structural_errors() {
    let errors = parse(SourceId::new(0), STRUCTURE).expect_err("fixture is invalid");
    let messages: Vec<&str> = errors.errors().iter().map(|error| error.message()).collect();

    assert!(messages.contains(&"token has no $type and does not inherit one"));
    assert!(messages.contains(&"unsupported token type 'gradient'"));
    assert!(messages.contains(&"unsupported reserved property '$unknown'"));
}

#[test]
fn rejects_out_of_range_color_components() {
    let errors = parse(SourceId::new(0), COLOR).expect_err("fixture is invalid");

    assert!(errors.to_string().contains("color component red"));
}

#[test]
fn reports_json_syntax_location() {
    let errors = parse(SourceId::new(0), "{\n  nope\n}").expect_err("JSON is invalid");
    let error = &errors.errors()[0];

    assert_eq!(error.line(), Some(2));
    assert!(error.column().is_some());
}

#[test]
fn a_root_that_is_not_an_object_is_refused() {
    let errors = parse(SourceId::new(0), "[1, 2]").expect_err("root is an array");
    assert_eq!(errors.errors()[0].message(), "token document root must be an object");
    assert_eq!(errors.errors()[0].path(), "$");
    assert_eq!(errors.to_string(), "error[TMS1102]: $: token document root must be an object");
}

#[test]
fn syntax_errors_use_their_own_code() {
    let errors = parse(SourceId::new(0), "{").expect_err("JSON is invalid");
    assert!(errors.to_string().starts_with("error[TMS1101]: "));
}

#[test]
fn tokens_come_out_in_path_order() {
    let input = r#"{ "b": { "$type": "boolean", "$value": true }, "a": { "$type": "boolean", "$value": false } }"#;
    let document = parse(SourceId::new(1), input).expect("input is valid");
    let paths: Vec<String> = document.tokens().iter().map(|t| t.path().to_string()).collect();
    assert_eq!(paths, ["a", "b"]);
}

#[test]
fn reads_json_members_in_name_order() {
    let value = read_json(r#"{"b": [true, "x"], "a": null}"#).expect("JSON is valid");
    match value {
        JsonValue::Object(members) => {
            let names: Vec<&str> = members.iter().map(|(name, _)| name.as_str()).collect();
            assert_eq!(names, vec!["a", "b"]);
            assert_eq!(members[0].1, JsonValue::Null);
            assert_eq!(
                members[1].1,
                JsonValue::Array(vec![JsonValue::Bool(true), JsonValue::String("x".to_owned())])
            );
        }
        other => panic!("expected an object, got {other:?}"),
    }
}

#[test]
fn read_json_refuses_malformed_and_overly_nested_text() {
    assert!(read_json("{\"a\": ").is_err());
    let deep = format!("{}{}", "[".repeat(200), "]".repeat(200));
    assert!(read_json(&deep).is_err());
    let shallow = format!("{}{}", "[".repeat(100), "]".repeat(100));
    assert!(read_json(&shallow).is_ok());
}
