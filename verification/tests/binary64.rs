//! Integers as binary64 values, and the parser failures carried as plain values.

use themosis::binary64::binary64_of;
use themosis::source::SourceId;
use themosis::style_kdl::{self, ParseError};
use themosis::style_model::StyleValue;
use themosis::token_json;

#[test]
fn integers_convert_to_the_nearest_binary64() {
    let values: Vec<i128> = vec![
        0,
        1,
        -1,
        2,
        -2,
        16,
        3,
        1_000_000,
        (1 << 52) - 1,
        1 << 52,
        (1 << 53) - 1,
        1 << 53,
        (1 << 53) + 1,
        (1 << 53) + 2,
        (1 << 53) + 3,
        (1 << 54) + 2,
        (1 << 54) + 6,
        i64::MAX as i128,
        i64::MIN as i128,
        u64::MAX as i128,
        (u64::MAX as i128) + 1,
        104658615128135299829041871505277547246,
        -104658615128135299829041871505277547246,
        i128::MAX,
        i128::MIN,
        i128::MAX - 1,
        i128::MIN + 1,
    ];
    for value in values {
        assert_eq!(binary64_of(value), (value as f64).to_bits(), "{value}");
    }
}

#[test]
fn integer_numbers_in_styles_keep_the_nearest_binary64() {
    let input = "theme dark { style Wide target=Button { number size 104658615128135299829041871505277547246 } }\n";
    let document = style_kdl::parse("wide.kdl", SourceId::new(0), input).expect("integers are numbers");
    match document.styles()[0].properties()[0].value() {
        StyleValue::Number(n) => {
            assert_eq!(n.get(), (104658615128135299829041871505277547246i128 as f64).to_bits());
        },
        _ => panic!("expected a number"),
    }
}

#[test]
fn json_syntax_errors_carry_the_parser_position_and_text() {
    let input = "{\n  \"a\": \n}";
    let expected = serde_json::from_str::<serde_json::Value>(input).expect_err("text is malformed");
    let error = token_json::parse(SourceId::new(0), input).expect_err("text is malformed");
    let item = &error.errors()[0];
    assert_eq!(item.line(), Some(expected.line()));
    assert_eq!(item.column(), Some(expected.column()));
    assert_eq!(item.message(), expected.to_string());
    assert_eq!(item.path(), "$");
}

#[test]
fn kdl_syntax_errors_carry_the_parser_diagnostics() {
    let input = "theme dark { style Primary target=Button { boolean disabled false } }\n";
    let expected = kdl::KdlDocument::parse_v2(input).expect_err("v1 booleans are refused");
    let error = style_kdl::parse("v1.kdl", SourceId::new(0), input).expect_err("v1 booleans are refused");
    match &error.errors()[0] {
        ParseError::Syntax(syntax) => {
            assert_eq!(syntax.file_name(), "v1.kdl");
            assert_eq!(syntax.diagnostics().len(), expected.diagnostics.len());
            for (found, wanted) in syntax.diagnostics().iter().zip(expected.diagnostics.iter()) {
                assert_eq!(found.start, wanted.span.offset());
                assert_eq!(found.end, wanted.span.offset() + wanted.span.len());
                assert_eq!(found.message, wanted.message);
            }
        },
        _ => panic!("expected a syntax error"),
    }
}
