//! Domain types: diagnostics, spans, names, token paths, token model and
//! numeric primitives.

use std::str::FromStr;

use themosis::compiled::ResolvedTokens;
use themosis::diagnostic::Errors;
use themosis::editor::NativeDiagnostic;
use themosis::primitives::{Color, Number};
use themosis::source::{SourceId, Span};
use themosis::style_model::{InvalidName, InvalidResourceRef, Name, ResourceRef};
use themosis::token_model::{TokenDefinition, TokenExpression, TokenKind, TokenValue};
use themosis::token_path::{InvalidTokenPath, TokenPath};

fn diagnostic(code: &str, message: &str) -> NativeDiagnostic {
    NativeDiagnostic::new(
        code.to_owned(),
        message.to_owned(),
        String::new(),
        String::new(),
        String::new(),
        String::new(),
    )
}

#[test]
fn formats_diagnostics_with_codes_and_line_breaks() {
    let errors = Errors::new(vec![diagnostic("TMS0001", "first"), diagnostic("TMS0001", "second")]);

    assert_eq!(
        errors.to_string(),
        "error[TMS0001]: first\nerror[TMS0001]: second"
    );
}

#[test]
fn formats_empty_collection_as_empty_output() {
    assert_eq!(Errors::<NativeDiagnostic>::new(Vec::new()).to_string(), "");
}

#[test]
fn accepts_empty_and_non_empty_ranges() {
    let source = SourceId::new(7);
    let empty = Span::new(source, 2..2).expect("empty spans are valid");
    let populated = Span::new(source, 2..5).expect("ordered spans are valid");

    assert!(empty.is_empty());
    assert_eq!(populated.source(), source);
    assert_eq!(populated.range(), 2..5);
    assert_eq!(populated.len(), 3);
}

#[test]
fn rejects_reversed_ranges() {
    #[allow(clippy::reversed_empty_ranges)]
    let range = 9..4;
    let error = Span::new(SourceId::new(0), range).expect_err("range is reversed");

    assert_eq!(error.start(), 9);
    assert_eq!(error.end(), 4);
    assert_eq!(error.to_string(), "span end 4 is before start 9");
}

#[test]
fn rejects_empty_and_padded_names() {
    assert_eq!(Name::new("").expect_err("name is empty"), InvalidName::Empty);
    assert_eq!(
        Name::new(" Button ").expect_err("name is padded"),
        InvalidName::SurroundingWhitespace
    );
}

#[test]
fn validates_backend_neutral_resource_references() {
    let reference =
        ResourceRef::new("theme://fonts/ui").expect("reference is non-empty and trimmed");

    assert_eq!(reference.as_str(), "theme://fonts/ui");
    assert_eq!(
        ResourceRef::new("").expect_err("empty reference is invalid"),
        InvalidResourceRef::Empty
    );
    assert_eq!(
        ResourceRef::new(" padded ").expect_err("padded reference is invalid"),
        InvalidResourceRef::SurroundingWhitespace
    );
}

#[test]
fn round_trips_a_grouped_path() {
    let path = TokenPath::from_str("color.brand.primary").expect("path is valid");

    assert_eq!(path.segments(), ["color", "brand", "primary"]);
    assert_eq!(path.name(), "primary");
    assert_eq!(path.to_string(), "color.brand.primary");
}

#[test]
fn rejects_empty_paths_and_segments() {
    assert_eq!(
        TokenPath::from_str("").expect_err("path is empty"),
        InvalidTokenPath::Empty
    );
    assert_eq!(
        TokenPath::from_str("color..primary").expect_err("segment is empty"),
        InvalidTokenPath::EmptySegment { index: 1 }
    );
}

#[test]
fn sorts_paths_lexicographically_by_segment() {
    let mut paths = [
        TokenPath::from_str("space.large").expect("path is valid"),
        TokenPath::from_str("color.primary").expect("path is valid"),
        TokenPath::from_str("space.small").expect("path is valid"),
    ];

    paths.sort();

    assert_eq!(
        paths.map(|path| path.to_string()),
        ["color.primary", "space.large", "space.small"]
    );
}

#[test]
fn rejects_mismatched_literal_types() {
    let error = TokenDefinition::new(
        TokenPath::from_str("enabled").expect("path is valid"),
        TokenKind::Number,
        TokenExpression::Literal(TokenValue::Boolean(true)),
    )
    .expect_err("literal type does not match");

    assert_eq!(
        error.to_string(),
        "declared token type Number does not match literal type Boolean"
    );
}

#[test]
fn resolved_tokens_iterate_in_path_order() {
    let values = ResolvedTokens::new(vec![
        (
            TokenPath::from_str("spacing.small").expect("path is valid"),
            TokenValue::Number(Number::new(4.0f64.to_bits()).expect("number is finite")),
        ),
        (
            TokenPath::from_str("opacity").expect("path is valid"),
            TokenValue::Number(Number::new(0.8f64.to_bits()).expect("number is finite")),
        ),
    ]);

    assert_eq!(
        values
            .iter()
            .map(|(path, _)| path.to_string())
            .collect::<Vec<_>>(),
        ["opacity", "spacing.small"]
    );
}

#[test]
fn canonicalizes_negative_zero() {
    assert_eq!(
        Number::new((-0.0f64).to_bits()).expect("number is finite"),
        Number::new(0.0f64.to_bits()).expect("number is finite")
    );
}

#[test]
fn rejects_invalid_colors() {
    let error = Color::new(
        [1.1f64.to_bits(), 0.0f64.to_bits(), 0.0f64.to_bits()],
        1.0f64.to_bits(),
    )
    .expect_err("red is out of range");

    assert_eq!(error.component(), "red");
    assert_eq!(f64::from_bits(error.value()), 1.1);
}

#[test]
fn rejects_non_finite_numbers_and_keeps_finite_ones() {
    assert!(Number::new(f64::INFINITY.to_bits()).is_err());
    assert!(Number::new(f64::NAN.to_bits()).is_err());
    assert_eq!(
        Number::new(2.5f64.to_bits()).expect("number is finite").get(),
        2.5f64.to_bits()
    );
}

#[test]
fn invalid_token_path_messages_name_the_segment() {
    let error = TokenPath::from_str("a..b").expect_err("segment is empty");
    assert_eq!(error.to_string(), "token path segment 1 is empty");
}

#[test]
fn numbers_order_numerically() {
    let n = |x: f64| Number::new(x.to_bits()).expect("number is finite");
    assert!(n(-2.0).less(n(-1.0)));
    assert!(n(-1.0).less(n(0.0)));
    assert!(n(0.0).less(n(0.5)));
    assert!(n(0.5).less(n(2.0)));
    assert!(!n(2.0).less(n(2.0)));
    assert!(!n(0.0).less(n(-0.0)));
}

#[test]
fn printed_token_paths_parse_back() {
    for text in ["color.brand.primary", "a", "space.large"] {
        let path = TokenPath::from_str(text).expect("path is valid");
        let again = TokenPath::from_str(&path.to_string()).expect("printed path is valid");
        assert_eq!(again, path);
    }
}

#[test]
fn native_diagnostics_expose_their_code() {
    let d = diagnostic("native_builder", "failed");
    assert_eq!(d.code(), "native_builder");
    assert_eq!(d.message(), "failed");
}

#[test]
fn spans_measure_their_length_and_identities_compare_by_index() {
    let span = Span::new(SourceId::new(7), 3..10).expect("range is ordered");
    assert_eq!(span.len(), 7);
    assert_eq!(SourceId::new(7), SourceId::new(7));
    assert_ne!(SourceId::new(7), SourceId::new(8));
}
