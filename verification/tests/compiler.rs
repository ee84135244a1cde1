//! Token resolution and semantic style compilation.

use std::str::FromStr;

use themosis::compiled::{CompiledValue, ResolvedTokens};
use themosis::primitives::Number;
use themosis::semantic_errors::{CompileError, LabelKind};
use themosis::source::{SourceId, Span};
use themosis::style_compilation::compile_styles;
use themosis::style_model::{
    Name, PropertyAssignment, StyleDefinition, StyleDocument, StyleState, StyleValue,
};
use themosis::token_model::{TokenDefinition, TokenDocument, TokenExpression, TokenKind, TokenValue};
use themosis::token_path::TokenPath;
use themosis::token_resolution::resolve_tokens;

fn path(value: &str) -> TokenPath {
    TokenPath::from_str(value).expect("test path is valid")
}

fn name(value: &str) -> Name {
    Name::new(value).expect("test name is valid")
}

fn number_value(value: f64) -> Number {
    Number::new(value.to_bits()).expect("number is finite")
}

fn property(name_value: &str, value: StyleValue) -> PropertyAssignment {
    PropertyAssignment::new(name(name_value), value)
}

fn style(
    style_name: &str,
    target: &str,
    parent: Option<&str>,
    properties: Vec<PropertyAssignment>,
    states: Vec<StyleState>,
) -> StyleDefinition {
    StyleDefinition::new(
        name(style_name),
        name(target),
        parent.map(name),
        properties,
        states,
    )
}

fn style_document(source: u32, theme: &str, styles: Vec<StyleDefinition>) -> StyleDocument {
    StyleDocument::new(
        SourceId::new(source),
        name(theme),
        Vec::new(),
        Vec::new(),
        styles,
    )
}

fn resolved_tokens() -> ResolvedTokens {
    ResolvedTokens::new(vec![
        (
            path("color.primary"),
            TokenValue::String("primary".to_owned()),
        ),
        (
            path("color.accent"),
            TokenValue::String("accent".to_owned()),
        ),
    ])
}

#[test]
fn compiles_tokens_inheritance_and_fully_expanded_states() {
    let base = style(
        "BaseButton",
        "Button",
        None,
        vec![
            property("background", StyleValue::Token(path("color.primary"))),
            property("font-size", StyleValue::Number(number_value(16.0))),
        ],
        vec![StyleState::new(
            name("hover"),
            vec![property(
                "background",
                StyleValue::Token(path("color.accent")),
            )],
        )],
    );
    let primary = style(
        "PrimaryButton",
        "Button",
        Some("BaseButton"),
        vec![property("font-size", StyleValue::Number(number_value(18.0)))],
        Vec::new(),
    );

    let theme = compile_styles(
        &[style_document(0, "Application", vec![base, primary])],
        resolved_tokens(),
    )
    .expect("styles are valid");

    let primary = theme
        .styles()
        .get(&name("PrimaryButton"))
        .expect("child style was compiled");
    assert_eq!(
        primary.properties().get(&name("background")),
        Some(&CompiledValue::String("primary".to_owned()))
    );
    assert_eq!(
        primary.properties().get(&name("font-size")),
        Some(&CompiledValue::Number(number_value(18.0)))
    );
    let hover = primary
        .states()
        .get(&name("hover"))
        .expect("inherited state was compiled");
    assert_eq!(hover.properties().len(), 2);
    assert_eq!(
        hover.properties().get(&name("background")),
        Some(&CompiledValue::String("accent".to_owned()))
    );
    assert_eq!(
        hover.properties().get(&name("font-size")),
        Some(&CompiledValue::Number(number_value(18.0)))
    );
}

#[test]
fn reports_missing_tokens_and_duplicate_declarations() {
    let duplicated = style(
        "ButtonStyle",
        "Button",
        None,
        vec![
            property("background", StyleValue::Token(path("color.missing"))),
            property("font-size", StyleValue::String("small".to_owned())),
            property("font-size", StyleValue::String("large".to_owned())),
        ],
        vec![
            StyleState::new(name("hover"), Vec::new()),
            StyleState::new(name("hover"), Vec::new()),
        ],
    );
    let document = style_document(0, "Application", vec![duplicated.clone(), duplicated]);

    let errors = compile_styles(&[document], resolved_tokens()).expect_err("styles are invalid");

    assert!(errors.errors().iter().any(|error| matches!(
        error,
        CompileError::DuplicateStyle { style } if style == &name("ButtonStyle")
    )));
    assert!(errors.errors().iter().any(|error| matches!(
        error,
        CompileError::MissingToken { token, .. } if token == &path("color.missing")
    )));
    assert!(errors.errors().iter().any(|error| matches!(
        error,
        CompileError::DuplicateProperty { property, .. } if property == &name("font-size")
    )));
    assert!(errors.errors().iter().any(|error| matches!(
        error,
        CompileError::DuplicateState { state, .. } if state == &name("hover")
    )));
}

#[test]
fn reports_missing_parents_and_inheritance_cycles() {
    let orphan = style("Orphan", "Button", Some("Missing"), Vec::new(), Vec::new());
    let first = style("First", "Button", Some("Second"), Vec::new(), Vec::new());
    let second = style("Second", "Button", Some("First"), Vec::new(), Vec::new());

    let errors = compile_styles(
        &[style_document(0, "Application", vec![orphan, first, second])],
        resolved_tokens(),
    )
    .expect_err("inheritance is invalid");

    assert!(errors.errors().iter().any(|error| matches!(
        error,
        CompileError::MissingParent { style, parent }
            if style == &name("Orphan") && parent == &name("Missing")
    )));
    assert!(errors.errors().iter().any(|error| matches!(
        error,
        CompileError::InheritanceCycle { cycle }
            if cycle == &vec![name("First"), name("Second"), name("First")]
    )));
}

#[test]
fn reports_a_style_that_extends_itself_as_a_cycle() {
    let looped = style("Looped", "Button", Some("Looped"), Vec::new(), Vec::new());
    let child = style("Child", "Button", Some("Looped"), Vec::new(), Vec::new());

    let errors = compile_styles(
        &[style_document(0, "Application", vec![looped, child])],
        resolved_tokens(),
    )
    .expect_err("inheritance is invalid");

    let cycles: Vec<&Vec<Name>> = errors
        .errors()
        .iter()
        .filter_map(|error| match error {
            CompileError::InheritanceCycle { cycle } => Some(cycle),
            _ => None,
        })
        .collect();
    assert_eq!(cycles, vec![&vec![name("Looped"), name("Looped")]]);

    let position = errors
        .errors()
        .iter()
        .position(|error| matches!(error, CompileError::InheritanceCycle { .. }))
        .expect("a cycle is reported");
    let labels = errors.metadata()[position].labels();
    assert_eq!(labels.len(), 2);
    for label in labels {
        assert_eq!(label.kind(), LabelKind::Primary);
        assert_eq!(label.message(), "cycle member");
        assert_eq!(label.source(), SourceId::new(0));
    }
}

#[test]
fn rejects_target_and_property_kind_changes() {
    let base = style(
        "Base",
        "Button",
        None,
        vec![property("font-size", StyleValue::Number(number_value(16.0)))],
        Vec::new(),
    );
    let wrong_target = style("LabelChild", "Label", Some("Base"), Vec::new(), Vec::new());
    let wrong_kind = style(
        "StringChild",
        "Button",
        Some("Base"),
        vec![property("font-size", StyleValue::String("large".to_owned()))],
        Vec::new(),
    );

    let errors = compile_styles(
        &[style_document(0, "Application", vec![base, wrong_target, wrong_kind])],
        resolved_tokens(),
    )
    .expect_err("overrides are invalid");

    assert!(errors.errors().iter().any(|error| matches!(
        error,
        CompileError::TargetMismatch { style, .. } if style == &name("LabelChild")
    )));
    assert!(errors.errors().iter().any(|error| matches!(
        error,
        CompileError::PropertyTypeMismatch { style, property, .. }
            if style == &name("StringChild") && property == &name("font-size")
    )));
}

#[test]
fn reports_spanned_missing_tokens_with_a_suggestion() {
    let source = SourceId::new(9);
    let assignment = PropertyAssignment::spanned(
        name("background"),
        StyleValue::Token(path("color.primray")),
        Span::new(source, 24..54).expect("span is ordered"),
    );
    let definition = StyleDefinition::spanned(
        name("PrimaryButton"),
        name("Button"),
        None,
        vec![assignment],
        Vec::new(),
        Span::new(source, 0..56).expect("span is ordered"),
    );
    let document = StyleDocument::new(
        source,
        name("Application"),
        Vec::new(),
        Vec::new(),
        vec![definition],
    );

    let errors = compile_styles(&[document], resolved_tokens()).expect_err("token is misspelled");

    assert_eq!(errors.errors()[0].code(), "TMS2207");
    assert_eq!(
        errors.metadata()[0].labels()[0].span().map(Span::range),
        Some(24..54)
    );
    assert_eq!(
        errors.metadata()[0].suggestion(),
        Some("did you mean 'color.primary'?")
    );
}

fn number(name: &str, value: f64) -> TokenDefinition {
    TokenDefinition::new(
        path(name),
        TokenKind::Number,
        TokenExpression::Literal(TokenValue::Number(number_value(value))),
    )
    .expect("literal matches declared type")
}

fn alias(name: &str, kind: TokenKind, target: &str) -> TokenDefinition {
    TokenDefinition::new(path(name), kind, TokenExpression::Alias(path(target)))
        .expect("aliases are unresolved")
}

#[test]
fn resolves_forward_and_cross_document_aliases() {
    let documents = [
        TokenDocument::new(
            SourceId::new(0),
            vec![alias("spacing.control", TokenKind::Number, "spacing.base")],
        ),
        TokenDocument::new(SourceId::new(1), vec![number("spacing.base", 8.0)]),
    ];

    let resolved = resolve_tokens(&documents).expect("graph is valid");

    assert_eq!(resolved.len(), 2);
    assert_eq!(
        resolved.get(&path("spacing.control")),
        Some(&TokenValue::Number(number_value(8.0)))
    );
}

#[test]
fn reports_duplicate_and_missing_tokens() {
    let documents = [
        TokenDocument::new(
            SourceId::new(0),
            vec![
                number("spacing.base", 8.0),
                alias("spacing.missing", TokenKind::Number, "unknown"),
            ],
        ),
        TokenDocument::new(SourceId::new(1), vec![number("spacing.base", 4.0)]),
    ];

    let errors = resolve_tokens(&documents).expect_err("graph is invalid");

    assert_eq!(errors.errors().len(), 2);
    assert!(matches!(
        &errors.errors()[0],
        CompileError::DuplicateToken { path: token } if token == &path("spacing.base")
    ));
    assert!(matches!(
        &errors.errors()[1],
        CompileError::MissingAlias { token, target }
            if token == &path("spacing.missing") && target == &path("unknown")
    ));
}

#[test]
fn reports_a_closed_alias_cycle_once() {
    let documents = [TokenDocument::new(
        SourceId::new(0),
        vec![
            alias("a", TokenKind::Number, "b"),
            alias("b", TokenKind::Number, "c"),
            alias("c", TokenKind::Number, "a"),
        ],
    )];

    let errors = resolve_tokens(&documents).expect_err("graph has a cycle");

    assert_eq!(errors.errors().len(), 1);
    assert!(matches!(
        &errors.errors()[0],
        CompileError::AliasCycle { cycle }
            if cycle == &vec![path("a"), path("b"), path("c"), path("a")]
    ));
}

#[test]
fn checks_alias_type_compatibility() {
    let documents = [TokenDocument::new(
        SourceId::new(0),
        vec![
            number("opacity.base", 0.8),
            alias("label.opacity", TokenKind::String, "opacity.base"),
        ],
    )];

    let errors = resolve_tokens(&documents).expect_err("alias type is wrong");

    assert!(matches!(
        &errors.errors()[0],
        CompileError::TypeMismatch {
            token,
            declared: TokenKind::String,
            actual: TokenKind::Number,
        } if token == &path("label.opacity")
    ));
}

#[test]
fn resolution_is_the_same_whatever_the_document_order() {
    let forward = [
        TokenDocument::new(
            SourceId::new(0),
            vec![alias("spacing.control", TokenKind::Number, "spacing.base")],
        ),
        TokenDocument::new(SourceId::new(1), vec![number("spacing.base", 8.0)]),
    ];
    let backward = [
        TokenDocument::new(SourceId::new(1), vec![number("spacing.base", 8.0)]),
        TokenDocument::new(
            SourceId::new(0),
            vec![alias("spacing.control", TokenKind::Number, "spacing.base")],
        ),
    ];

    let a = resolve_tokens(&forward).expect("graph is valid");
    let b = resolve_tokens(&backward).expect("graph is valid");
    assert_eq!(a, b);
}

#[test]
fn an_empty_style_list_is_refused() {
    let errors = compile_styles(&[], resolved_tokens()).expect_err("no documents");
    assert!(matches!(errors.errors()[0], CompileError::NoStyleDocuments));
    assert_eq!(errors.errors()[0].code(), "TMS2201");
}

#[test]
fn a_fragment_cannot_name_the_theme() {
    let fragment = StyleDocument::fragment(SourceId::new(0), Vec::new(), Vec::new(), Vec::new());
    let errors = compile_styles(&[fragment], resolved_tokens()).expect_err("no theme name");
    assert!(matches!(errors.errors()[0], CompileError::NoThemeName));
}

#[test]
fn a_document_with_another_theme_name_is_refused() {
    let errors = compile_styles(
        &[
            style_document(0, "Application", Vec::new()),
            style_document(1, "Other", Vec::new()),
        ],
        resolved_tokens(),
    )
    .expect_err("theme names conflict");
    assert!(errors.errors().iter().any(|error| matches!(
        error,
        CompileError::ThemeNameMismatch { expected, found }
            if expected == &name("Application") && found == &name("Other")
    )));
}
