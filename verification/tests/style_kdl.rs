//! The KDL component-style format and its node decoder.

use themosis::diagnostic::Diagnostic;
use themosis::source::SourceId;
use themosis::style_kdl::{
    parse, read_nodes, Decoder, DecodedValue, Expected, NodeDecoder, ParseError, ParseErrors,
    StructureError,
};
use themosis::style_model::StyleValue;

const VALID: &str = r#"
theme dark {
    tokens "tokens/dark.tokens.json"
    import "controls.kdl"

    style PrimaryButton target=Button extends=BaseButton {
        token background color.primary
        number font_size 16
        boolean disabled #false
        string label "Continue"
        resource font "res://fonts/ui.tres"

        state hover {
            token background color.accent
        }
    }
}
"#;

const SCHEMA: &str = r#"
theme dark {
    style Primary {
        number font_size 16
    }
    unknown
}
"#;

const VALUES: &str = r#"
theme dark {
    style Primary target=Button {
        token background "color..primary"
        resource font " padded "
    }
}
"#;

fn structure_errors(errors: &ParseErrors) -> Vec<&StructureError> {
    errors
        .errors()
        .iter()
        .map(|error| match error {
            ParseError::Structure(error) => error,
            ParseError::Syntax(_) => panic!("expected structure error"),
        })
        .collect()
}

fn codes(errors: &ParseErrors) -> Vec<String> {
    errors.errors().iter().map(|error| error.code()).collect()
}

#[test]
fn decodes_theme_sources_styles_and_states() {
    let document = parse("theme.kdl", SourceId::new(4), VALID).expect("fixture is valid");
    let style = &document.styles()[0];

    assert_eq!(document.name().as_str(), "dark");
    assert_eq!(document.token_sources(), ["tokens/dark.tokens.json"]);
    assert_eq!(document.imports(), ["controls.kdl"]);
    assert_eq!(style.name().as_str(), "PrimaryButton");
    assert_eq!(style.target().as_str(), "Button");
    assert_eq!(style.extends().map(|name| name.as_str()), Some("BaseButton"));
    assert!(matches!(
        style.properties()[0].value(),
        StyleValue::Token(path) if path.to_string() == "color.primary"
    ));
    assert!(matches!(
        style.properties()[1].value(),
        StyleValue::Number(value) if f64::from_bits(value.get()) == 16.0
    ));
    assert!(matches!(
        style.properties()[2].value(),
        StyleValue::Boolean(false)
    ));
    assert!(matches!(
        style.properties()[4].value(),
        StyleValue::Resource(reference) if reference.as_str() == "res://fonts/ui.tres"
    ));
    assert_eq!(style.states()[0].name().as_str(), "hover");
}

#[test]
fn accepts_kdl_2_bare_strings_and_hash_booleans() {
    let input = "theme dark { style Primary target=Button { boolean disabled #false } }\n";
    let document = parse("v2.kdl", SourceId::new(0), input).expect("input is valid");

    assert_eq!(document.name().as_str(), "dark");
    assert!(matches!(
        document.styles()[0].properties()[0].value(),
        StyleValue::Boolean(false)
    ));
}

#[test]
fn rejects_kdl_1_boolean_syntax() {
    let input = "theme dark { style Primary target=Button { boolean disabled false } }\n";
    let error = parse("v1.kdl", SourceId::new(0), input).expect_err("v1 is not accepted");

    assert_eq!(codes(&error)[0], "TMS1001");
    assert!(matches!(error.errors()[0], ParseError::Syntax(_)));
    assert!(error.to_string().starts_with("error[TMS1001]: v1.kdl:"));
}

#[test]
fn collects_schema_errors() {
    let error = parse("schema.kdl", SourceId::new(0), SCHEMA).expect_err("fixture is invalid");
    assert_eq!(codes(&error)[0], "TMS1002");
    let messages = structure_errors(&error)
        .into_iter()
        .map(|error| error.message())
        .collect::<Vec<_>>();

    assert!(messages.contains(&"property 'target' is required"));
    assert!(messages.contains(&"unexpected node 'unknown'"));
    assert_eq!(
        error.to_string().matches("error[TMS1002]:").count(),
        error.len()
    );
}

#[test]
fn collects_core_structure_errors() {
    let error = parse("values.kdl", SourceId::new(0), VALUES).expect_err("fixture is invalid");
    let messages = structure_errors(&error)
        .into_iter()
        .map(|error| error.message())
        .collect::<Vec<_>>();

    assert!(messages.contains(&"token path segment 1 is empty"));
    assert!(messages.contains(&"resource reference cannot start or end with whitespace"));
}

#[test]
fn reports_duplicates_unknown_properties_and_extra_arguments() {
    let input = r#"
theme dark {
    style Primary extra target=Button target=Other unknown=value
}
"#;
    let error = parse("schema.kdl", SourceId::new(0), input).expect_err("input is invalid");
    let messages = structure_errors(&error)
        .into_iter()
        .map(|error| error.message())
        .collect::<Vec<_>>();

    assert!(messages.contains(&"duplicate property 'target'"));
    assert!(messages.contains(&"unexpected argument"));
    assert!(messages.contains(&"unexpected property 'unknown'"));
}

#[test]
fn schema_type_errors_use_entry_spans() {
    let input = "theme dark { style Primary target=#true }\n";
    let error = parse("span.kdl", SourceId::new(6), input).expect_err("target is not a string");
    let span = structure_errors(&error)[0]
        .span()
        .expect("type error is spanned");

    assert_eq!(span.source(), SourceId::new(6));
    assert_eq!(&input[span.range()], "target=#true");
}

#[test]
fn rejects_non_finite_numbers() {
    let input = "theme dark { style Primary target=Button { number opacity #inf } }\n";
    let error = parse("number.kdl", SourceId::new(0), input).expect_err("infinity is invalid");
    assert!(structure_errors(&error)[0].message().contains("finite"));
}

#[test]
fn requires_exactly_one_theme_root() {
    let error = parse("empty.kdl", SourceId::new(0), "").expect_err("root is absent");

    assert!(error.to_string().contains("exactly one theme node"));
}

#[test]
fn rejects_a_different_root_node() {
    let input = "styles dark\n";
    let error = parse("root.kdl", SourceId::new(0), input).expect_err("root name is wrong");

    assert!(error.to_string().contains("expected theme node"));
}

#[test]
fn reports_annotations_duplicates_types_and_unclaimed_elements() {
    let input = "(kind)thing (value)\"ok\" 42 extra=1 extra=2 { child }\n";
    let nodes = read_nodes(SourceId::new(3), input).expect("input is valid KDL 2");
    let mut decoder = Decoder::new(SourceId::new(3));

    {
        let mut node = NodeDecoder::new(&mut decoder, &nodes[0], "thing".to_owned());
        let value = node
            .required_argument(&mut decoder, 0, "name", Expected::String)
            .expect("first argument is a string");
        assert_eq!(value.value(), &DecodedValue::Text("ok".to_owned()));
        assert!(node
            .property(&mut decoder, "extra", true, Expected::String)
            .is_none());
        node.finish(&mut decoder);
    }

    let messages = decoder
        .into_errors()
        .into_iter()
        .map(|error| error.message().to_owned())
        .collect::<Vec<_>>();
    assert_eq!(
        messages,
        [
            "node type annotations are not supported",
            "value type annotations are not supported",
            "unexpected argument",
            "property 'extra' must be a string, found integer",
            "duplicate property 'extra'",
            "unexpected node 'child'",
        ]
    );
}

#[test]
fn type_errors_use_the_exact_entry_span() {
    let input = "thing #true\n";
    let nodes = read_nodes(SourceId::new(9), input).expect("input is valid KDL 2");
    let mut decoder = Decoder::new(SourceId::new(9));

    {
        let mut node = NodeDecoder::new(&mut decoder, &nodes[0], "thing".to_owned());
        assert!(node
            .required_argument(&mut decoder, 0, "name", Expected::String)
            .is_none());
        node.finish(&mut decoder);
    }

    let errors = decoder.into_errors();
    assert_eq!(errors.len(), 1);
    let span = errors[0].span().expect("type error has an entry span");
    assert_eq!(span.source(), SourceId::new(9));
    assert_eq!(span.range(), 6..11);
}

#[test]
fn dropping_a_node_reports_unclaimed_schema_elements() {
    let input = "thing ok extra=1 { child }\n";
    let nodes = read_nodes(SourceId::new(0), input).expect("input is valid KDL 2");
    let mut decoder = Decoder::new(SourceId::new(0));

    {
        let mut node = NodeDecoder::new(&mut decoder, &nodes[0], "thing".to_owned());
        assert!(node
            .required_argument(&mut decoder, 0, "name", Expected::String)
            .is_some());
        node.finish(&mut decoder);
    }

    let messages = decoder
        .into_errors()
        .into_iter()
        .map(|error| error.message().to_owned())
        .collect::<Vec<_>>();
    assert_eq!(
        messages,
        ["unexpected property 'extra'", "unexpected node 'child'"]
    );
}

#[test]
fn fragments_hold_declarations_without_a_theme() {
    let input = "style PrimaryButton target=Button { number font_size 16 }\n";
    let document = parse("controls.kdl", SourceId::new(2), input).expect("fragment is valid");
    assert!(document.theme().is_none());
    assert_eq!(document.styles()[0].name().as_str(), "PrimaryButton");
}

#[test]
fn two_theme_roots_are_refused() {
    let error = parse("two.kdl", SourceId::new(0), "theme a\ntheme b\n").expect_err("two roots");
    assert!(error.to_string().contains("exactly one theme node"));
}

#[test]
fn accepts_a_property_before_the_style_name() {
    let input = "theme dark { style target=Button Primary { number size 1 {} } }\n";
    let document = parse("order.kdl", SourceId::new(0), input).expect("header order is free");
    assert_eq!(document.styles()[0].name().as_str(), "Primary");
    assert_eq!(document.styles()[0].target().as_str(), "Button");
    assert_eq!(document.styles()[0].properties().len(), 1);
}

#[test]
fn a_child_under_a_property_node_is_refused() {
    let input = "theme dark { style Primary target=Button { number size 1 { extra } } }\n";
    let error = parse("child.kdl", SourceId::new(0), input).expect_err("children are not claimed");
    let messages: Vec<String> =
        structure_errors(&error).into_iter().map(|e| e.message().to_string()).collect();
    assert_eq!(messages, vec!["unexpected node 'extra'".to_string()]);
}

#[test]
fn an_empty_extends_is_refused() {
    let input = "theme dark { style Primary target=Button extends=\"\" }\n";
    let error = parse("extends.kdl", SourceId::new(0), input).expect_err("extends must be a name");
    assert_eq!(structure_errors(&error).len(), 1);
}
