//! The Godot backend: portable build plans, engine diagnostics, and the
//! decisions of the command-line integration.

use themosis::compiled::{CompiledState, CompiledStyle, CompiledTheme, CompiledValue, ResolvedTokens};
use themosis::diagnostic::{Diagnostic, Errors};
use themosis::editor::{
    build_diagnostics, collect_resource_dependencies, editor_root, load_diagnostics,
    project_dependencies, resource_path, EditorDiagnostic, NativeDiagnostic, NativeDiagnostics,
    ThemeBuildError,
};
use themosis::godot::{
    integral_pixels, plan_theme, whole_number, BackendError, BackendErrors, GodotItemKind,
    PreparedValue,
};
use themosis::godot_runtime::{
    format_diagnostic, has_tres_extension, interpret_response, normalize_absolute_path,
    parent_path, parse_required_version, place_output, safe_relative_path, version_label,
    RunnerAnswer,
};
use themosis::loader::LoadError;
use themosis::name_map::NameMap;
use themosis::primitives::{Color, Dimension, DimensionUnit, Number};
use themosis::sources::{InvalidSourcePath, SourcePath};
use themosis::style_model::{Name, ResourceRef};
use themosis::token_json::read_json;

fn name(value: &str) -> Name {
    Name::new(value).expect("name is valid")
}

fn theme(properties: Vec<(Name, CompiledValue)>) -> CompiledTheme {
    themed(properties, Vec::new())
}

fn themed(properties: Vec<(Name, CompiledValue)>, states: Vec<(Name, CompiledState)>) -> CompiledTheme {
    let style_name = name("ProbeButton");
    CompiledTheme::new(
        name("Probe"),
        ResolvedTokens::new(Vec::new()),
        NameMap::from_entries(vec![(
            style_name.clone(),
            CompiledStyle::new(
                style_name,
                name("Button"),
                NameMap::from_entries(properties),
                NameMap::from_entries(states),
            ),
        )]),
    )
}

fn dimension(value: f64, unit: DimensionUnit) -> CompiledValue {
    CompiledValue::Dimension(Dimension::new(value.to_bits(), unit).expect("dimension is valid"))
}

fn number(value: f64) -> CompiledValue {
    CompiledValue::Number(Number::new(value.to_bits()).expect("number is finite"))
}

#[test]
fn accepts_integral_pixel_font_size_inputs() {
    let pixels = dimension(18.0, DimensionUnit::Pixel);
    let rem = dimension(1.0, DimensionUnit::Rem);
    let fractional = number(12.5);

    assert!(plan_theme(&theme(vec![(name("font_size"), pixels)])).is_ok());
    for value in [rem, fractional] {
        let error = plan_theme(&theme(vec![(name("font_size"), value)]))
            .expect_err("value is not an integral pixel count");
        assert!(matches!(
            error.errors(),
            [BackendError::InvalidInteger { .. }]
        ));
    }
}

#[test]
fn validates_resource_namespaces_without_godot_runtime() {
    let invalid = CompiledValue::Resource(
        ResourceRef::new("https://example.com/font.tres").expect("reference is non-empty"),
    );

    let error = plan_theme(&theme(vec![(name("font"), invalid)]))
        .expect_err("external URL is not a Godot resource path");

    assert!(matches!(
        error.errors(),
        [BackendError::InvalidResourceReference { .. }]
    ));
}

#[test]
fn formats_portable_failures_with_stable_codes() {
    let errors = BackendErrors::new(vec![
        BackendError::UnsupportedValue {
            style: name("ProbeButton"),
            target: name("Button"),
            state: None,
            property: name("disabled"),
            value: "boolean",
        },
        BackendError::StateOverridesBaseItem {
            style: name("ProbeButton"),
            state: name("hover"),
            property: name("normal"),
        },
        BackendError::InvalidInteger {
            style: name("ProbeButton"),
            property: name("font_size"),
            expected: "a positive whole number of pixels",
        },
        BackendError::InvalidResourceReference {
            reference: ResourceRef::new("https://example.com/font.tres")
                .expect("reference is non-empty"),
        },
    ]);

    assert_eq!(
        errors.errors().iter().map(|error| error.code()).collect::<Vec<_>>(),
        ["TMS3001", "TMS3002", "TMS3003", "TMS3004"]
    );
    assert_eq!(errors.to_string().matches("error[TMS3").count(), 4);
}

#[test]
fn formats_native_diagnostics_with_dynamic_codes() {
    let diagnostics = NativeDiagnostics::new(vec![
        NativeDiagnostic::new(
            "unsupported_property".to_owned(),
            "property is unavailable".to_owned(),
            "Probe".to_owned(),
            "Button".to_owned(),
            String::new(),
            "missing".to_owned(),
        ),
        NativeDiagnostic::new(
            "invalid_plan".to_owned(),
            "plan is invalid".to_owned(),
            String::new(),
            String::new(),
            String::new(),
            String::new(),
        ),
    ]);

    assert_eq!(
        diagnostics.to_string(),
        "error[unsupported_property]: [style=Probe target=Button property=missing] property is unavailable\nerror[invalid_plan]: plan is invalid"
    );

    let error = ThemeBuildError::Native(diagnostics);
    assert!(error.source().is_some());
    assert!(error.to_string().starts_with("error[unsupported_property]:"));
}

#[test]
fn creates_project_resource_paths() {
    assert_eq!(
        resource_path("theme/styles/buttons.kdl")
            .expect("path is relative")
            .to_string(),
        "res://theme/styles/buttons.kdl"
    );
    assert!(resource_path("../outside.kdl").is_err());
}

#[test]
fn rejects_resource_paths_that_escape_the_project() {
    assert!(safe_relative_path("theme/generated.tres").is_ok());
    assert!(safe_relative_path("../generated.tres").is_err());
}

#[test]
fn rejects_invalid_version_requirements() {
    assert_eq!(
        parse_required_version("4.5.0").expect("version is valid"),
        "4.5.0"
    );
    assert!(parse_required_version("4.5").is_err());
    assert!(parse_required_version("4.5-stable").is_err());
}

#[test]
fn plans_colors_with_their_candidate_categories() {
    let color = Color::new(
        [0.1f64.to_bits(), 0.2f64.to_bits(), 0.3f64.to_bits()],
        1.0f64.to_bits(),
    )
    .expect("color is valid");
    let plan = plan_theme(&theme(vec![(name("normal"), CompiledValue::Color(color))]))
        .expect("portable values are valid");

    assert_eq!(plan.name().as_str(), "Probe");
    let styles = plan.styles().entries();
    assert_eq!(styles.len(), 1);
    let style = &styles[0].1;
    assert_eq!(style.name().as_str(), "ProbeButton");
    assert_eq!(style.target().as_str(), "Button");
    let item = &style.items()[0];
    assert_eq!(item.property().as_str(), "normal");
    assert_eq!(
        item.candidates().iter().map(|c| c.wire_name()).collect::<Vec<_>>(),
        ["color", "stylebox"]
    );
    assert_eq!(item.value_kind(), "color");
    assert_eq!(item.value(), &PreparedValue::Color(color));
}

#[test]
fn whole_numbers_are_read_from_binary64_patterns() {
    assert_eq!(whole_number(18.0f64.to_bits()), Some(18));
    assert_eq!(whole_number((-3.0f64).to_bits()), Some(-3));
    assert_eq!(whole_number(0.0f64.to_bits()), Some(0));
    assert_eq!(whole_number((-0.0f64).to_bits()), Some(0));
    assert_eq!(whole_number(12.5f64.to_bits()), None);
    assert_eq!(whole_number(2147483647.0f64.to_bits()), Some(i32::MAX));
    assert_eq!(whole_number(2147483648.0f64.to_bits()), None);
    assert_eq!(whole_number((-2147483648.0f64).to_bits()), Some(i32::MIN));
    assert_eq!(whole_number((-2147483649.0f64).to_bits()), None);
    assert_eq!(whole_number(1e300f64.to_bits()), None);
    assert_eq!(whole_number(f64::MIN_POSITIVE.to_bits()), None);
    assert_eq!(whole_number(4503599627370497.0f64.to_bits()), None);
    assert_eq!(integral_pixels(&dimension(1.0, DimensionUnit::Rem)), None);
    assert_eq!(integral_pixels(&dimension(24.0, DimensionUnit::Pixel)), Some(24));
}

#[test]
fn states_may_not_override_a_base_item_with_another_value() {
    let hover = CompiledState::new(
        name("hover"),
        NameMap::from_entries(vec![(name("font_size"), number(20.0))]),
    );
    let error = plan_theme(&themed(
        vec![(name("font_size"), number(16.0))],
        vec![(name("hover"), hover)],
    ))
    .expect_err("state overrides the base item");
    assert!(matches!(
        error.errors(),
        [BackendError::StateOverridesBaseItem { .. }]
    ));
    assert_eq!(
        error.errors()[0].to_string(),
        "style 'ProbeButton' state 'hover' changes base theme item 'font_size'; use the exact state-specific Godot item name instead"
    );

    let same = CompiledState::new(
        name("hover"),
        NameMap::from_entries(vec![
            (name("font_size"), number(16.0)),
            (name("hover_color_size"), number(3.0)),
        ]),
    );
    let plan = plan_theme(&themed(
        vec![(name("font_size"), number(16.0))],
        vec![(name("hover"), same)],
    ))
    .expect("a repeated base value is left to the base item");
    let items = plan.styles().entries()[0].1.items();
    assert_eq!(items.len(), 2);
    assert_eq!(items[1].state().map(|s| s.as_str()), Some("hover"));
    assert_eq!(items[1].value(), &PreparedValue::Integer(3));
}

#[test]
fn unsupported_values_name_their_kind() {
    let error = plan_theme(&theme(vec![(name("disabled"), CompiledValue::Boolean(true))]))
        .expect_err("booleans have no Godot item");
    assert_eq!(
        error.to_string(),
        "error[TMS3001]: style 'ProbeButton' property 'disabled' cannot map boolean values to a Godot theme item on target 'Button'"
    );
}

#[test]
fn engine_candidates_have_stable_spellings() {
    assert_eq!(GodotItemKind::FontSize.wire_name(), "font_size");
    assert_eq!(GodotItemKind::StyleBox.wire_name(), "stylebox");
}

#[test]
fn build_failures_become_editor_diagnostics() {
    let diagnostics = build_diagnostics(&ThemeBuildError::Builder("boom".to_owned()));
    assert_eq!(diagnostics.len(), 1);
    assert_eq!(diagnostics[0].code(), "native_builder");
    assert_eq!(diagnostics[0].message(), "boom");
    assert_eq!(
        ThemeBuildError::Builder("boom".to_owned()).to_string(),
        "native Godot builder failed: boom"
    );
    assert!(ThemeBuildError::Builder("boom".to_owned()).source().is_none());
    assert!(ThemeBuildError::Builder("boom".to_owned()).native_diagnostics().is_none());
}

#[test]
fn load_failures_become_editor_diagnostics_at_project_paths() {
    let owner = SourcePath::normalize("theme/main.kdl").expect("path is valid");
    let error = LoadError::InvalidPath {
        owner: Some(owner),
        path: "../../x.kdl".to_owned(),
        source: InvalidSourcePath::EscapesRoot,
    };
    let diagnostics = load_diagnostics(&error);
    assert_eq!(diagnostics.len(), 1);
    assert_eq!(diagnostics[0].code(), "invalid_source_path");
    assert_eq!(diagnostics[0].message(), "source path escapes the theme root");
    assert_eq!(diagnostics[0].path(), "res://theme/main.kdl");
    let too_many = load_diagnostics(&LoadError::TooManySources);
    assert_eq!(too_many[0].path(), "");
    assert_eq!(too_many[0].message(), "theme contains too many sources");
}

#[test]
fn editor_diagnostics_keep_project_paths() {
    let d = EditorDiagnostic::new("c", "m").at_path("res://a.kdl").with_span(1, 4).with_location(Some(2), None);
    assert_eq!(d.path(), "res://a.kdl");
    assert_eq!(d.span(), (Some(1), Some(4)));
    assert_eq!(d.location(), (Some(2), None));
    assert_eq!(EditorDiagnostic::new("c", "m").at_path("a.kdl").path(), "res://a.kdl");
}

#[test]
fn output_paths_are_normalized_and_checked() {
    assert_eq!(normalize_absolute_path("/a/./b/../c.tres").expect("absolute"), "/a/c.tres");
    assert!(normalize_absolute_path("a/b").is_err());
    assert_eq!(
        normalize_absolute_path("/..").expect_err("escapes"),
        "output path '/..' escapes the filesystem root"
    );
    assert!(has_tres_extension("res://theme/generated.tres"));
    assert!(!has_tres_extension("theme/.tres"));
    assert!(!has_tres_extension("theme/generated.res"));
    assert_eq!(parent_path("/a/b/c.tres"), Some("/a/b".to_owned()));
    assert_eq!(parent_path("/a"), Some("/".to_owned()));
    assert_eq!(parent_path("/"), None);
    assert_eq!(
        safe_relative_path("./theme//generated.tres").expect("path stays inside"),
        "theme/generated.tres"
    );
    assert_eq!(
        safe_relative_path(".").expect_err("no file"),
        "Godot theme output must name a file below res://"
    );
}

#[test]
fn outputs_are_placed_inside_the_project() {
    assert_eq!(
        place_output("/p", "/p/theme/new/x.tres", "/p/theme", "/p/theme", true),
        Ok("res://theme/new/x.tres".to_owned())
    );
    assert_eq!(
        place_output("/p", "/p/link/x.tres", "/p/link", "/outside", true),
        Err("Godot theme output '/p/link/x.tres' escapes project '/p' through '/p/link'".to_owned())
    );
    assert_eq!(
        place_output("/p", "/p/file/x.tres", "/p/file", "/p/file", false),
        Err("Godot output ancestor '/p/file' is not a directory".to_owned())
    );
}

#[test]
fn runner_responses_are_interpreted() {
    let ok = read_json(r#"{"ok": true, "godot_version": {"display": "4.5.stable", "hash": "0123456789abc"}}"#)
        .expect("JSON is valid");
    assert_eq!(version_label(&ok), Some("4.5.stable [012345678]".to_owned()));
    assert_eq!(
        interpret_response(&ok, true),
        RunnerAnswer::Version("4.5.stable [012345678]".to_owned())
    );
    let failed = read_json(
        r#"{"ok": false, "diagnostics": [{"code": "unknown_target", "message": "no such class", "target": "Buton", "state": ""}, {}]}"#,
    )
    .expect("JSON is valid");
    assert_eq!(
        interpret_response(&failed, true),
        RunnerAnswer::Failure(
            "[unknown_target target=Buton] no such class\n[godot_error] Godot target operation failed"
                .to_owned()
        )
    );
    let silent = read_json(r#"{"ok": false}"#).expect("JSON is valid");
    assert_eq!(interpret_response(&silent, false), RunnerAnswer::Unexplained);
    assert_eq!(interpret_response(&ok, false), RunnerAnswer::Unexplained);
    let plain = read_json(r#"{"ok": true, "godot_version": "4.5.1"}"#).expect("JSON is valid");
    assert_eq!(version_label(&plain), Some("4.5.1".to_owned()));
    let unnamed = read_json(r#"{"ok": true}"#).expect("JSON is valid");
    assert_eq!(
        interpret_response(&unnamed, true),
        RunnerAnswer::Failure("Godot response did not identify its runtime version".to_owned())
    );
    let lone = read_json(r#"{"code": "x"}"#).expect("JSON is valid");
    assert_eq!(format_diagnostic(&lone), "[x] Godot target operation failed");
}

#[test]
fn version_requirements_follow_unsigned_parsing() {
    assert!(parse_required_version("+4.5.0").is_ok());
    assert!(parse_required_version("4.5.4294967296").is_err());
    assert!(parse_required_version("4..0").is_err());
    assert_eq!(
        parse_required_version("x").expect_err("not a version"),
        "expected a numeric MAJOR.MINOR.PATCH version such as 4.5.0"
    );
}

#[test]
fn native_diagnostics_collections_are_errors_of_the_builder() {
    let diagnostics: Errors<NativeDiagnostic> = Errors::one(NativeDiagnostic::new(
        "c".to_owned(),
        "m".to_owned(),
        String::new(),
        String::new(),
        "hover".to_owned(),
        String::new(),
    ));
    let error = ThemeBuildError::Native(diagnostics);
    assert_eq!(error.native_diagnostics().map(|d| d.len()), Some(1));
    assert_eq!(error.to_string(), "error[c]: [state=hover] m");
}

#[test]
fn editor_roots_must_be_project_resources() {
    assert_eq!(editor_root("res://theme/main.kdl"), Ok("theme/main.kdl".to_owned()));
    assert_eq!(
        editor_root("res://"),
        Err("theme source 'res://' must be below res://".to_owned())
    );
    assert!(editor_root("theme/main.kdl").is_err());
}

#[test]
fn editor_dependencies_are_project_resources_in_text_order() {
    let paths = vec![
        SourcePath::normalize("b.kdl").expect("path is valid"),
        SourcePath::normalize("a/c.kdl").expect("path is valid"),
    ];
    let mut dependencies = project_dependencies(&paths);
    assert_eq!(dependencies, ["res://a/c.kdl", "res://b.kdl"]);

    let font = CompiledValue::Resource(ResourceRef::new("res://fonts/ui.tres").expect("valid"));
    let remote = CompiledValue::Resource(ResourceRef::new("https://x/y.tres").expect("valid"));
    let hover = CompiledState::new(
        name("hover"),
        NameMap::from_entries(vec![(
            name("icon"),
            CompiledValue::Resource(ResourceRef::new("res://a/b.png").expect("valid")),
        )]),
    );
    let compiled = themed(
        vec![(name("font"), font), (name("remote"), remote)],
        vec![(name("hover"), hover)],
    );
    collect_resource_dependencies(&compiled, &mut dependencies);
    assert_eq!(
        dependencies,
        ["res://a/b.png", "res://a/c.kdl", "res://b.kdl", "res://fonts/ui.tres"]
    );
    collect_resource_dependencies(&compiled, &mut dependencies);
    assert_eq!(dependencies.len(), 4);
}
