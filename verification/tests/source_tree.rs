//! End-to-end source-tree loading.

use themosis::compiled::CompiledValue;
use themosis::loader::{compile_theme, compile_theme_with_report, LoadError};
use themosis::primitives::Number;
use themosis::sources::{InvalidSourcePath, MemorySourceProvider, SourcePath, SourceProvider};
use themosis::style_model::Name;

const ROOT: &str = r#"
theme Application {
    tokens "tokens/theme.tokens.json"
    import "styles/buttons.kdl"
}
"#;

const BUTTONS: &str = r#"
style BaseButton target=Button {
    token background color.primary
    number font-size 16

    state hover {
        token background color.accent
    }
}

style PrimaryButton target=Button extends=BaseButton {
    number font-size 18
}
"#;

const TOKENS: &str = r#"{
  "color": {
    "$type": "color",
    "primary": {
      "$value": { "colorSpace": "srgb", "components": [0.1, 0.2, 0.3], "alpha": 1.0 }
    },
    "accent": {
      "$value": { "colorSpace": "srgb", "components": [0.4, 0.5, 0.6], "alpha": 1.0 }
    }
  }
}"#;

fn name(value: &str) -> Name {
    Name::new(value).expect("fixture name is valid")
}

fn memory_fixture() -> MemorySourceProvider {
    let mut provider = MemorySourceProvider::new();
    provider
        .insert("theme.kdl", ROOT)
        .expect("fixture path is valid");
    provider
        .insert("styles/buttons.kdl", BUTTONS)
        .expect("fixture path is valid");
    provider
        .insert("tokens/theme.tokens.json", TOKENS)
        .expect("fixture path is valid");
    provider
}

fn dependency_names(paths: &[SourcePath]) -> Vec<String> {
    paths.iter().map(|path| path.to_string()).collect()
}

#[test]
fn filesystem_and_memory_compile_the_same_source_tree() {
    let memory_theme =
        compile_theme(&memory_fixture(), "theme.kdl").expect("memory fixture compiles");
    let again = compile_theme(&memory_fixture(), "./theme.kdl").expect("memory fixture compiles");

    assert_eq!(again, memory_theme);
    assert_eq!(memory_theme.tokens().len(), 2);
    let primary = memory_theme
        .styles()
        .get(&name("PrimaryButton"))
        .expect("imported child style is compiled");
    assert_eq!(
        primary.properties().get(&name("font-size")),
        Some(&CompiledValue::Number(
            Number::new(18.0f64.to_bits()).expect("number is finite")
        ))
    );
    assert_eq!(
        primary
            .states()
            .get(&name("hover"))
            .expect("inherited state is expanded")
            .properties()
            .len(),
        2
    );
}

#[test]
fn reports_all_dependencies_after_successful_loading() {
    let report = compile_theme_with_report(&memory_fixture(), "theme.kdl");

    assert!(report.result().is_ok());
    assert_eq!(
        dependency_names(report.dependencies()),
        vec![
            "styles/buttons.kdl".to_owned(),
            "theme.kdl".to_owned(),
            "tokens/theme.tokens.json".to_owned(),
        ]
    );
}

#[test]
fn imported_fragments_inherit_the_root_theme() {
    let mut provider = MemorySourceProvider::new();
    provider
        .insert("light.tms", r#"theme Application { import "controls.kdl" }"#)
        .expect("root path is valid");
    provider
        .insert(
            "controls.kdl",
            r#"style PrimaryButton target=Button { number font_size 16}"#,
        )
        .expect("module path is valid");

    let compiled = compile_theme(&provider, "light.tms").expect("fragment compiles");

    assert_eq!(compiled.name().as_str(), "Application");
    assert!(compiled.styles().contains_key(&name("PrimaryButton")));
}

#[test]
fn retains_discovered_dependencies_after_a_read_failure() {
    let mut provider = MemorySourceProvider::new();
    provider
        .insert(
            "theme.kdl",
            r#"theme Application {
                import "missing.kdl"
                tokens "tokens.json"
            }"#,
        )
        .expect("path is valid");
    provider
        .insert("tokens.json", r#"{"value":{"$type":"number","$value":1}}"#)
        .expect("path is valid");

    let report = compile_theme_with_report(&provider, "theme.kdl");

    assert!(report.result().is_err());
    assert_eq!(
        dependency_names(report.dependencies()),
        vec![
            "missing.kdl".to_owned(),
            "theme.kdl".to_owned(),
            "tokens.json".to_owned(),
        ]
    );
}

#[test]
fn rejects_import_cycles_with_a_closed_path() {
    let mut provider = MemorySourceProvider::new();
    provider
        .insert("theme.kdl", r#"theme Application { import "a.kdl" }"#)
        .expect("path is valid");
    provider
        .insert("a.kdl", r#"theme Application { import "theme.kdl" }"#)
        .expect("path is valid");

    let error = compile_theme(&provider, "theme.kdl").expect_err("imports contain a cycle");

    assert!(matches!(
        error,
        LoadError::ImportCycle { ref cycle }
            if dependency_names(cycle) == vec![
                "theme.kdl".to_owned(),
                "a.kdl".to_owned(),
                "theme.kdl".to_owned()
            ]
    ));
}

#[test]
fn rejects_dependencies_that_escape_the_theme_root() {
    let mut provider = MemorySourceProvider::new();
    provider
        .insert(
            "styles/theme.kdl",
            r#"theme Application {
                tokens "../../outside.tokens.json"
            }"#,
        )
        .expect("root path is valid");

    let error = compile_theme(&provider, "styles/theme.kdl").expect_err("dependency escapes root");

    assert!(matches!(
        error,
        LoadError::InvalidPath {
            source: InvalidSourcePath::EscapesRoot,
            ..
        }
    ));
}

#[test]
fn renders_semantic_diagnostics_with_source_names_and_suggestions() {
    let mut provider = MemorySourceProvider::new();
    provider
        .insert(
            "theme.kdl",
            r#"theme Application {
                tokens "tokens.json"
                style PrimaryButton target=Button {
                    token background color.primray
                }
            }"#,
        )
        .expect("path is valid");
    provider
        .insert(
            "tokens.json",
            r#"{"color":{"$type":"color","primary":{"$value":{"colorSpace":"srgb","components":[0.1,0.2,0.3],"alpha":1.0}}}}"#,
        )
        .expect("path is valid");

    let error = compile_theme(&provider, "theme.kdl").expect_err("token is misspelled");
    let rendered = error.to_string();

    assert!(rendered.contains("error[TMS2207]"));
    assert!(rendered.contains("theme.kdl:"));
    assert!(rendered.contains("did you mean 'color.primary'?"));
}

#[test]
fn root_document_establishes_the_theme_name() {
    let mut provider = MemorySourceProvider::new();
    provider
        .insert("z-root.kdl", r#"theme Application { import "a-import.kdl" }"#)
        .expect("path is valid");
    provider
        .insert("a-import.kdl", r#"theme WrongName {}"#)
        .expect("path is valid");

    let error = compile_theme(&provider, "z-root.kdl").expect_err("theme names conflict");
    let rendered = error.to_string();

    assert!(rendered.contains("uses theme 'WrongName', expected 'Application'"));
}

#[test]
fn normalizes_paths_relative_to_the_root() {
    assert_eq!(
        SourcePath::normalize("a/./b//c/../d.kdl")
            .expect("path is valid")
            .to_string(),
        "a/b/d.kdl"
    );
    assert_eq!(
        SourcePath::normalize("").expect_err("path is empty"),
        InvalidSourcePath::Empty
    );
    assert_eq!(
        SourcePath::normalize("a/..").expect_err("nothing remains"),
        InvalidSourcePath::Empty
    );
    assert_eq!(
        SourcePath::normalize("/etc/theme.kdl").expect_err("path is absolute"),
        InvalidSourcePath::Absolute
    );
    assert_eq!(
        SourcePath::normalize("../theme.kdl").expect_err("path escapes"),
        InvalidSourcePath::EscapesRoot
    );
    assert_eq!(
        InvalidSourcePath::EscapesRoot.to_string(),
        "source path escapes the theme root"
    );
}

#[test]
fn references_resolve_against_the_owner_directory() {
    let owner = SourcePath::normalize("styles/theme.kdl").expect("path is valid");
    assert_eq!(
        owner.resolve("buttons.kdl").expect("reference is valid").to_string(),
        "styles/buttons.kdl"
    );
    assert_eq!(
        owner.resolve("../tokens/a.json").expect("reference is valid").to_string(),
        "tokens/a.json"
    );
    assert_eq!(
        owner.resolve("/abs.kdl").expect_err("reference is absolute"),
        InvalidSourcePath::Absolute
    );
    assert_eq!(
        owner.resolve("../../x.kdl").expect_err("reference escapes"),
        InvalidSourcePath::EscapesRoot
    );
}

#[test]
fn memory_provider_replaces_and_reads_sources() {
    let mut provider = MemorySourceProvider::new();
    assert_eq!(provider.insert("a/./b.kdl", "one"), Ok(None));
    assert_eq!(provider.insert("a/b.kdl", "two"), Ok(Some("one".to_owned())));
    assert_eq!(
        provider.insert("../b.kdl", "x"),
        Err(InvalidSourcePath::EscapesRoot)
    );
    let path = SourcePath::normalize("a/b.kdl").expect("path is valid");
    assert_eq!(provider.read(&path).expect("source exists"), "two");
    let missing = SourcePath::normalize("c.kdl").expect("path is valid");
    assert_eq!(
        provider.read(&missing).expect_err("source is missing").to_string(),
        "source 'c.kdl' does not exist"
    );
}

#[test]
fn invalid_roots_report_no_dependencies() {
    let report = compile_theme_with_report(&memory_fixture(), "../theme.kdl");
    assert!(report.dependencies().is_empty());
    let error = report.into_result().expect_err("root escapes");
    assert!(matches!(
        error,
        LoadError::InvalidPath {
            owner: None,
            source: InvalidSourcePath::EscapesRoot,
            ..
        }
    ));
    assert_eq!(
        error.to_string(),
        "invalid root path '../theme.kdl': source path escapes the theme root"
    );
}

#[test]
fn read_failures_name_the_missing_source() {
    let error = compile_theme(&MemorySourceProvider::new(), "theme.kdl").expect_err("no sources");
    assert_eq!(
        error.to_string(),
        "failed to read 'theme.kdl': source 'theme.kdl' does not exist"
    );
}

#[test]
fn import_cycles_render_as_a_chain() {
    let mut provider = MemorySourceProvider::new();
    provider
        .insert("theme.kdl", r#"theme Application { import "theme.kdl" }"#)
        .expect("path is valid");
    let error = compile_theme(&provider, "theme.kdl").expect_err("self import");
    assert_eq!(error.to_string(), "style import cycle: theme.kdl -> theme.kdl");
}

#[test]
fn normalized_paths_round_trip_through_their_text() {
    for text in ["a/./b//c/../d.kdl", "theme.kdl", "./x/y/", "styles/../tokens/t.json"] {
        let path = SourcePath::normalize(text).expect("path is valid");
        let again = SourcePath::normalize(&path.to_string()).expect("text of a path is valid");
        assert!(again.same(&path));
        assert_eq!(again.to_string(), path.to_string());
    }
}

#[test]
fn a_source_is_read_back_under_any_spelling_of_its_path() {
    let mut provider = MemorySourceProvider::new();
    provider.insert("dir/./a.kdl", "body").expect("path is valid");
    let spelled = SourcePath::normalize("dir/x/../a.kdl").expect("path is valid");
    assert_eq!(provider.read(&spelled).expect("source exists"), "body");
}

#[test]
fn a_default_provider_holds_no_sources() {
    let provider = MemorySourceProvider::default();
    let path = SourcePath::normalize("theme.kdl").expect("path is valid");
    assert!(provider.read(&path).is_err());
}

#[test]
fn a_kdl_failure_names_its_source_among_the_dependencies() {
    let mut provider = MemorySourceProvider::new();
    provider
        .insert("theme.kdl", r#"theme Application { import "broken.kdl" }"#)
        .expect("path is valid");
    provider
        .insert("broken.kdl", "style {")
        .expect("path is valid");
    let report = compile_theme_with_report(&provider, "theme.kdl");
    assert_eq!(
        dependency_names(report.dependencies()),
        vec!["broken.kdl".to_owned(), "theme.kdl".to_owned()]
    );
    let error = report.into_result().expect_err("import is not KDL");
    assert!(matches!(error, LoadError::Kdl { ref path, .. } if path.to_string() == "broken.kdl"));
    assert!(error.to_string().starts_with("failed to parse 'broken.kdl': error[TMS1001]: broken.kdl:"));
}
