//! Themosis: a design-system compiler that reads design tokens and component
//! styles and produces canonical theme data for targeted backends.
pub mod text;
pub mod binary64;
pub mod source;
pub mod diagnostic;
pub mod token_path;
pub mod primitives;
pub mod token_model;
pub mod style_model;
pub mod name_map;
pub mod path_map;
pub mod compiled;
pub mod semantic_errors;
pub mod token_resolution;
pub mod suggest;
pub mod style_compilation;
pub mod token_json;
pub mod style_kdl;
pub mod sources;
pub mod loader;
pub mod godot;
pub mod editor;
pub mod godot_runtime;
