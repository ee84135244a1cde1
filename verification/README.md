# Themosis

Themosis is a backend-agnostic design-system compiler. It reads design tokens
from a strict subset of the Design Tokens Community Group JSON format,
combines them with component styles written in KDL 2, and produces canonical
theme data for targeted backends, of which Godot is one.

The library under `src/` is written in Verus and proved against its
contracts. The exceptions are the thin wrappers that call `kdl`,
`serde_json` and `String::push`: their contracts, where they have any, are
trusted, and say what those calls return.

| Module               | Contents                                                        |
| -------------------- | --------------------------------------------------------------- |
| `text`, `diagnostic` | text helpers, diagnostics with stable codes                     |
| `binary64`           | integers as the nearest binary64 values                         |
| `source`, `primitives`, `token_path`, `token_model`, `style_model`, `compiled` | domain types |
| `name_map`, `path_map` | ordered maps keyed by names and by segment paths             |
| `token_json`         | the JSON token format                                           |
| `style_kdl`          | the KDL style format and its node decoder                       |
| `token_resolution`   | merging token documents and resolving aliases                   |
| `style_compilation`, `suggest`, `semantic_errors` | inheritance, states, diagnostics   |
| `sources`, `loader`  | root-relative source paths, providers, end-to-end compilation   |
| `godot`, `editor`, `godot_runtime` | the Godot build plan, engine and editor diagnostics, command-line decisions |

`app/` is the command-line program: argument parsing, the filesystem source
provider, and the headless Godot runner process. The native Godot builder
scripts are read from the directory named by `THEMOSIS_GODOT_ASSETS`.
