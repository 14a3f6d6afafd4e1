// Settings extensions: how one version of a configuration schema presents
// itself (defaults, validation, acceptance), how stored values migrate
// between versions, how the host keeps its one load of the settings module,
// and how default-value documents are merged at build time.
//
// - `document`, `defaults`, `toml_defaults`: the deep merge of documents,
//   the ordering of their sources by name, and the TOML text around them.
// - `migration`: registered versions and the plans that move a value
//   between them.
// - `model`, `schemas`, `bootstrap`, `kubernetes`: the per-version
//   operations and the schemas built on them.
// - `json`: the JSON documents that settings values travel in.
// - `plugin`: the record of the settings module's single load.

pub mod bootstrap;
pub mod defaults;
pub mod document;
pub mod json;
pub mod kubernetes;
pub mod migration;
pub mod model;
pub mod plugin;
pub mod schemas;
pub mod toml_defaults;
