//! Builds YAML document trees from a stream of parser events.

pub mod event;
pub mod laws;
pub mod loader;
pub mod node;
pub mod parse;
pub mod resolve;
pub mod value;

pub use event::{Event, ScalarStyle, Tag};
pub use loader::{YamlLoader, load_from_events};
pub use node::LoadableYamlNode;
pub use parse::{load_from_str, load_from_str_checked};
pub use resolve::{is_float, parse_bool, parse_i64, resolve_scalar};
pub use value::{Mapping, Tree, Yaml, yaml_eq};
