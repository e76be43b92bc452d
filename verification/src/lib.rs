//! A verified parser for a flat, line-oriented configuration format
//! (`key.sub.key = value` lines, comments, blank lines) that folds dotted
//! keys into a nested string/table document, together with a small schema
//! language (`identifier -> bool|string`) and a validator that checks a
//! document against a parsed schema.
pub mod json;
pub mod laws;
pub mod parser;
pub mod schema;
pub mod text;
pub mod value;

pub use parser::parse_config_lines;
pub use parser::parse_sysctl_conf_to_nested;
pub use parser::parse_to_map;
pub use parser::ParsedLine;
pub use value::insert_nested_key;
pub use value::insert_recursive;
pub use value::split_dots;
pub use value::ConfigTable;
pub use value::ConfigValue;
pub use value::Entry;
