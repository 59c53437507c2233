//! Line-oriented `key=value` configuration parsing, dotted-key nesting, and
//! schema validation, with machine-checked contracts.
//!
//! Raw text is parsed into a key-ordered flat mapping ([`ConfigMap`]); dotted
//! keys can be expanded into a tree ([`NestedNode`]); and a parsed schema
//! ([`SchemaMap`]) can be checked against a configuration, inserting default
//! values for absent optional fields.

pub mod errors;
pub mod nested;
pub mod parser;
pub mod schema;
pub mod strmap;
pub mod text;

pub use errors::ParseError;
pub use nested::{flatten_to_nested, NestError, NestedNode};
pub use parser::{is_ignorable_line, parse_str, parse_str_with_limit, remove_inline_comment,
    ConfigMap, MAX_VALUE_LEN};
pub use schema::{parse_schema_str, validate_with_schema, SchemaEntry, SchemaMap, SchemaType,
    ValidationError};
