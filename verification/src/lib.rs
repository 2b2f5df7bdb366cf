//! Reads the help text of RPC commands and writes, for each command, the
//! typed schema of its result: a tree of field names, each leaf the name of
//! a semantic type.

pub mod annotate;
pub mod bind;
pub mod bindings;
pub mod commands;
pub mod error;
pub mod extract;
pub mod flat;
pub mod json;
pub mod label;
pub mod laws;
pub mod schema;
pub mod text;
pub mod utils;

pub use crate::annotate::{annotate_result, label_by_position, recurse, Context};
pub use crate::bind::{bind_idents_labels, clean_viewed};
pub use crate::commands::{check_success, ingest_commands};
pub use crate::error::ParseError;
pub use crate::extract::{
    annotate_result_text, extract_name_and_result, interpret_raw_output,
    interpret_scrubbed_output, read_command, Command, MAX_NESTING,
};
pub use crate::label::{label_identifier, make_label};
pub use crate::schema::{render, BaseType, Binding, SchemaNode, TypeAnnotation};
pub use crate::utils::scrubbing::{scrub_arguments, scrub_response};
