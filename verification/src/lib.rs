//! A verified core of the Yarn Spinner dialogue toolkit.
use vstd::prelude::*;

pub mod analyser;
pub mod analysis;
pub mod cycles;
pub mod descriptive_tags;
pub mod diagnostics;
pub mod enum_scan;
pub mod group_members;
pub mod library;
pub mod line_tags;
pub mod markup;
pub mod node_groups;
pub mod node_names;
pub mod node_references;
pub mod number;
pub mod option_code;
pub mod preview_features;
pub mod program;
pub mod reachability;
pub mod saliency;
pub mod smart_eval;
pub mod smart_loops;
pub mod source_text;
pub mod string_table;
pub mod structured_command;
pub mod text;
pub mod types;
pub mod unused_variables;
pub mod validate_syntax;
pub mod vm;
pub mod when_headers;
pub mod yarn_file;

verus! {
} // verus!
