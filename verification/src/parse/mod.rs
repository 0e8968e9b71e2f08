//! Parsing documents into the data model.

pub mod yaml;
pub mod yaml_tree;
pub mod toml_fmt;
pub mod toml;

use vstd::prelude::*;

use crate::edit::Format;
use crate::source::{extension, extension_spec};
use crate::text::string_of;

verus! {

/// The document format a path's extension selects, matched exactly as the
/// spec spells them (lowercase); `None` for an unsupported extension.
pub open spec fn format_of_path(path: Seq<char>) -> Option<Format> {
    match extension_spec(path) {
        Some(e) => if e == "json"@ {
            Some(Format::Json)
        } else if e == "yaml"@ || e == "yml"@ {
            Some(Format::Yaml)
        } else if e == "toml"@ {
            Some(Format::Toml)
        } else {
            None
        },
        None => None,
    }
}

/// Maps a path's extension to a parser.
pub fn format_for_path(path: &str) -> (r: Option<Format>)
    ensures
        r == format_of_path(path@),
{
    match extension(path) {
        Some(e) => {
            let s = string_of(e.as_slice());
            if crate::text::same_text(s.as_str(), "json") {
                Some(Format::Json)
            } else if crate::text::same_text(s.as_str(), "yaml") || crate::text::same_text(s.as_str(), "yml") {
                Some(Format::Yaml)
            } else if crate::text::same_text(s.as_str(), "toml") {
                Some(Format::Toml)
            } else {
                None
            }
        },
        None => None,
    }
}

} // verus!
