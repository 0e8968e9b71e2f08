//! entryconf — load a config directory into a single tree, inspect where each
//! value comes from, and plan edits to its JSON source documents.

pub mod error;

pub use crate::error::{Error, ErrorCode};
pub mod json;
pub mod jsonfmt;
pub mod text;
pub mod pointer;
pub mod envfile;
pub mod interp;
pub mod source;
pub mod edit;
pub mod parse;
pub mod load;
pub mod snapshot;
pub mod lock;
pub mod cli;

pub use crate::edit::{
    escape_literal, parse_edits, revision_of, CommitOptions, Document, Edit, Format, Graft, Mode, Op, Origin, Receipt,
    Reference, Variable, VariableOrigin,
};
pub use crate::load::{load_with_env, Disk, FileEntry, Step};
pub use crate::snapshot::{open_with_env, Plan, Prepared, Reread, Snapshot};
