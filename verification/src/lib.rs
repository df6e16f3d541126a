//! Deciding what a compiler cache may rely on: which files a compilation read, what they held, and
//! whether they still hold it.

pub mod call_laws;
pub mod capture;
pub mod capture_laws;
pub mod content;
pub mod content_laws;
pub mod coverage;
pub mod coverage_laws;
pub mod depfile;
pub mod depfile_laws;
pub mod diagnostics;
pub mod digest;
pub mod directives;
pub mod error;
pub mod identity;
pub mod identity_laws;
pub mod input_laws;
pub mod inputs;
pub mod json;
pub mod ledger;
pub mod manifest;
pub mod manifest_laws;
pub mod manifest_memo;
pub mod manifest_run;
pub mod manifest_walk;
pub mod model_laws;
pub mod observation;
pub mod order;
pub mod path;
pub mod path_laws;
pub mod path_map;
pub mod scan;
pub mod snapshot_laws;
pub mod text;
pub mod views;
