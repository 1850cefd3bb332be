//! Trigram query planning for indexed regex search, and the text of its
//! results.
//!
//! - `syntax`, `plan`, `decompose`: a regex's syntax tree and the plan of
//!   trigram lookups it gives; `soundness` and `folding` state what a plan
//!   promises.
//! - `lines`, `search`: the lines of a file and those a regex matches.
//! - `text`, `order`, `style`, `output`, `tally`, `report`, `context`: the
//!   lines that show the matches; `json` reads the JSON lines back.
//! - `status`: how an index's revision compares with the current one.

pub mod context;
pub mod decompose;
pub mod folding;
pub mod json;
pub mod lines;
pub mod order;
pub mod output;
pub mod plan;
pub mod report;
pub mod search;
pub mod shape;
pub mod soundness;
pub mod status;
pub mod style;
pub mod syntax;
pub mod tally;
pub mod text;
