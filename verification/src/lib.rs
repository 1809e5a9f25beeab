//! Link health of a vault of Markdown notes: which notes nothing leads to, which links lead nowhere,
//! and which are not returned.
pub mod color;
pub mod graph;
pub mod markup;
pub mod names;
pub mod options;
pub mod order;
pub mod path;
pub mod replaced;
pub mod report;
pub mod settled;
pub mod text;
pub mod unlink;
pub mod wording;
