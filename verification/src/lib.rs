//! A verified loader for the Attribute-Relation File Format (ARFF): a
//! textual tabular format pairing a declarative header (relation name and
//! per-column attribute schema) with comma-separated data rows.

pub mod numeric;
pub mod relation;
pub mod schema;
pub mod text;
pub mod tokenize;
