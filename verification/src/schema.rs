//! The schema types the validators read.

pub use crate::xmldb_shared::{Field, FieldType, Schema, Table};
