//! Scanner for Moodle MBZ backups: XML well-formedness, per-row schema
//! constraints, cross-XML references, archive shape and archive safety.

pub mod text;
pub mod xml;
pub mod numparse;
pub mod transformer;
pub mod validate;
pub mod xmldb_shared;
pub mod seqs;
pub mod mbz;
pub mod manifest;
pub mod report;
pub mod sarif;
pub mod scanner;
pub mod cli;
pub mod discover;
pub mod schema;
