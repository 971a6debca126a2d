//! Stable issue codes. Consumers should key off these strings; the
//! human-readable messages are free to change.
//!
//! Naming: `MBZ-<area>-<what>`. Areas in use:
//!   - `XML`        well-formedness / parse
//!   - `STRUCT`     per-row schema (length, type, NOT NULL, unknown leaf)
//!   - `MANIFEST`   cross-XML directory & contenthash refs in moodle_backup/files
//!   - `ARCHIVE`    archive-level (open failures, entry read errors)
//!   - `XREF`       cross-XML referential integrity via inforef.xml
//!   - `SHAPE`      manifest-declared structure vs archive contents
//!   - `SAFETY`     zip-slip / path traversal
//!   - `ORPHAN`     payloads in the archive not referenced anywhere

use vstd::prelude::*;

verus! {

pub const XML_PARSE: &'static str = "MBZ-XML-PARSE";

pub const STRUCT_CHAR_OVERFLOW: &'static str = "MBZ-STRUCT-CHAR-OVERFLOW";
pub const STRUCT_INT_INVALID: &'static str = "MBZ-STRUCT-INT-INVALID";
pub const STRUCT_INT_OVERFLOW: &'static str = "MBZ-STRUCT-INT-OVERFLOW";
pub const STRUCT_NUMBER_INVALID: &'static str = "MBZ-STRUCT-NUMBER-INVALID";
pub const STRUCT_NUMBER_PRECISION: &'static str = "MBZ-STRUCT-NUMBER-PRECISION";
pub const STRUCT_NUMBER_DECIMALS: &'static str = "MBZ-STRUCT-NUMBER-DECIMALS";
pub const STRUCT_FLOAT_INVALID: &'static str = "MBZ-STRUCT-FLOAT-INVALID";
pub const STRUCT_NOTNULL_VIOLATION: &'static str = "MBZ-STRUCT-NOTNULL";
pub const STRUCT_UNKNOWN_LEAF: &'static str = "MBZ-STRUCT-UNKNOWN-LEAF";

pub const MANIFEST_MISSING_DIR: &'static str = "MBZ-MANIFEST-MISSING-DIR";
pub const MANIFEST_MISSING_FILE_PAYLOAD: &'static str = "MBZ-MANIFEST-MISSING-FILE";

pub const ARCHIVE_ENTRY_READ: &'static str = "MBZ-ARCHIVE-ENTRY-READ";
pub const ARCHIVE_FATAL: &'static str = "MBZ-ARCHIVE-FATAL";

pub const STRUCT_UNIQUE_VIOLATION: &'static str = "MBZ-STRUCT-UNIQUE-VIOLATION";

pub const SAFETY_PATH_TRAVERSAL: &'static str = "MBZ-SAFETY-PATH-TRAVERSAL";

pub const MANIFEST_BAD_BACKUPID: &'static str = "MBZ-MANIFEST-BAD-BACKUPID";
pub const MANIFEST_BAD_CONTENTHASH: &'static str = "MBZ-MANIFEST-BAD-CONTENTHASH";

pub const SHAPE_MISSING_ACTIVITY_FILE: &'static str = "MBZ-SHAPE-MISSING-ACTIVITY-FILE";
pub const SHAPE_MISSING_SECTION_FILE: &'static str = "MBZ-SHAPE-MISSING-SECTION-FILE";
pub const SHAPE_MISSING_ROOT_FILE: &'static str = "MBZ-SHAPE-MISSING-ROOT-FILE";
pub const ORPHAN_FILE_PAYLOAD: &'static str = "MBZ-ORPHAN-FILE-PAYLOAD";

pub const XREF_MISSING_USER: &'static str = "MBZ-XREF-MISSING-USER";
pub const XREF_MISSING_FILE: &'static str = "MBZ-XREF-MISSING-FILE";
pub const XREF_MISSING_ROLE: &'static str = "MBZ-XREF-MISSING-ROLE";
pub const XREF_MISSING_GROUP: &'static str = "MBZ-XREF-MISSING-GROUP";
pub const XREF_MISSING_GROUPING: &'static str = "MBZ-XREF-MISSING-GROUPING";
pub const XREF_MISSING_SCALE: &'static str = "MBZ-XREF-MISSING-SCALE";
pub const XREF_MISSING_OUTCOME: &'static str = "MBZ-XREF-MISSING-OUTCOME";
pub const XREF_MISSING_GRADE_ITEM: &'static str = "MBZ-XREF-MISSING-GRADE-ITEM";
pub const XREF_MISSING_QUESTION_CATEGORY: &'static str = "MBZ-XREF-MISSING-QUESTION-CATEGORY";

} // verus!
