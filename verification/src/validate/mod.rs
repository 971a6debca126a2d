//! Validation core: issue types, severity, and the per-XML-file validators.

use vstd::prelude::*;
use crate::text::{string_of, chars_of};

pub mod codes;
pub mod structure;
pub mod well_formed;
pub mod cross_ref;
pub mod safety;
pub mod completeness;

verus! {

#[derive(Debug, Clone, Copy, PartialEq, Eq, Structural)]
pub enum Severity {
    Error,
    Warning,
}

#[derive(Debug, Clone)]
pub struct Issue {
    /// Stable code from [`codes`].
    pub code: &'static str,
    pub severity: Severity,
    /// Entry name inside the MBZ (e.g. "activities/assign_3/assign.xml").
    pub xml_file: String,
    /// XPath-ish location, e.g. "/activity/assign/name" or "" for file-level.
    pub location: String,
    pub message: String,
}

/// An issue as plain character sequences.
pub struct IssueView {
    pub code: Seq<char>,
    pub severity: Severity,
    pub xml_file: Seq<char>,
    pub location: Seq<char>,
    pub message: Seq<char>,
}

impl View for Issue {
    type V = IssueView;

    open spec fn view(&self) -> IssueView {
        IssueView {
            code: self.code@,
            severity: self.severity,
            xml_file: self.xml_file@,
            location: self.location@,
            message: self.message@,
        }
    }
}

/// The views of a sequence of issues.
pub open spec fn issues_view(s: Seq<Issue>) -> Seq<IssueView> {
    s.map_values(|i: Issue| i@)
}

pub open spec fn issue_view(
    code: Seq<char>,
    severity: Severity,
    xml_file: Seq<char>,
    location: Seq<char>,
    message: Seq<char>,
) -> IssueView {
    IssueView { code, severity, xml_file, location, message }
}

impl Issue {
    pub fn error(code: &'static str, xml_file: String, location: String, msg: String) -> (r: Issue)
        ensures
            r@ == issue_view(code@, Severity::Error, xml_file@, location@, msg@),
    {
        Issue { code, severity: Severity::Error, xml_file, location, message: msg }
    }

    pub fn warning(code: &'static str, xml_file: String, location: String, msg: String) -> (r: Issue)
        ensures
            r@ == issue_view(code@, Severity::Warning, xml_file@, location@, msg@),
    {
        Issue { code, severity: Severity::Warning, xml_file, location, message: msg }
    }

    /// An issue from character sequences.
    pub fn of_chars(
        code: &'static str,
        severity: Severity,
        xml_file: &[char],
        location: &[char],
        msg: &[char],
    ) -> (r: Issue)
        ensures
            r@ == issue_view(code@, severity, xml_file@, location@, msg@),
    {
        Issue {
            code,
            severity,
            xml_file: string_of(xml_file),
            location: string_of(location),
            message: string_of(msg),
        }
    }

    /// An issue whose file and location are given as string slices.
    pub fn of_strs(
        code: &'static str,
        severity: Severity,
        xml_file: &str,
        location: &[char],
        msg: &[char],
    ) -> (r: Issue)
        ensures
            r@ == issue_view(code@, severity, xml_file@, location@, msg@),
    {
        let f = chars_of(xml_file);
        Issue::of_chars(code, severity, f.as_slice(), location, msg)
    }
}

} // verus!
