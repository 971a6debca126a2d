//! Cross-XML referential integrity.
//!
//! Every activity and section directory of an MBZ holds an `inforef.xml`
//! that lists, by id, the foreign rows the activity depends on:
//!
//! ```text
//! <inforef>
//!   <userref>
//!     <user><id>5</id></user>
//!   </userref>
//!   <fileref>
//!     <file><id>33</id></file>
//!   </fileref>
//! </inforef>
//! ```
//!
//! A reference with no matching `<user id="5">` in `users.xml` is a data-loss
//! bug at backup time. `ReferenceIndex::ingest` collects the row ids of the
//! top-level XMLs; `check_inforef` walks one inforef.xml and reports the ids
//! missing from the index, but only for kinds whose top-level file was
//! present (the shape check reports a missing file itself). Output is capped
//! at five verbatim ids per kind, then "(and N more)".

use vstd::prelude::*;
use std::collections::HashSet;
use crate::numparse::{parse_u64, u64_text};
use crate::seqs::{first_index, lemma_first_index};
use crate::text::{
    ascii_lower, ascii_lower_of, chars_eq_str, chars_of, decimal, push_chars, push_decimal,
    push_str, trim, trim_of, has_suffix, ends_with_str,
};
use crate::validate::codes;
use crate::validate::{issue_view, issues_view, Issue, IssueView, Severity};
use crate::xml::{
    is_terminal, lemma_scan_finish, scan, scan_all, xml_event, XmlAttr, XmlCursor, XmlEvent,
};

verus! {

broadcast use vstd::std_specs::hash::group_hash_axioms;

/// At most this many ids are quoted per kind.
pub const SAMPLE_CAP: usize = 5;

#[derive(Debug, Clone, Copy, PartialEq, Eq, Hash, Structural)]
pub enum XrefKind {
    User,
    File,
    Role,
    Group,
    Grouping,
    Scale,
    Outcome,
    GradeItem,
    QuestionCategory,
}

/// The kinds in report order.
pub open spec fn kind_at(i: int) -> XrefKind {
    if i == 0 {
        XrefKind::User
    } else if i == 1 {
        XrefKind::File
    } else if i == 2 {
        XrefKind::Role
    } else if i == 3 {
        XrefKind::Group
    } else if i == 4 {
        XrefKind::Grouping
    } else if i == 5 {
        XrefKind::Scale
    } else if i == 6 {
        XrefKind::Outcome
    } else if i == 7 {
        XrefKind::GradeItem
    } else {
        XrefKind::QuestionCategory
    }
}

pub open spec fn kind_index(k: XrefKind) -> int {
    match k {
        XrefKind::User => 0,
        XrefKind::File => 1,
        XrefKind::Role => 2,
        XrefKind::Group => 3,
        XrefKind::Grouping => 4,
        XrefKind::Scale => 5,
        XrefKind::Outcome => 6,
        XrefKind::GradeItem => 7,
        XrefKind::QuestionCategory => 8,
    }
}

fn kind_at_exec(i: usize) -> (k: XrefKind)
    requires
        i < 9,
    ensures
        k == kind_at(i as int),
        kind_index(k) == i,
{
    if i == 0 {
        XrefKind::User
    } else if i == 1 {
        XrefKind::File
    } else if i == 2 {
        XrefKind::Role
    } else if i == 3 {
        XrefKind::Group
    } else if i == 4 {
        XrefKind::Grouping
    } else if i == 5 {
        XrefKind::Scale
    } else if i == 6 {
        XrefKind::Outcome
    } else if i == 7 {
        XrefKind::GradeItem
    } else {
        XrefKind::QuestionCategory
    }
}

/// (wrapper element, child element) pairs as written by Moodle's
/// `backup_inforef_structure_step`.
pub open spec fn kind_of(wrapper: Seq<char>, child: Seq<char>) -> Option<XrefKind> {
    if wrapper == "userref"@ && child == "user"@ {
        Some(XrefKind::User)
    } else if wrapper == "fileref"@ && child == "file"@ {
        Some(XrefKind::File)
    } else if wrapper == "roleref"@ && child == "role"@ {
        Some(XrefKind::Role)
    } else if wrapper == "groupref"@ && child == "group"@ {
        Some(XrefKind::Group)
    } else if wrapper == "groupingref"@ && child == "grouping"@ {
        Some(XrefKind::Grouping)
    } else if wrapper == "scaleref"@ && child == "scale"@ {
        Some(XrefKind::Scale)
    } else if wrapper == "outcomeref"@ && child == "outcome"@ {
        Some(XrefKind::Outcome)
    } else if wrapper == "grade_itemref"@ && child == "grade_item"@ {
        Some(XrefKind::GradeItem)
    } else if wrapper == "question_categoryref"@ && child == "question_category"@ {
        Some(XrefKind::QuestionCategory)
    } else {
        None
    }
}

pub open spec fn kind_code(k: XrefKind) -> &'static str {
    match k {
        XrefKind::User => codes::XREF_MISSING_USER,
        XrefKind::File => codes::XREF_MISSING_FILE,
        XrefKind::Role => codes::XREF_MISSING_ROLE,
        XrefKind::Group => codes::XREF_MISSING_GROUP,
        XrefKind::Grouping => codes::XREF_MISSING_GROUPING,
        XrefKind::Scale => codes::XREF_MISSING_SCALE,
        XrefKind::Outcome => codes::XREF_MISSING_OUTCOME,
        XrefKind::GradeItem => codes::XREF_MISSING_GRADE_ITEM,
        XrefKind::QuestionCategory => codes::XREF_MISSING_QUESTION_CATEGORY,
    }
}

pub open spec fn kind_label(k: XrefKind) -> &'static str {
    match k {
        XrefKind::User => "user",
        XrefKind::File => "file",
        XrefKind::Role => "role",
        XrefKind::Group => "group",
        XrefKind::Grouping => "grouping",
        XrefKind::Scale => "scale",
        XrefKind::Outcome => "outcome",
        XrefKind::GradeItem => "grade_item",
        XrefKind::QuestionCategory => "question_category",
    }
}

pub open spec fn kind_source(k: XrefKind) -> &'static str {
    match k {
        XrefKind::User => "users.xml",
        XrefKind::File => "files.xml",
        XrefKind::Role => "roles.xml",
        XrefKind::Group => "groups.xml",
        XrefKind::Grouping => "groups.xml",
        XrefKind::Scale => "scales.xml",
        XrefKind::Outcome => "outcomes.xml",
        XrefKind::GradeItem => "gradebook.xml",
        XrefKind::QuestionCategory => "questions.xml",
    }
}

pub open spec fn kind_wrapper(k: XrefKind) -> &'static str {
    match k {
        XrefKind::User => "userref",
        XrefKind::File => "fileref",
        XrefKind::Role => "roleref",
        XrefKind::Group => "groupref",
        XrefKind::Grouping => "groupingref",
        XrefKind::Scale => "scaleref",
        XrefKind::Outcome => "outcomeref",
        XrefKind::GradeItem => "grade_itemref",
        XrefKind::QuestionCategory => "question_categoryref",
    }
}

impl XrefKind {
    pub fn from_wrapper_child(wrapper: &[char], child: &[char]) -> (r: Option<XrefKind>)
        ensures
            r == kind_of(wrapper@, child@),
    {
        if chars_eq_str(wrapper, "userref") && chars_eq_str(child, "user") {
            Some(XrefKind::User)
        } else if chars_eq_str(wrapper, "fileref") && chars_eq_str(child, "file") {
            Some(XrefKind::File)
        } else if chars_eq_str(wrapper, "roleref") && chars_eq_str(child, "role") {
            Some(XrefKind::Role)
        } else if chars_eq_str(wrapper, "groupref") && chars_eq_str(child, "group") {
            Some(XrefKind::Group)
        } else if chars_eq_str(wrapper, "groupingref") && chars_eq_str(child, "grouping") {
            Some(XrefKind::Grouping)
        } else if chars_eq_str(wrapper, "scaleref") && chars_eq_str(child, "scale") {
            Some(XrefKind::Scale)
        } else if chars_eq_str(wrapper, "outcomeref") && chars_eq_str(child, "outcome") {
            Some(XrefKind::Outcome)
        } else if chars_eq_str(wrapper, "grade_itemref") && chars_eq_str(child, "grade_item") {
            Some(XrefKind::GradeItem)
        } else if chars_eq_str(wrapper, "question_categoryref") && chars_eq_str(
            child,
            "question_category",
        ) {
            Some(XrefKind::QuestionCategory)
        } else {
            None
        }
    }

    pub fn code(self) -> (r: &'static str)
        ensures
            r == kind_code(self),
    {
        match self {
            XrefKind::User => codes::XREF_MISSING_USER,
            XrefKind::File => codes::XREF_MISSING_FILE,
            XrefKind::Role => codes::XREF_MISSING_ROLE,
            XrefKind::Group => codes::XREF_MISSING_GROUP,
            XrefKind::Grouping => codes::XREF_MISSING_GROUPING,
            XrefKind::Scale => codes::XREF_MISSING_SCALE,
            XrefKind::Outcome => codes::XREF_MISSING_OUTCOME,
            XrefKind::GradeItem => codes::XREF_MISSING_GRADE_ITEM,
            XrefKind::QuestionCategory => codes::XREF_MISSING_QUESTION_CATEGORY,
        }
    }

    pub fn label(self) -> (r: &'static str)
        ensures
            r == kind_label(self),
    {
        match self {
            XrefKind::User => "user",
            XrefKind::File => "file",
            XrefKind::Role => "role",
            XrefKind::Group => "group",
            XrefKind::Grouping => "grouping",
            XrefKind::Scale => "scale",
            XrefKind::Outcome => "outcome",
            XrefKind::GradeItem => "grade_item",
            XrefKind::QuestionCategory => "question_category",
        }
    }

    pub fn source_xml(self) -> (r: &'static str)
        ensures
            r == kind_source(self),
    {
        match self {
            XrefKind::User => "users.xml",
            XrefKind::File => "files.xml",
            XrefKind::Role => "roles.xml",
            XrefKind::Group | XrefKind::Grouping => "groups.xml",
            XrefKind::Scale => "scales.xml",
            XrefKind::Outcome => "outcomes.xml",
            XrefKind::GradeItem => "gradebook.xml",
            XrefKind::QuestionCategory => "questions.xml",
        }
    }
}

/// The inforef wrapper element of a kind.
pub fn wrapper_for(kind: XrefKind) -> (r: &'static str)
    ensures
        r == kind_wrapper(kind),
{
    match kind {
        XrefKind::User => "userref",
        XrefKind::File => "fileref",
        XrefKind::Role => "roleref",
        XrefKind::Group => "groupref",
        XrefKind::Grouping => "groupingref",
        XrefKind::Scale => "scaleref",
        XrefKind::Outcome => "outcomeref",
        XrefKind::GradeItem => "grade_itemref",
        XrefKind::QuestionCategory => "question_categoryref",
    }
}

/// Which top-level XMLs have contributed to an index.
#[derive(Debug, Clone, Copy)]
pub struct PresentSources {
    pub users: bool,
    pub files: bool,
    pub roles: bool,
    pub groups: bool,
    pub scales: bool,
    pub outcomes: bool,
    pub gradebook: bool,
    pub questions: bool,
}

/// `name` is a top-level XML recorded as present.
pub open spec fn present_has(p: PresentSources, name: Seq<char>) -> bool {
    ||| (p.users && name == "users.xml"@)
    ||| (p.files && name == "files.xml"@)
    ||| (p.roles && name == "roles.xml"@)
    ||| (p.groups && name == "groups.xml"@)
    ||| (p.scales && name == "scales.xml"@)
    ||| (p.outcomes && name == "outcomes.xml"@)
    ||| (p.gradebook && name == "gradebook.xml"@)
    ||| (p.questions && name == "questions.xml"@)
}

impl PresentSources {
    pub fn none() -> (p: PresentSources)
        ensures
            forall|n: Seq<char>| !present_has(p, n),
            !p.users && !p.files && !p.roles && !p.groups && !p.scales && !p.outcomes && !p.gradebook
                && !p.questions,
    {
        PresentSources {
            users: false,
            files: false,
            roles: false,
            groups: false,
            scales: false,
            outcomes: false,
            gradebook: false,
            questions: false,
        }
    }

    /// Whether the top-level XML `name` contributed to the index.
    pub fn contains(&self, name: &str) -> (r: bool)
        ensures
            r == present_has(*self, name@),
    {
        let n = chars_of(name);
        let n = n.as_slice();
        (self.users && chars_eq_str(n, "users.xml")) || (self.files && chars_eq_str(n, "files.xml"))
            || (self.roles && chars_eq_str(n, "roles.xml")) || (self.groups && chars_eq_str(
            n,
            "groups.xml",
        )) || (self.scales && chars_eq_str(n, "scales.xml")) || (self.outcomes && chars_eq_str(
            n,
            "outcomes.xml",
        )) || (self.gradebook && chars_eq_str(n, "gradebook.xml")) || (self.questions
            && chars_eq_str(n, "questions.xml"))
    }
}

/// Per-MBZ catalogue of ids that exist in each top-level XML.
#[derive(Debug)]
pub struct ReferenceIndex {
    pub files: HashSet<u64>,
    pub users: HashSet<u64>,
    pub roles: HashSet<u64>,
    pub groups: HashSet<u64>,
    pub groupings: HashSet<u64>,
    pub scales: HashSet<u64>,
    pub outcomes: HashSet<u64>,
    pub grade_items: HashSet<u64>,
    pub question_categories: HashSet<u64>,
    /// Top-level XML names that contributed to the index. Dangling-ref
    /// reports are suppressed for a kind whose source is absent.
    pub present: PresentSources,
}

/// The ids an index holds for a kind.
pub open spec fn kind_ids(idx: ReferenceIndex, k: XrefKind) -> Set<u64> {
    match k {
        XrefKind::User => idx.users@,
        XrefKind::File => idx.files@,
        XrefKind::Role => idx.roles@,
        XrefKind::Group => idx.groups@,
        XrefKind::Grouping => idx.groupings@,
        XrefKind::Scale => idx.scales@,
        XrefKind::Outcome => idx.outcomes@,
        XrefKind::GradeItem => idx.grade_items@,
        XrefKind::QuestionCategory => idx.question_categories@,
    }
}

/// The source of kind `k` contributed to the index.
pub open spec fn source_present(idx: ReferenceIndex, k: XrefKind) -> bool {
    present_has(idx.present, kind_source(k)@)
}

/// An index as plain values: the ids per kind and the present sources.
pub ghost struct IndexModel {
    pub ids: spec_fn(XrefKind) -> Set<u64>,
    pub present: PresentSources,
}

/// The model of an index.
pub open spec fn model_of(idx: ReferenceIndex) -> IndexModel {
    IndexModel { ids: |k: XrefKind| kind_ids(idx, k), present: idx.present }
}

/// The source of kind `k` contributed to the modelled index.
pub open spec fn model_present(m: IndexModel, k: XrefKind) -> bool {
    present_has(m.present, kind_source(k)@)
}

/// The model of an empty index.
pub open spec fn empty_model() -> IndexModel {
    IndexModel {
        ids: |k: XrefKind| Set::<u64>::empty(),
        present: PresentSources {
            users: false,
            files: false,
            roles: false,
            groups: false,
            scales: false,
            outcomes: false,
            gradebook: false,
            questions: false,
        },
    }
}

/// The model after `ReferenceIndex::ingest` of entry `name` with `src`.
pub open spec fn model_ingest(m: IndexModel, name: Seq<char>, src: Seq<u8>) -> IndexModel {
    IndexModel {
        ids: |k: XrefKind| (m.ids)(k).union(ingest_adds(name, src, k)),
        present: present_after(m.present, name),
    }
}

/// The model after `ingest_activity_grades` with `src`.
pub open spec fn model_activity_grades(m: IndexModel, src: Seq<u8>) -> IndexModel {
    IndexModel {
        ids: |k: XrefKind| if k == XrefKind::GradeItem {
            (m.ids)(k).union(row_ids(src, "grade_items"@, "grade_item"@))
        } else {
            (m.ids)(k)
        },
        present: with_gradebook(m.present),
    }
}

impl Default for ReferenceIndex {
    fn default() -> (idx: ReferenceIndex)
        ensures
            forall|k: XrefKind| kind_ids(idx, k) == Set::<u64>::empty(),
            forall|n: Seq<char>| !present_has(idx.present, n),
            idx.present == empty_model().present,
    {
        ReferenceIndex {
            files: HashSet::new(),
            users: HashSet::new(),
            roles: HashSet::new(),
            groups: HashSet::new(),
            groupings: HashSet::new(),
            scales: HashSet::new(),
            outcomes: HashSet::new(),
            grade_items: HashSet::new(),
            question_categories: HashSet::new(),
            present: PresentSources::none(),
        }
    }
}

impl ReferenceIndex {
    /// `id` was found in the kind's source.
    pub fn lookup(&self, kind: XrefKind, id: u64) -> (r: bool)
        ensures
            r == kind_ids(*self, kind).contains(id),
    {
        match kind {
            XrefKind::User => self.users.contains(&id),
            XrefKind::File => self.files.contains(&id),
            XrefKind::Role => self.roles.contains(&id),
            XrefKind::Group => self.groups.contains(&id),
            XrefKind::Grouping => self.groupings.contains(&id),
            XrefKind::Scale => self.scales.contains(&id),
            XrefKind::Outcome => self.outcomes.contains(&id),
            XrefKind::GradeItem => self.grade_items.contains(&id),
            XrefKind::QuestionCategory => self.question_categories.contains(&id),
        }
    }

    /// The kind's source XML contributed to the index.
    pub fn source_present(&self, kind: XrefKind) -> (r: bool)
        ensures
            r == source_present(*self, kind),
    {
        self.present.contains(kind.source_xml())
    }
}


// ---------------------------------------------------------------------------
// Row ids of a top-level XML

/// Matches an attribute named `id` in any ASCII case.
pub open spec fn is_id_key() -> spec_fn(XmlAttr) -> bool {
    |a: XmlAttr| ascii_lower(a.key@) == "id"@
}

/// The first `id` attribute's value, trimmed and read as `u64` (None when
/// there is none or it does not parse).
pub open spec fn id_attr_value(attrs: Seq<XmlAttr>) -> Option<u64> {
    match first_index(attrs, is_id_key()) {
        Some(i) => u64_text(trim(attrs[i].value@)),
        None => None,
    }
}

pub ghost struct RowScan {
    pub path: Seq<Seq<char>>,
    pub ids: Set<u64>,
}

pub open spec fn row_scan_init() -> RowScan {
    RowScan { path: seq![], ids: Set::empty() }
}

/// Record the id of a `<row id=..>` element with `<parent>` among its
/// ancestors.
pub open spec fn row_seen(s: RowScan, parent: Seq<char>, row: Seq<char>, name: Seq<char>, attrs: Seq<XmlAttr>) -> Set<u64> {
    if name == row && s.path.contains(parent) && id_attr_value(attrs) is Some {
        s.ids.insert(id_attr_value(attrs)->0)
    } else {
        s.ids
    }
}

pub open spec fn row_step(parent: Seq<char>, row: Seq<char>, s: RowScan, e: XmlEvent) -> RowScan {
    match e {
        XmlEvent::Start { name, attrs } => RowScan {
            path: s.path.push(name@),
            ids: row_seen(s, parent, row, name@, attrs@),
        },
        XmlEvent::Empty { name, attrs } => RowScan {
            path: s.path,
            ids: row_seen(s, parent, row, name@, attrs@),
        },
        XmlEvent::End { .. } => RowScan {
            path: if s.path.len() > 0 { s.path.drop_last() } else { s.path },
            ids: s.ids,
        },
        _ => s,
    }
}

pub open spec fn row_fn(parent: Seq<char>, row: Seq<char>) -> spec_fn(RowScan, XmlEvent) -> RowScan {
    |s: RowScan, e: XmlEvent| row_step(parent, row, s, e)
}

/// Ids of the `<row id=N>` elements of `src` that have a `<parent>`
/// ancestor, read up to the first parse error.
pub open spec fn row_ids(src: Seq<u8>, parent: Seq<char>, row: Seq<char>) -> Set<u64> {
    scan_all(src, true, row_scan_init(), row_fn(parent, row)).0.ids
}

fn read_id_attr(attrs: &Vec<XmlAttr>) -> (r: Option<u64>)
    ensures
        r == id_attr_value(attrs@),
{
    let mut i: usize = 0;
    while i < attrs.len()
        invariant
            i <= attrs@.len(),
            forall|j: int| 0 <= j < i ==> !is_id_key()(#[trigger] attrs@[j]),
        decreases attrs.len() - i,
    {
        let k = ascii_lower_of(attrs[i].key.as_slice());
        if chars_eq_str(k.as_slice(), "id") {
            proof {
                lemma_first_index(attrs@, is_id_key(), i as int);
            }
            let v = trim_of(attrs[i].value.as_slice());
            return parse_u64(v.as_slice());
        }
        i += 1;
    }
    proof {
        lemma_first_index(attrs@, is_id_key(), i as int);
    }
    None
}

spec fn names_of(p: Seq<Vec<char>>) -> Seq<Seq<char>> {
    p.map_values(|v: Vec<char>| v@)
}

fn path_contains(path: &Vec<Vec<char>>, name: &str) -> (r: bool)
    ensures
        r == names_of(path@).contains(name@),
{
    let mut i: usize = 0;
    while i < path.len()
        invariant
            i <= path@.len(),
            forall|j: int| 0 <= j < i ==> names_of(path@)[j] != name@,
        decreases path.len() - i,
    {
        if chars_eq_str(path[i].as_slice(), name) {
            assert(names_of(path@)[i as int] == name@);
            return true;
        }
        i += 1;
    }
    false
}

/// Add the ids of `<row id=N>` elements under a `<parent>` ancestor to `out`.
pub fn collect_row_ids(bytes: &[u8], parent: &str, row: &str, out: &mut HashSet<u64>)
    ensures
        final(out)@ == old(out)@.union(row_ids(bytes@, parent@, row@)),
{
    let ghost step = row_fn(parent@, row@);
    let ghost start = out@;
    let mut path: Vec<Vec<char>> = Vec::new();
    let mut cur = XmlCursor::open(bytes, true);
    assert(names_of(path@) =~= row_scan_init().path);
    assert(out@ =~= start.union(row_scan_init().ids));
    loop
        invariant_except_break
            cur.src() == bytes@,
            cur.trim(),
            cur.count() <= bytes@.len(),
            step == row_fn(parent@, row@),
            scan(bytes@, true, cur.count(), row_scan_init(), step).1 is None,
            names_of(path@) == scan(bytes@, true, cur.count(), row_scan_init(), step).0.path,
            out@ == start.union(scan(bytes@, true, cur.count(), row_scan_init(), step).0.ids),
        ensures
            out@ == start.union(row_ids(bytes@, parent@, row@)),
        decreases bytes@.len() + 1 - cur.count(),
    {
        let ghost k = cur.count();
        let ghost s = scan(bytes@, true, k, row_scan_init(), step).0;
        let ev = cur.next();
        match ev {
            XmlEvent::Start { name, attrs } => {
                if chars_eq_str(name.as_slice(), row) && path_contains(&path, parent) {
                    if let Some(id) = read_id_attr(&attrs) {
                        out.insert(id);
                    }
                }
                path.push(name);
                assert(names_of(path@) =~= s.path.push(name@));
            },
            XmlEvent::Empty { name, attrs } => {
                if chars_eq_str(name.as_slice(), row) && path_contains(&path, parent) {
                    if let Some(id) = read_id_attr(&attrs) {
                        out.insert(id);
                    }
                }
            },
            XmlEvent::End { .. } => {
                if path.len() > 0 {
                    path.pop();
                    assert(names_of(path@) =~= s.path.drop_last());
                }
            },
            XmlEvent::Eof | XmlEvent::Error { .. } => {
                proof {
                    lemma_scan_finish(bytes@, true, k, row_scan_init(), step);
                }
                break;
            },
            _ => {},
        }
        assert(out@ =~= start.union(scan(bytes@, true, cur.count(), row_scan_init(), step).0.ids));
    }
}

// ---------------------------------------------------------------------------
// Index building

/// The row element and its ancestor for a kind's source XML.
pub open spec fn kind_rows(k: XrefKind) -> (Seq<char>, Seq<char>) {
    match k {
        XrefKind::User => ("users"@, "user"@),
        XrefKind::File => ("files"@, "file"@),
        XrefKind::Role => ("roles"@, "role"@),
        XrefKind::Group => ("groups"@, "group"@),
        XrefKind::Grouping => ("groupings"@, "grouping"@),
        XrefKind::Scale => ("scales_definition"@, "scale"@),
        XrefKind::Outcome => ("outcomes_definition"@, "outcome"@),
        XrefKind::GradeItem => ("grade_items"@, "grade_item"@),
        XrefKind::QuestionCategory => ("question_categories"@, "question_category"@),
    }
}

/// Ids that ingesting entry `name` adds for kind `k`: the rows of the
/// kind's source when `name` is that source.
pub open spec fn ingest_adds(name: Seq<char>, src: Seq<u8>, k: XrefKind) -> Set<u64> {
    if name == kind_source(k)@ {
        row_ids(src, kind_rows(k).0, kind_rows(k).1)
    } else {
        Set::empty()
    }
}

/// Present-sources after ingesting entry `name`.
pub open spec fn present_after(p: PresentSources, name: Seq<char>) -> PresentSources {
    PresentSources {
        users: p.users || name == "users.xml"@,
        files: p.files || name == "files.xml"@,
        roles: p.roles || name == "roles.xml"@,
        groups: p.groups || name == "groups.xml"@,
        scales: p.scales || name == "scales.xml"@,
        outcomes: p.outcomes || name == "outcomes.xml"@,
        gradebook: p.gradebook || name == "gradebook.xml"@,
        questions: p.questions || name == "questions.xml"@,
    }
}

/// Ingest `bytes` into `set` when entry `n` is `source`.
fn ingest_if(
    n: &[char],
    source: &str,
    bytes: &[u8],
    parent: &str,
    row: &str,
    set: &mut HashSet<u64>,
    flag: &mut bool,
)
    ensures
        final(set)@ == old(set)@.union(
            if n@ == source@ { row_ids(bytes@, parent@, row@) } else { Set::empty() },
        ),
        *final(flag) == (*old(flag) || n@ == source@),
{
    if chars_eq_str(n, source) {
        collect_row_ids(bytes, parent, row, set);
        *flag = true;
    } else {
        assert(set@ =~= set@.union(Set::<u64>::empty()));
    }
}

impl ReferenceIndex {
    /// Feed a single top-level XML's bytes into the index. `entry_name` is
    /// the archive entry name (e.g. "users.xml"). Unknown names are no-ops.
    /// groups.xml carries both `<group id=N>` and `<grouping id=N>` rows.
    #[verifier::rlimit(40)]
    pub fn ingest(&mut self, entry_name: &str, bytes: &[u8])
        ensures
            ingested(*old(self), *final(self), entry_name@, bytes@),
    {
        let ghost o = *self;
        let n = chars_of(entry_name);
        let n = n.as_slice();
        ingest_if(n, "users.xml", bytes, "users", "user", &mut self.users, &mut self.present.users);
        ingest_if(n, "files.xml", bytes, "files", "file", &mut self.files, &mut self.present.files);
        ingest_if(n, "roles.xml", bytes, "roles", "role", &mut self.roles, &mut self.present.roles);
        let mut groupings_seen = false;
        ingest_if(n, "groups.xml", bytes, "groups", "group", &mut self.groups, &mut self.present.groups);
        ingest_if(n, "groups.xml", bytes, "groupings", "grouping", &mut self.groupings, &mut groupings_seen);
        ingest_if(n, "scales.xml", bytes, "scales_definition", "scale", &mut self.scales, &mut self.present.scales);
        ingest_if(n, "outcomes.xml", bytes, "outcomes_definition", "outcome", &mut self.outcomes, &mut self.present.outcomes);
        ingest_if(n, "gradebook.xml", bytes, "grade_items", "grade_item", &mut self.grade_items, &mut self.present.gradebook);
        ingest_if(n, "questions.xml", bytes, "question_categories", "question_category", &mut self.question_categories, &mut self.present.questions);
        assert forall|k: XrefKind| #[trigger] kind_ids(*self, k) == kind_ids(o, k).union(
            ingest_adds(entry_name@, bytes@, k)) by {
            match k {
                XrefKind::User => {},
                XrefKind::File => {},
                XrefKind::Role => {},
                XrefKind::Group => {},
                XrefKind::Grouping => {},
                XrefKind::Scale => {},
                XrefKind::Outcome => {},
                XrefKind::GradeItem => {},
                XrefKind::QuestionCategory => {},
            }
        }
    }
}

/// Present-sources with gradebook.xml recorded.
pub open spec fn with_gradebook(p: PresentSources) -> PresentSources {
    PresentSources { gradebook: true, ..p }
}

/// Index the `<grade_item id=N>` rows inside an activity's grades.xml into
/// the same set as the root gradebook's grade items, and mark gradebook.xml
/// present (the archive carries grade item data).
pub fn ingest_activity_grades(idx: &mut ReferenceIndex, bytes: &[u8])
    ensures
        forall|k: XrefKind| #[trigger] kind_ids(*final(idx), k) == if k == XrefKind::GradeItem {
            kind_ids(*old(idx), k).union(row_ids(bytes@, "grade_items"@, "grade_item"@))
        } else {
            kind_ids(*old(idx), k)
        },
        final(idx).present == with_gradebook(old(idx).present),
{
    collect_row_ids(bytes, "grade_items", "grade_item", &mut idx.grade_items);
    idx.present.gradebook = true;
}

/// Any entry path ending in `inforef.xml` (as a whole name or after a `/`).
pub fn is_inforef(entry_name: &str) -> (r: bool)
    ensures
        r == (has_suffix(entry_name@, "/inforef.xml"@) || entry_name@ == "inforef.xml"@),
{
    let n = chars_of(entry_name);
    ends_with_str(n.as_slice(), "/inforef.xml") || chars_eq_str(n.as_slice(), "inforef.xml")
}


// ---------------------------------------------------------------------------
// inforef.xml

/// Kind of the reference whose `<id>` closes with element stack `path`
/// (`[..., wrapper, child, "id"]`).
pub open spec fn id_context(path: Seq<Seq<char>>) -> Option<XrefKind> {
    let n = path.len();
    if n < 3 {
        None
    } else {
        kind_of(path[n - 3], path[n - 2])
    }
}

pub ghost struct InforefScan {
    pub path: Seq<Seq<char>>,
    pub in_id: bool,
    pub id_buf: Seq<char>,
    /// Missing ids per kind, indexed by `kind_index`, in document order.
    pub misses: Seq<Seq<u64>>,
}

pub open spec fn inforef_init() -> InforefScan {
    InforefScan { path: seq![], in_id: false, id_buf: seq![], misses: Seq::new(9, |i: int| Seq::<u64>::empty()) }
}

/// Misses after an `<id>` with text `buf` closes at `path`: recorded when
/// the kind's source is present, the trimmed text reads as `u64`, and the
/// index lacks the id.
pub open spec fn record_miss(idx: IndexModel, path: Seq<Seq<char>>, buf: Seq<char>, misses: Seq<Seq<u64>>) -> Seq<Seq<u64>> {
    match id_context(path) {
        Some(k) => match u64_text(trim(buf)) {
            Some(id) => if model_present(idx, k) && !(idx.ids)(k).contains(id) {
                misses.update(kind_index(k), misses[kind_index(k)].push(id))
            } else {
                misses
            },
            None => misses,
        },
        None => misses,
    }
}

pub open spec fn inforef_step(idx: IndexModel, s: InforefScan, e: XmlEvent) -> InforefScan {
    match e {
        XmlEvent::Start { name, .. } => {
            let opens = name@ == "id"@ && s.path.len() >= 2;
            InforefScan {
                path: s.path.push(name@),
                in_id: if opens { true } else { s.in_id },
                id_buf: if opens { seq![] } else { s.id_buf },
                misses: s.misses,
            }
        },
        XmlEvent::Text { text } => if s.in_id {
            InforefScan { id_buf: s.id_buf + text@, ..s }
        } else {
            s
        },
        XmlEvent::CData { text } => if s.in_id {
            InforefScan { id_buf: s.id_buf + text@, ..s }
        } else {
            s
        },
        XmlEvent::End { .. } => {
            let closes = s.in_id && s.path.len() > 0 && s.path.last() == "id"@;
            InforefScan {
                path: if s.path.len() > 0 { s.path.drop_last() } else { s.path },
                in_id: if closes { false } else { s.in_id },
                id_buf: s.id_buf,
                misses: if closes { record_miss(idx, s.path, s.id_buf, s.misses) } else { s.misses },
            }
        },
        _ => s,
    }
}

pub open spec fn inforef_fn(idx: IndexModel) -> spec_fn(InforefScan, XmlEvent) -> InforefScan {
    |s: InforefScan, e: XmlEvent| inforef_step(idx, s, e)
}

/// Missing ids per kind found in an inforef.xml.
pub open spec fn inforef_misses(src: Seq<u8>, idx: IndexModel) -> Seq<Seq<u64>> {
    scan_all(src, true, inforef_init(), inforef_fn(idx)).0.misses
}

/// `ids` in decimal, joined by ", ".
pub open spec fn join_ids(ids: Seq<u64>) -> Seq<char>
    decreases ids.len(),
{
    if ids.len() == 0 {
        seq![]
    } else if ids.len() == 1 {
        decimal(ids[0] as nat)
    } else {
        join_ids(ids.drop_last()) + ", "@ + decimal(ids.last() as nat)
    }
}

/// Message for `ids` of kind `k` missing from its source.
pub open spec fn miss_message(k: XrefKind, ids: Seq<u64>) -> Seq<char> {
    let n = ids.len();
    let sample = join_ids(ids.take(if n < SAMPLE_CAP { n as int } else { SAMPLE_CAP as int }));
    let head = "inforef references "@ + decimal(n) + " "@ + kind_label(k)@ + " id(s) absent from "@
        + kind_source(k)@ + ": "@ + sample;
    if n > SAMPLE_CAP {
        head + " (and "@ + decimal((n - SAMPLE_CAP) as nat) + " more)"@
    } else {
        head
    }
}

/// One error per kind (in kind order, among the first `i` kinds) with
/// missing ids.
pub open spec fn miss_issues(entry: Seq<char>, misses: Seq<Seq<u64>>, i: int) -> Seq<IssueView>
    decreases i,
{
    if i <= 0 {
        seq![]
    } else {
        let k = kind_at(i - 1);
        let rest = miss_issues(entry, misses, i - 1);
        if misses[i - 1].len() > 0 {
            rest.push(
                issue_view(
                    kind_code(k)@,
                    Severity::Error,
                    entry,
                    "/inforef/"@ + kind_wrapper(k)@,
                    miss_message(k, misses[i - 1]),
                ),
            )
        } else {
            rest
        }
    }
}

/// What `check_inforef` reports for `src` against `idx`.
pub open spec fn inforef_issues(entry: Seq<char>, src: Seq<u8>, idx: IndexModel) -> Seq<IssueView> {
    miss_issues(entry, inforef_misses(src, idx), 9)
}

fn id_context_exec(path: &Vec<Vec<char>>) -> (r: Option<XrefKind>)
    ensures
        r == id_context(names_of(path@)),
{
    let n = path.len();
    if n < 3 {
        None
    } else {
        XrefKind::from_wrapper_child(path[n - 3].as_slice(), path[n - 2].as_slice())
    }
}

proof fn lemma_join_ids_step(ids: Seq<u64>, i: int)
    requires
        0 <= i < ids.len(),
    ensures
        join_ids(ids.take(i + 1)) == (if i == 0 {
            decimal(ids[0] as nat)
        } else {
            join_ids(ids.take(i)) + ", "@ + decimal(ids[i] as nat)
        }),
{
    assert(ids.take(i + 1).drop_last() =~= ids.take(i));
}

fn join_ids_exec(ids: &Vec<u64>, n: usize) -> (r: Vec<char>)
    requires
        n <= ids.len(),
    ensures
        r@ == join_ids(ids@.take(n as int)),
{
    let mut v: Vec<char> = Vec::new();
    let mut i: usize = 0;
    assert(ids@.take(0) =~= Seq::<u64>::empty());
    while i < n
        invariant
            i <= n <= ids@.len(),
            v@ == join_ids(ids@.take(i as int)),
        decreases n - i,
    {
        proof {
            lemma_join_ids_step(ids@, i as int);
        }
        if i > 0 {
            push_str(&mut v, ", ");
        }
        push_decimal(&mut v, ids[i]);
        i += 1;
    }
    v
}

fn miss_message_exec(k: XrefKind, ids: &Vec<u64>) -> (m: Vec<char>)
    ensures
        m@ == miss_message(k, ids@),
{
    let n = ids.len();
    let take = if n < SAMPLE_CAP { n } else { SAMPLE_CAP };
    let mut m = chars_of("inforef references ");
    push_decimal(&mut m, n as u64);
    push_str(&mut m, " ");
    push_str(&mut m, k.label());
    push_str(&mut m, " id(s) absent from ");
    push_str(&mut m, k.source_xml());
    push_str(&mut m, ": ");
    let sample = join_ids_exec(ids, take);
    push_chars(&mut m, sample.as_slice());
    if n > SAMPLE_CAP {
        push_str(&mut m, " (and ");
        push_decimal(&mut m, (n - SAMPLE_CAP) as u64);
        push_str(&mut m, " more)");
    }
    m
}

fn push_issue(issues: &mut Vec<Issue>, i: Issue)
    ensures
        issues_view(final(issues)@) == issues_view(old(issues)@).push(i@),
{
    let ghost before = issues@;
    issues.push(i);
    assert(issues_view(issues@) =~= issues_view(before).push(i@));
}

spec fn misses_of(m: Seq<Vec<u64>>) -> Seq<Seq<u64>> {
    m.map_values(|v: Vec<u64>| v@)
}

/// Walk an inforef.xml and emit one error per kind whose referenced ids
/// are missing from the index (only kinds whose source XML was present).
pub fn check_inforef(entry_name: &str, bytes: &[u8], idx: &ReferenceIndex) -> (res: Vec<Issue>)
    ensures
        issues_view(res@) == inforef_issues(entry_name@, bytes@, model_of(*idx)),
{
    let ghost step = inforef_fn(model_of(*idx));
    let mut path: Vec<Vec<char>> = Vec::new();
    let mut in_id = false;
    let mut id_buf: Vec<char> = Vec::new();
    let mut misses: Vec<Vec<u64>> = Vec::new();
    let mut z: usize = 0;
    while z < 9
        invariant
            z <= 9,
            misses@.len() == z,
            forall|j: int| 0 <= j < z ==> (#[trigger] misses@[j])@.len() == 0,
        decreases 9 - z,
    {
        misses.push(Vec::new());
        z += 1;
    }
    assert forall|j: int| 0 <= j < 9 implies misses_of(misses@)[j] =~= inforef_init().misses[j] by {
        assert(misses@[j]@.len() == 0);
    }
    assert(misses_of(misses@) =~= inforef_init().misses);
    assert(names_of(path@) =~= inforef_init().path);
    let mut cur = XmlCursor::open(bytes, true);
    loop
        invariant_except_break
            cur.src() == bytes@,
            cur.trim(),
            cur.count() <= bytes@.len(),
            step == inforef_fn(model_of(*idx)),
            misses@.len() == 9,
            scan(bytes@, true, cur.count(), inforef_init(), step).1 is None,
            names_of(path@) == scan(bytes@, true, cur.count(), inforef_init(), step).0.path,
            in_id == scan(bytes@, true, cur.count(), inforef_init(), step).0.in_id,
            id_buf@ == scan(bytes@, true, cur.count(), inforef_init(), step).0.id_buf,
            misses_of(misses@) == scan(bytes@, true, cur.count(), inforef_init(), step).0.misses,
        ensures
            misses@.len() == 9,
            misses_of(misses@) == inforef_misses(bytes@, model_of(*idx)),
        decreases bytes@.len() + 1 - cur.count(),
    {
        let ghost k = cur.count();
        let ghost s = scan(bytes@, true, k, inforef_init(), step).0;
        let ev = cur.next();
        match ev {
            XmlEvent::Start { name, .. } => {
                if chars_eq_str(name.as_slice(), "id") && path.len() >= 2 {
                    in_id = true;
                    id_buf = Vec::new();
                }
                path.push(name);
                assert(names_of(path@) =~= s.path.push(name@));
            },
            XmlEvent::Text { text } => {
                if in_id {
                    push_chars(&mut id_buf, text.as_slice());
                }
            },
            XmlEvent::CData { text } => {
                if in_id {
                    push_chars(&mut id_buf, text.as_slice());
                }
            },
            XmlEvent::End { .. } => {
                let np = path.len();
                if in_id && np > 0 && chars_eq_str(path[np - 1].as_slice(), "id") {
                    in_id = false;
                    match id_context_exec(&path) {
                        Some(kind) => {
                            let t = trim_of(id_buf.as_slice());
                            match parse_u64(t.as_slice()) {
                                Some(id) => {
                                    if idx.source_present(kind) && !idx.lookup(kind, id) {
                                        let ki: usize = match kind {
                                            XrefKind::User => 0,
                                            XrefKind::File => 1,
                                            XrefKind::Role => 2,
                                            XrefKind::Group => 3,
                                            XrefKind::Grouping => 4,
                                            XrefKind::Scale => 5,
                                            XrefKind::Outcome => 6,
                                            XrefKind::GradeItem => 7,
                                            XrefKind::QuestionCategory => 8,
                                        };
                                        let mut b = misses[ki].clone();
                                        assert(b@ =~= misses@[ki as int]@);
                                        b.push(id);
                                        misses.set(ki, b);
                                        assert(misses_of(misses@) =~= record_miss(model_of(*idx), s.path, s.id_buf, s.misses));
                                    }
                                },
                                None => {},
                            }
                        },
                        None => {},
                    }
                }
                if np > 0 {
                    path.pop();
                    assert(names_of(path@) =~= s.path.drop_last());
                }
            },
            XmlEvent::Eof | XmlEvent::Error { .. } => {
                proof {
                    lemma_scan_finish(bytes@, true, k, inforef_init(), step);
                }
                break;
            },
            _ => {},
        }
    }
    let mut issues: Vec<Issue> = Vec::new();
    let mut i: usize = 0;
    while i < 9
        invariant
            i <= 9,
            misses@.len() == 9,
            misses_of(misses@) == inforef_misses(bytes@, model_of(*idx)),
            issues_view(issues@) == miss_issues(entry_name@, misses_of(misses@), i as int),
        decreases 9 - i,
    {
        let kind = kind_at_exec(i);
        if misses[i].len() > 0 {
            let msg = miss_message_exec(kind, &misses[i]);
            let mut loc = chars_of("/inforef/");
            push_str(&mut loc, wrapper_for(kind));
            let issue = Issue::of_strs(kind.code(), Severity::Error, entry_name, loc.as_slice(), msg.as_slice());
            push_issue(&mut issues, issue);
        }
        i += 1;
    }
    issues
}

// ---------------------------------------------------------------------------
// Laws

/// No source XML recorded as present.
pub open spec fn no_sources(idx: IndexModel) -> bool {
    forall|n: Seq<char>| !present_has(idx.present, n)
}

proof fn lemma_miss_issues_empty(entry: Seq<char>, misses: Seq<Seq<u64>>, i: int)
    requires
        forall|j: int| 0 <= j < misses.len() ==> (#[trigger] misses[j]).len() == 0,
        i <= misses.len(),
    ensures
        miss_issues(entry, misses, i) == Seq::<IssueView>::empty(),
    decreases i,
{
    if i > 0 {
        lemma_miss_issues_empty(entry, misses, i - 1);
    }
}

/// A kind whose source XML never reached the index is never reported: with
/// no source present, an inforef.xml yields no issues.
pub proof fn law_absent_sources_are_silent(entry: Seq<char>, src: Seq<u8>, idx: IndexModel)
    requires
        no_sources(idx),
    ensures
        inforef_issues(entry, src, idx) == Seq::<IssueView>::empty(),
{
    let step = inforef_fn(idx);
    let inv = |s: InforefScan| s.misses.len() == 9 && forall|j: int| 0 <= j < s.misses.len() ==> (#[trigger] s.misses[j]).len() == 0;
    let k = (src.len() + 1) as nat;
    assert forall|j: nat, s: InforefScan|
        #![trigger inv(step(s, xml_event(src, true, j)))]
        j < k && inv(s) && !is_terminal(xml_event(src, true, j)) implies inv(
        step(s, xml_event(src, true, j)),
    ) by {
        match id_context(s.path) {
            Some(kk) => {
                assert(!present_has(idx.present, kind_source(kk)@));
            },
            None => {},
        }
    }
    crate::xml::lemma_scan_inv(src, true, k, inforef_init(), step, inv);
    lemma_miss_issues_empty(entry, inforef_misses(src, idx), 9);
}

proof fn lemma_miss_issues_shape(entry: Seq<char>, misses: Seq<Seq<u64>>, i: int)
    ensures
        miss_issues(entry, misses, i).len() <= if i < 0 { 0 } else { i },
        forall|j: int| 0 <= j < miss_issues(entry, misses, i).len() ==> {
            &&& (#[trigger] miss_issues(entry, misses, i)[j]).severity == Severity::Error
            &&& miss_issues(entry, misses, i)[j].xml_file == entry
        },
    decreases i,
{
    if i > 0 {
        lemma_miss_issues_shape(entry, misses, i - 1);
    }
}

/// At most one issue per reference kind: an inforef.xml yields at most nine
/// issues, each an error on the inforef entry that was checked.
pub proof fn law_inforef_one_issue_per_kind(entry: Seq<char>, src: Seq<u8>, idx: IndexModel)
    ensures
        inforef_issues(entry, src, idx).len() <= 9,
        forall|j: int| 0 <= j < inforef_issues(entry, src, idx).len() ==> {
            &&& (#[trigger] inforef_issues(entry, src, idx)[j]).severity == Severity::Error
            &&& inforef_issues(entry, src, idx)[j].xml_file == entry
        },
{
    lemma_miss_issues_shape(entry, inforef_misses(src, idx), 9);
}

/// A top-level XML the index reads: the source of some kind.
pub open spec fn known_source(name: Seq<char>) -> bool {
    exists|k: XrefKind| kind_source(k)@ == name
}

/// Ingesting entry `name` into `before` gives `after` (`ReferenceIndex::ingest`).
pub open spec fn ingested(before: ReferenceIndex, after: ReferenceIndex, name: Seq<char>, src: Seq<u8>) -> bool {
    &&& forall|k: XrefKind| #[trigger] kind_ids(after, k) == kind_ids(before, k).union(ingest_adds(name, src, k))
    &&& after.present == present_after(before.present, name)
}

/// Ingesting changes only what the entry feeds: an entry that is no known
/// top-level XML changes nothing; a known one only adds ids to the kinds it
/// is the source of (groups and groupings for groups.xml), leaves every
/// other id set as it was, and marks only itself present.
pub proof fn law_ingest_frame(before: ReferenceIndex, after: ReferenceIndex, name: Seq<char>, src: Seq<u8>)
    requires
        ingested(before, after, name, src),
    ensures
        !known_source(name) ==> {
            &&& forall|k: XrefKind| #[trigger] kind_ids(after, k) == kind_ids(before, k)
            &&& after.present == before.present
        },
        forall|k: XrefKind| kind_source(k)@ != name ==> #[trigger] kind_ids(after, k) == kind_ids(before, k),
        forall|k: XrefKind| kind_ids(before, k).subset_of(#[trigger] kind_ids(after, k)),
        forall|m: Seq<char>| #[trigger] present_has(after.present, m) <==> (present_has(before.present, m) || (m == name
            && known_source(name))),
{
    assert forall|k: XrefKind| kind_source(k)@ != name implies #[trigger] kind_ids(after, k) == kind_ids(before, k) by {
        assert(kind_ids(before, k).union(Set::empty()) =~= kind_ids(before, k));
    }
    if !known_source(name) {
        assert(kind_source(XrefKind::User)@ != name);
        assert(kind_source(XrefKind::File)@ != name);
        assert(kind_source(XrefKind::Role)@ != name);
        assert(kind_source(XrefKind::Group)@ != name);
        assert(kind_source(XrefKind::Scale)@ != name);
        assert(kind_source(XrefKind::Outcome)@ != name);
        assert(kind_source(XrefKind::GradeItem)@ != name);
        assert(kind_source(XrefKind::QuestionCategory)@ != name);
    }
    assert forall|m: Seq<char>| #[trigger] present_has(after.present, m) <==> (present_has(before.present, m) || (m
        == name && known_source(name))) by {
        if m == name && known_source(name) {
            let k = choose|k: XrefKind| kind_source(k)@ == name;
            match k {
                XrefKind::User => {},
                XrefKind::File => {},
                XrefKind::Role => {},
                XrefKind::Group => {},
                XrefKind::Grouping => {},
                XrefKind::Scale => {},
                XrefKind::Outcome => {},
                XrefKind::GradeItem => {},
                XrefKind::QuestionCategory => {},
            }
        }
        if present_has(after.present, m) && !present_has(before.present, m) {
            assert(m == name);
            if name == "users.xml"@ { assert(kind_source(XrefKind::User)@ == name); }
            if name == "files.xml"@ { assert(kind_source(XrefKind::File)@ == name); }
            if name == "roles.xml"@ { assert(kind_source(XrefKind::Role)@ == name); }
            if name == "groups.xml"@ { assert(kind_source(XrefKind::Group)@ == name); }
            if name == "scales.xml"@ { assert(kind_source(XrefKind::Scale)@ == name); }
            if name == "outcomes.xml"@ { assert(kind_source(XrefKind::Outcome)@ == name); }
            if name == "gradebook.xml"@ { assert(kind_source(XrefKind::GradeItem)@ == name); }
            if name == "questions.xml"@ { assert(kind_source(XrefKind::QuestionCategory)@ == name); }
        }
    }
}

spec fn misses_sound(idx: IndexModel, misses: Seq<Seq<u64>>) -> bool {
    &&& misses.len() == 9
    &&& forall|q: int| 0 <= q < 9 && (#[trigger] misses[q]).len() > 0 ==> model_present(idx, kind_at(q))
    &&& forall|q: int, t: int| 0 <= q < 9 && 0 <= t < misses[q].len() ==> !(idx.ids)(kind_at(q)).contains(
        #[trigger] misses[q][t],
    )
}

proof fn lemma_kind_at_index(k: XrefKind)
    ensures
        0 <= kind_index(k) < 9,
        kind_at(kind_index(k)) == k,
{
}

/// Only absent ids are reported: every id an inforef.xml is found missing
/// for a kind was read from that kind's reference, is not in the index for
/// that kind, and the kind's source XML is present.
pub proof fn law_inforef_reports_only_absent_ids(src: Seq<u8>, idx: IndexModel)
    ensures
        inforef_misses(src, idx).len() == 9,
        forall|q: int| 0 <= q < 9 && (#[trigger] inforef_misses(src, idx)[q]).len() > 0 ==> model_present(
            idx,
            kind_at(q),
        ),
        forall|q: int, t: int| 0 <= q < 9 && 0 <= t < inforef_misses(src, idx)[q].len() ==> !(idx.ids)(
            kind_at(q),
        ).contains(#[trigger] inforef_misses(src, idx)[q][t]),
{
    let step = inforef_fn(idx);
    let inv = |s: InforefScan| misses_sound(idx, s.misses);
    let k = (src.len() + 1) as nat;
    assert forall|j: nat, s: InforefScan|
        #![trigger inv(step(s, xml_event(src, true, j)))]
        j < k && inv(s) && !is_terminal(xml_event(src, true, j)) implies inv(step(s, xml_event(src, true, j))) by {
        let e = xml_event(src, true, j);
        assert(misses_sound(idx, s.misses));
        assert(step(s, e) == inforef_step(idx, s, e));
        match e {
            XmlEvent::End { .. } => {
                let closes = s.in_id && s.path.len() > 0 && s.path.last() == "id"@;
                if closes {
                    match id_context(s.path) {
                        Some(kk) => {
                            lemma_kind_at_index(kk);
                            let m2 = record_miss(idx, s.path, s.id_buf, s.misses);
                            let ki = kind_index(kk);
                            assert(misses_sound(idx, s.misses));
                            match u64_text(trim(s.id_buf)) {
                                Some(id) => {
                                    if model_present(idx, kk) && !(idx.ids)(kk).contains(id) {
                                        assert(m2 == s.misses.update(ki, s.misses[ki].push(id)));
                                        assert forall|q: int| 0 <= q < 9 && (#[trigger] m2[q]).len() > 0 implies model_present(
                                            idx,
                                            kind_at(q),
                                        ) by {
                                            if q != ki {
                                                assert(m2[q] == s.misses[q]);
                                            }
                                        }
                                        assert forall|q: int, t: int| 0 <= q < 9 && 0 <= t < m2[q].len() implies !(idx.ids)(
                                            kind_at(q),
                                        ).contains(#[trigger] m2[q][t]) by {
                                            if q == ki {
                                                assert(kind_at(q) == kk);
                                                if t < s.misses[q].len() {
                                                    assert(m2[q][t] == s.misses[q][t]);
                                                    assert(!(idx.ids)(kind_at(q)).contains(s.misses[q][t]));
                                                } else {
                                                    assert(m2[q][t] == id);
                                                }
                                            } else {
                                                assert(m2[q] == s.misses[q]);
                                                assert(!(idx.ids)(kind_at(q)).contains(s.misses[q][t]));
                                            }
                                        }
                                        assert(m2.len() == 9);
                                        assert(misses_sound(idx, m2));
                                    } else {
                                        assert(m2 == s.misses);
                                        assert(misses_sound(idx, m2));
                                    }
                                },
                                None => {
                                    assert(m2 == s.misses);
                                    assert(misses_sound(idx, m2));
                                },
                            }
                        },
                        None => {},
                    }
                }
            },
            _ => {},
        }
        assert(misses_sound(idx, step(s, e).misses));
    }
    assert(inv(inforef_init())) by {
        assert forall|q: int| 0 <= q < 9 implies (#[trigger] inforef_init().misses[q]).len() == 0 by {}
        assert forall|q: int, t: int| 0 <= q < 9 && 0 <= t < inforef_init().misses[q].len() implies !(idx.ids)(
            kind_at(q),
        ).contains(#[trigger] inforef_init().misses[q][t]) by {
            assert(inforef_init().misses[q].len() == 0);
        }
    }
    crate::xml::lemma_scan_inv(src, true, k, inforef_init(), step, inv);
    assert(misses_sound(idx, inforef_misses(src, idx)));
}

} // verus!
