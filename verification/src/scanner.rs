//! Per-MBZ scan: iterate the archive's XML entries and run every validator.
//!
//! The scan reports, in order:
//!   1. unsafe entry names (whole archive);
//!   2. for each XML entry in archive order: a read failure, or a parse
//!      error, or the per-row schema issues followed by the manifest, shape
//!      and format checks of moodle_backup.xml and files.xml;
//!   3. for each inforef.xml in archive order: its dangling references,
//!      checked against the ids of every well-formed top-level XML (and
//!      activity grades.xml) of the archive.

use vstd::prelude::*;
use crate::manifest::{
    check_files_xml, check_moodle_backup_manifest, missing_dir_issues, missing_payload_issues,
    payload_prefixes_defined, referenced_directories,
};
use crate::mbz::{names_view, xml_names_of, MbzArchive};
use crate::report::{MbzResult, ResultView};
use crate::text::{chars_eq_str, chars_of, ends_with_str, has_prefix, has_suffix, push_str, starts_with_str, string_of};
use crate::validate::codes;
use crate::validate::completeness::{check as check_shape, check_orphan_files, manifest_of, orphan_issues, parse_manifest, shape_issues};
use crate::validate::cross_ref::{
    check_inforef, empty_model, ingest_activity_grades, inforef_issues, is_inforef, kind_ids,
    model_activity_grades, model_ingest, model_of, IndexModel, ReferenceIndex, XrefKind,
};
use crate::validate::safety::{backup_id_issues, check_backup_id, check_contenthash_format, check_entry_names, contenthash_issues, name_issues};
use crate::validate::structure::{check as check_structure, structure_issues, StructureOptions};
use crate::validate::well_formed::{check as check_well_formed, parse_issue};
use crate::validate::{issue_view, issues_view, Issue, IssueView, Severity};
use crate::xmldb_shared::Schema;

verus! {

/// An activity's own grades.xml, whose grade items join the index.
pub open spec fn is_activity_grades(n: Seq<char>) -> bool {
    has_prefix(n, "activities/"@) && has_suffix(n, "/grades.xml"@)
}

/// The inforef.xml entries checked against the index.
pub open spec fn is_inforef_name(n: Seq<char>) -> bool {
    has_suffix(n, "/inforef.xml"@) || n == "inforef.xml"@
}

/// The checks specific to moodle_backup.xml and files.xml.
pub open spec fn named_checks(a: MbzArchive, name: Seq<char>, b: Seq<u8>) -> Seq<IssueView> {
    if name == "moodle_backup.xml"@ {
        missing_dir_issues(referenced_directories(b), a.entry_names()) + backup_id_issues(b)
            + shape_issues(manifest_of(b), a.entry_names())
    } else if name == "files.xml"@ {
        missing_payload_issues(b, a.entry_names()) + contenthash_issues(b) + orphan_issues(
            a.entry_names(),
            b,
        )
    } else {
        Seq::empty()
    }
}

/// What reading and validating one XML entry reports.
pub open spec fn entry_issues(a: MbzArchive, name: Seq<char>, schema: Schema, strict: bool) -> Seq<IssueView> {
    match a.read_spec(name) {
        Err(e) => seq![
            issue_view(
                codes::ARCHIVE_ENTRY_READ@,
                Severity::Error,
                name,
                Seq::empty(),
                "could not read entry: "@ + e,
            ),
        ],
        Ok(b) => match parse_issue(name, b) {
            Some(i) => seq![i],
            None => structure_issues(name, b, schema, strict) + named_checks(a, name, b),
        },
    }
}

/// The first pass over the XML entries `names`.
pub open spec fn first_pass(a: MbzArchive, names: Seq<Seq<char>>, schema: Schema, strict: bool) -> Seq<IssueView>
    decreases names.len(),
{
    if names.len() == 0 {
        Seq::empty()
    } else {
        first_pass(a, names.drop_last(), schema, strict) + entry_issues(a, names.last(), schema, strict)
    }
}

/// The index after feeding it entry `name` (when it reads and parses).
pub open spec fn indexed(m: IndexModel, a: MbzArchive, name: Seq<char>) -> IndexModel {
    match a.read_spec(name) {
        Ok(b) => if parse_issue(name, b) is None {
            if is_activity_grades(name) {
                model_activity_grades(m, b)
            } else {
                model_ingest(m, name, b)
            }
        } else {
            m
        },
        Err(_) => m,
    }
}

/// The index built from the XML entries `names`.
pub open spec fn index_after(a: MbzArchive, names: Seq<Seq<char>>) -> IndexModel
    decreases names.len(),
{
    if names.len() == 0 {
        empty_model()
    } else {
        indexed(index_after(a, names.drop_last()), a, names.last())
    }
}

/// What checking one inforef.xml against the index reports.
pub open spec fn inforef_entry_issues(a: MbzArchive, name: Seq<char>, m: IndexModel) -> Seq<IssueView> {
    if is_inforef_name(name) {
        match a.read_spec(name) {
            Ok(b) => if parse_issue(name, b) is None {
                inforef_issues(name, b, m)
            } else {
                Seq::empty()
            },
            Err(_) => Seq::empty(),
        }
    } else {
        Seq::empty()
    }
}

/// The second pass over the XML entries `names`.
pub open spec fn second_pass(a: MbzArchive, names: Seq<Seq<char>>, m: IndexModel) -> Seq<IssueView>
    decreases names.len(),
{
    if names.len() == 0 {
        Seq::empty()
    } else {
        second_pass(a, names.drop_last(), m) + inforef_entry_issues(a, names.last(), m)
    }
}

/// Every issue a scan of archive `a` reports.
pub open spec fn scan_issues(a: MbzArchive, schema: Schema, strict: bool) -> Seq<IssueView> {
    let xml = xml_names_of(a.entry_names());
    name_issues(a.entry_names()) + first_pass(a, xml, schema, strict) + second_pass(a, xml, index_after(a, xml))
}

/// The scan's result for an archive that opened (`Ok`) or failed to open
/// with a message (`Err`).
pub open spec fn scan_result(path: Seq<char>, opened: Result<MbzArchive, String>, schema: Schema, strict: bool) -> ResultView {
    match opened {
        Err(e) => ResultView { path: path, xml_count: 0, issues: Seq::empty(), fatal: Some(e@) },
        Ok(a) => ResultView {
            path: path,
            xml_count: xml_names_of(a.entry_names()).len(),
            issues: scan_issues(a, schema, strict),
            fatal: None,
        },
    }
}

/// files.xml, when the scan reaches its checks, has contenthash values that
/// can be cut after two bytes (where the payload check would otherwise
/// fail).
pub open spec fn files_xml_cuttable(a: MbzArchive) -> bool {
    xml_names_of(a.entry_names()).contains("files.xml"@) ==> match a.read_spec("files.xml"@) {
        Ok(b) => parse_issue("files.xml"@, b) is None ==> payload_prefixes_defined(b),
        Err(_) => true,
    }
}

/// Whether a scan of `archive` can run to completion (see
/// `files_xml_cuttable`).
pub fn scan_completes(archive: &MbzArchive) -> (r: bool)
    ensures
        r == files_xml_cuttable(*archive),
{
    let names = archive.xml_names();
    let mut listed = false;
    let mut i: usize = 0;
    while i < names.len()
        invariant
            i <= names@.len(),
            listed == names_view(names@).take(i as int).contains("files.xml"@),
        decreases names@.len() - i,
    {
        let n = chars_of(names[i].as_str());
        proof {
            let s = names_view(names@).take(i as int);
            let x = names@[i as int]@;
            let t = s.push(x);
            assert(names_view(names@).take(i as int + 1) =~= t);
            let f = "files.xml"@;
            if t.contains(f) {
                let j = choose|j: int| 0 <= j < t.len() && t[j] == f;
                if j < s.len() {
                    assert(s[j] == f);
                }
            }
            if s.contains(f) {
                let j = choose|j: int| 0 <= j < s.len() && s[j] == f;
                assert(t[j] == f);
            }
            if x == f {
                assert(t[s.len() as int] == f);
            }
        }
        if chars_eq_str(n.as_slice(), "files.xml") {
            listed = true;
        }
        i += 1;
    }
    assert(names_view(names@).take(names@.len() as int) =~= names_view(names@));
    if !listed {
        return true;
    }
    match archive.read_to_vec("files.xml") {
        Ok(b) => {
            if check_well_formed("files.xml", b.as_slice()).is_some() {
                true
            } else {
                crate::manifest::payload_prefixes_ok(b.as_slice())
            }
        },
        Err(_) => true,
    }
}

fn is_activity_grades_exec(n: &str) -> (r: bool)
    ensures
        r == is_activity_grades(n@),
{
    let c = chars_of(n);
    starts_with_str(c.as_slice(), "activities/") && ends_with_str(c.as_slice(), "/grades.xml")
}

/// Append `more` to `issues`.
fn append_issues(issues: &mut Vec<Issue>, more: Vec<Issue>)
    ensures
        issues_view(final(issues)@) == issues_view(old(issues)@) + issues_view(more@),
{
    let mut more = more;
    let ghost a = issues@;
    let ghost b = more@;
    issues.append(&mut more);
    assert(issues_view(issues@) =~= issues_view(a) + issues_view(b));
}

/// The validators specific to moodle_backup.xml and files.xml.
fn run_named_checks(issues: &mut Vec<Issue>, archive: &MbzArchive, name: &str, bytes: &[u8])
    requires
        name@ == "files.xml"@ ==> payload_prefixes_defined(bytes@),
    ensures
        issues_view(final(issues)@) == issues_view(old(issues)@) + named_checks(*archive, name@, bytes@),
{
    let n = chars_of(name);
    if chars_eq_str(n.as_slice(), "moodle_backup.xml") {
        let ghost start = issues_view(issues@);
        append_issues(issues, check_moodle_backup_manifest(archive, bytes));
        append_issues(issues, check_backup_id(bytes));
        let manifest = parse_manifest(bytes);
        append_issues(issues, check_shape(archive, &manifest));
        assert(issues_view(issues@) =~= start + named_checks(*archive, name@, bytes@));
    } else if chars_eq_str(n.as_slice(), "files.xml") {
        let ghost start = issues_view(issues@);
        append_issues(issues, check_files_xml(archive, bytes));
        append_issues(issues, check_contenthash_format(bytes));
        append_issues(issues, check_orphan_files(archive, bytes));
        assert(issues_view(issues@) =~= start + named_checks(*archive, name@, bytes@));
    } else {
        assert(issues_view(issues@) =~= issues_view(issues@) + named_checks(*archive, name@, bytes@));
    }
}

/// The index agrees with a model.
pub open spec fn index_is(idx: ReferenceIndex, m: IndexModel) -> bool {
    &&& forall|k: XrefKind| #[trigger] kind_ids(idx, k) == (m.ids)(k)
    &&& idx.present == m.present
}

/// Scan one MBZ: `opened` is the archive as read from `path`, or the message
/// of the failure to open it (reported as the result's fatal error).
pub fn scan_mbz(path: &str, opened: Result<MbzArchive, String>, schema: &Schema, strict: bool) -> (r: MbzResult)
    requires
        opened matches Ok(a) ==> files_xml_cuttable(a),
    ensures
        r@ == scan_result(path@, opened, *schema, strict),
{
    let p = chars_of(path);
    let path_string = string_of(p.as_slice());
    let archive = match opened {
        Err(e) => {
            let r = MbzResult { path: path_string, xml_count: 0, issues: Vec::new(), fatal: Some(e) };
            assert(r@.issues =~= Seq::<IssueView>::empty());
            return r;
        },
        Ok(a) => a,
    };
    let ghost a = archive;
    let xml_names = archive.xml_names();
    let ghost xml = names_view(xml_names@);
    let mut issues = check_entry_names(&archive);
    let ghost after_names = issues_view(issues@);
    let opts = StructureOptions { strict };
    let mut idx = ReferenceIndex::default();
    let mut i: usize = 0;
    assert(xml.take(0) =~= Seq::<Seq<char>>::empty());
    assert(issues_view(issues@) =~= after_names + first_pass(a, xml.take(0), *schema, strict));
    while i < xml_names.len()
        invariant
            i <= xml_names@.len(),
            a == archive,
            xml == names_view(xml_names@),
            xml == xml_names_of(a.entry_names()),
            files_xml_cuttable(a),
            opts.strict == strict,
            issues_view(issues@) == after_names + first_pass(a, xml.take(i as int), *schema, strict),
            index_is(idx, index_after(a, xml.take(i as int))),
        decreases xml_names@.len() - i,
    {
        assert(xml.take(i as int + 1).drop_last() =~= xml.take(i as int));
        assert(xml.take(i as int + 1).last() == xml_names@[i as int]@);
        let ghost m = index_after(a, xml.take(i as int));
        let ghost before = issues_view(issues@);
        let name = xml_names[i].as_str();
        match archive.read_to_vec(name) {
            Err(e) => {
                let mut msg = chars_of("could not read entry: ");
                push_str(&mut msg, e.as_str());
                let empty: Vec<char> = Vec::new();
                let issue = Issue::of_strs(codes::ARCHIVE_ENTRY_READ, Severity::Error, name, empty.as_slice(), msg.as_slice());
                issues.push(issue);
                assert(empty@ =~= Seq::<char>::empty());
                assert(issues_view(issues@) =~= before + entry_issues(a, name@, *schema, strict));
            },
            Ok(bytes) => {
                match check_well_formed(name, bytes.as_slice()) {
                    Some(issue) => {
                        issues.push(issue);
                        assert(issues_view(issues@) =~= before + entry_issues(a, name@, *schema, strict));
                    },
                    None => {
                        append_issues(&mut issues, check_structure(name, bytes.as_slice(), schema, &opts));
                        proof {
                            if name@ == "files.xml"@ {
                                assert(xml.contains("files.xml"@)) by {
                                    assert(xml[i as int] == name@);
                                }
                            }
                        }
                        run_named_checks(&mut issues, &archive, name, bytes.as_slice());
                        assert(issues_view(issues@) =~= before + entry_issues(a, name@, *schema, strict));
                        if is_activity_grades_exec(name) {
                            ingest_activity_grades(&mut idx, bytes.as_slice());
                        } else {
                            idx.ingest(name, bytes.as_slice());
                        }
                    },
                }
            },
        }
        assert(index_is(idx, index_after(a, xml.take(i as int + 1))));
        i += 1;
    }
    assert(xml.take(xml_names@.len() as int) =~= xml);
    let ghost fm = index_after(a, xml);
    proof {
        assert(model_of(idx).ids =~= fm.ids);
        assert(model_of(idx) == fm);
    }
    let ghost after_first = issues_view(issues@);
    let mut j: usize = 0;
    assert(issues_view(issues@) =~= after_first + second_pass(a, xml.take(0), fm));
    while j < xml_names.len()
        invariant
            j <= xml_names@.len(),
            a == archive,
            xml == names_view(xml_names@),
            model_of(idx) == fm,
            issues_view(issues@) == after_first + second_pass(a, xml.take(j as int), fm),
        decreases xml_names@.len() - j,
    {
        assert(xml.take(j as int + 1).drop_last() =~= xml.take(j as int));
        assert(xml.take(j as int + 1).last() == xml_names@[j as int]@);
        let ghost before = issues_view(issues@);
        let name = xml_names[j].as_str();
        if is_inforef(name) {
            match archive.read_to_vec(name) {
                Ok(bytes) => {
                    if check_well_formed(name, bytes.as_slice()).is_none() {
                        append_issues(&mut issues, check_inforef(name, bytes.as_slice(), &idx));
                    }
                },
                Err(_) => {},
            }
        }
        assert(issues_view(issues@) =~= before + inforef_entry_issues(a, name@, fm));
        j += 1;
    }
    assert(xml.take(xml_names@.len() as int) =~= xml);
    let count = xml_names.len();
    let r = MbzResult { path: path_string, xml_count: count, issues, fatal: None };
    assert(r@.issues =~= scan_issues(a, *schema, strict));
    r
}

/// `scan_mbz` behind its own precondition: `None` when the archive opened
/// but a files.xml content hash cannot be cut after two bytes, else the
/// result of the scan.
pub fn scan_mbz_checked(path: &str, opened: Result<MbzArchive, String>, schema: &Schema, strict: bool) -> (r: Option<MbzResult>)
    ensures
        r is Some <==> (opened matches Ok(a) ==> files_xml_cuttable(a)),
        r matches Some(x) ==> x@ == scan_result(path@, opened, *schema, strict),
{
    if let Ok(a) = &opened {
        if !scan_completes(a) {
            return None;
        }
    }
    Some(scan_mbz(path, opened, schema, strict))
}

// ---------------------------------------------------------------------------
// Laws

/// The top-level XMLs whose ids feed the reference index.
pub open spec fn is_index_source(n: Seq<char>) -> bool {
    ||| n == "users.xml"@
    ||| n == "files.xml"@
    ||| n == "roles.xml"@
    ||| n == "groups.xml"@
    ||| n == "scales.xml"@
    ||| n == "outcomes.xml"@
    ||| n == "gradebook.xml"@
    ||| n == "questions.xml"@
}

proof fn lemma_index_without_sources(a: MbzArchive, names: Seq<Seq<char>>)
    requires
        forall|i: int| 0 <= i < names.len() ==> !is_index_source(#[trigger] names[i]) && !is_activity_grades(names[i]),
    ensures
        index_after(a, names).present == empty_model().present,
    decreases names.len(),
{
    if names.len() > 0 {
        assert forall|i: int| 0 <= i < names.drop_last().len() implies !is_index_source(#[trigger] names.drop_last()[i]) && !is_activity_grades(names.drop_last()[i]) by {
            assert(names.drop_last()[i] == names[i]);
        }
        lemma_index_without_sources(a, names.drop_last());
        assert(names[names.len() - 1] == names.last());
    }
}

proof fn lemma_second_pass_silent(a: MbzArchive, names: Seq<Seq<char>>, m: IndexModel)
    requires
        crate::validate::cross_ref::no_sources(m),
    ensures
        second_pass(a, names, m) == Seq::<IssueView>::empty(),
    decreases names.len(),
{
    if names.len() > 0 {
        lemma_second_pass_silent(a, names.drop_last(), m);
        let n = names.last();
        if is_inforef_name(n) {
            match a.read_spec(n) {
                Ok(b) => {
                    crate::validate::cross_ref::law_absent_sources_are_silent(n, b, m);
                },
                Err(_) => {},
            }
        }
        assert(second_pass(a, names, m) =~= Seq::<IssueView>::empty());
    }
}

/// Dangling references are only reported against sources the archive has:
/// when no XML entry is one of the top-level id sources (users.xml,
/// files.xml, ...) or an activity's grades.xml, the inforef.xml checks
/// report nothing.
pub proof fn law_inforef_silent_without_sources(a: MbzArchive)
    requires
        forall|i: int| 0 <= i < xml_names_of(a.entry_names()).len() ==> !is_index_source(
            #[trigger] xml_names_of(a.entry_names())[i],
        ) && !is_activity_grades(xml_names_of(a.entry_names())[i]),
    ensures
        second_pass(a, xml_names_of(a.entry_names()), index_after(a, xml_names_of(a.entry_names())))
            == Seq::<IssueView>::empty(),
{
    let xml = xml_names_of(a.entry_names());
    lemma_index_without_sources(a, xml);
    let m = index_after(a, xml);
    assert(crate::validate::cross_ref::no_sources(m));
    lemma_second_pass_silent(a, xml, m);
}


} // verus!
