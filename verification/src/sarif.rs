//! The SARIF 2.1.0 model of a scan: one run per MBZ, its rules, and its
//! results in order, each with the fields the SARIF document carries.
//! Serialising the model as JSON is left to the caller.

use vstd::prelude::*;
use crate::report::{collect_rule_ids, fatal_fingerprint, rule_ids, sarif_fingerprint, sarif_level, strictly_sorted, MbzResult, Report, ResultView};
use crate::text::{chars_of, string_of};
use crate::validate::{codes, Issue, IssueView, Severity};

verus! {

/// One SARIF result.
pub struct SarifResult {
    /// `ruleId`: the issue code.
    pub rule_id: &'static str,
    /// `level`: "error" or "warning".
    pub level: &'static str,
    /// `message.text`.
    pub message: String,
    /// `physicalLocation.artifactLocation.uri`.
    pub uri: String,
    /// `physicalLocation.region.message.text`, when the result has a region.
    pub region: Option<String>,
    /// `logicalLocations[0].fullyQualifiedName`, when the result has one.
    pub logical: Option<String>,
    /// `partialFingerprints.primary`.
    pub fingerprint: String,
}

pub struct SarifResultView {
    pub rule_id: Seq<char>,
    pub level: Seq<char>,
    pub message: Seq<char>,
    pub uri: Seq<char>,
    pub region: Option<Seq<char>>,
    pub logical: Option<Seq<char>>,
    pub fingerprint: Seq<char>,
}

pub open spec fn opt_str_view(o: Option<String>) -> Option<Seq<char>> {
    match o {
        Some(s) => Some(s@),
        None => None,
    }
}

impl View for SarifResult {
    type V = SarifResultView;

    open spec fn view(&self) -> SarifResultView {
        SarifResultView {
            rule_id: self.rule_id@,
            level: self.level@,
            message: self.message@,
            uri: self.uri@,
            region: opt_str_view(self.region),
            logical: opt_str_view(self.logical),
            fingerprint: self.fingerprint@,
        }
    }
}

/// One SARIF run: the scan of one MBZ.
pub struct SarifRun {
    /// `properties.mbz`.
    pub mbz: String,
    /// `properties.xmlCount`.
    pub xml_count: usize,
    /// `tool.driver.rules[*].id`.
    pub rules: Vec<&'static str>,
    /// `results`.
    pub results: Vec<SarifResult>,
}

pub struct SarifRunView {
    pub mbz: Seq<char>,
    pub xml_count: nat,
    pub rules: Seq<Seq<char>>,
    pub results: Seq<SarifResultView>,
}

pub open spec fn sarif_results_view(v: Seq<SarifResult>) -> Seq<SarifResultView> {
    v.map_values(|r: SarifResult| r@)
}

impl View for SarifRun {
    type V = SarifRunView;

    open spec fn view(&self) -> SarifRunView {
        SarifRunView {
            mbz: self.mbz@,
            xml_count: self.xml_count as nat,
            rules: self.rules@.map_values(|c: &'static str| c@),
            results: sarif_results_view(self.results@),
        }
    }
}

/// The SARIF level of a severity.
pub open spec fn level_of(sev: Severity) -> Seq<char> {
    match sev {
        Severity::Error => "error"@,
        Severity::Warning => "warning"@,
    }
}

/// The result for an issue of the MBZ at `path`: its region only when the
/// issue has a location; its logical location always.
pub open spec fn issue_result(path: Seq<char>, i: IssueView) -> SarifResultView {
    SarifResultView {
        rule_id: i.code,
        level: level_of(i.severity),
        message: i.message,
        uri: i.xml_file,
        region: if i.location.len() > 0 { Some(i.location) } else { None },
        logical: Some(i.location),
        fingerprint: i.code + "|"@ + path + "|"@ + i.xml_file + "|"@ + i.location,
    }
}

/// The result for the fatal error `f` of the MBZ at `path`: an error on the
/// MBZ itself, without region or logical location.
pub open spec fn fatal_result(path: Seq<char>, f: Seq<char>) -> SarifResultView {
    SarifResultView {
        rule_id: codes::ARCHIVE_FATAL@,
        level: "error"@,
        message: f,
        uri: path,
        region: None,
        logical: None,
        fingerprint: codes::ARCHIVE_FATAL@ + ":"@ + path,
    }
}

/// The results of a run: the fatal error first, when there is one, then one
/// result per issue, in order.
pub open spec fn run_results(r: ResultView) -> Seq<SarifResultView> {
    let head = match r.fatal {
        Some(f) => seq![fatal_result(r.path, f)],
        None => Seq::empty(),
    };
    head + r.issues.map_values(|i: IssueView| issue_result(r.path, i))
}

fn copy_string(s: &str) -> (r: String)
    ensures
        r@ == s@,
{
    let v = chars_of(s);
    string_of(v.as_slice())
}

/// The SARIF result of one issue of the MBZ at `mbz_path`.
pub fn issue_to_sarif_result(mbz_path: &str, issue: &Issue) -> (r: SarifResult)
    ensures
        r@ == issue_result(mbz_path@, issue@),
{
    let loc = chars_of(issue.location.as_str());
    let region = if loc.len() > 0 {
        Some(copy_string(issue.location.as_str()))
    } else {
        None
    };
    SarifResult {
        rule_id: issue.code,
        level: sarif_level(issue.severity),
        message: copy_string(issue.message.as_str()),
        uri: copy_string(issue.xml_file.as_str()),
        region,
        logical: Some(copy_string(issue.location.as_str())),
        fingerprint: sarif_fingerprint(mbz_path, issue),
    }
}

/// The SARIF run of one scan result: its rule ids in `str` order, each
/// once, and its results.
pub fn mbz_to_sarif_run(r: &MbzResult) -> (run: SarifRun)
    ensures
        run@.mbz == r@.path,
        run@.xml_count == r@.xml_count,
        strictly_sorted(run@.rules),
        run@.rules.to_set() == rule_ids(r@),
        run@.results == run_results(r@),
{
    let ghost rv = r@;
    let ghost tail = rv.issues.map_values(|i: IssueView| issue_result(rv.path, i));
    let mut results: Vec<SarifResult> = Vec::new();
    let ghost head: Seq<SarifResultView> = Seq::empty();
    if let Some(f) = &r.fatal {
        results.push(SarifResult {
            rule_id: codes::ARCHIVE_FATAL,
            level: "error",
            message: copy_string(f.as_str()),
            uri: copy_string(r.path.as_str()),
            region: None,
            logical: None,
            fingerprint: fatal_fingerprint(r.path.as_str()),
        });
        proof {
            reveal_strlit("error");
            head = seq![fatal_result(rv.path, rv.fatal->Some_0)];
        }
    }
    assert(sarif_results_view(results@) =~= head);
    let mut i: usize = 0;
    while i < r.issues.len()
        invariant
            i <= r.issues@.len(),
            rv == r@,
            tail == rv.issues.map_values(|i: IssueView| issue_result(rv.path, i)),
            sarif_results_view(results@) == head + tail.take(i as int),
        decreases r.issues@.len() - i,
    {
        let x = issue_to_sarif_result(r.path.as_str(), &r.issues[i]);
        assert(r.issues@[i as int]@ == rv.issues[i as int]);
        let ghost before = results@;
        results.push(x);
        assert(sarif_results_view(results@) =~= sarif_results_view(before).push(x@));
        assert(tail.take(i as int + 1) =~= tail.take(i as int).push(tail[i as int]));
        assert(head + tail.take(i as int + 1) =~= (head + tail.take(i as int)).push(tail[i as int]));
        i += 1;
    }
    assert(tail.take(r.issues@.len() as int) =~= tail);
    assert(head == match rv.fatal {
        Some(f) => seq![fatal_result(rv.path, f)],
        None => Seq::<SarifResultView>::empty(),
    });
    SarifRun {
        mbz: copy_string(r.path.as_str()),
        xml_count: r.xml_count,
        rules: collect_rule_ids(r),
        results,
    }
}

impl Report {
    /// One SARIF run per scan result, in order.
    pub fn sarif_runs(&self) -> (runs: Vec<SarifRun>)
        ensures
            runs@.len() == self.results@.len(),
            forall|j: int| 0 <= j < runs@.len() ==> {
                &&& (#[trigger] runs@[j])@.mbz == self.results@[j]@.path
                &&& runs@[j]@.xml_count == self.results@[j]@.xml_count
                &&& strictly_sorted(runs@[j]@.rules)
                &&& runs@[j]@.rules.to_set() == rule_ids(self.results@[j]@)
                &&& runs@[j]@.results == run_results(self.results@[j]@)
            },
    {
        let mut runs: Vec<SarifRun> = Vec::new();
        let mut i: usize = 0;
        while i < self.results.len()
            invariant
                i <= self.results@.len(),
                runs@.len() == i,
                forall|j: int| 0 <= j < i ==> {
                    &&& (#[trigger] runs@[j])@.mbz == self.results@[j]@.path
                    &&& runs@[j]@.xml_count == self.results@[j]@.xml_count
                    &&& strictly_sorted(runs@[j]@.rules)
                    &&& runs@[j]@.rules.to_set() == rule_ids(self.results@[j]@)
                    &&& runs@[j]@.results == run_results(self.results@[j]@)
                },
            decreases self.results@.len() - i,
        {
            let run = mbz_to_sarif_run(&self.results[i]);
            runs.push(run);
            i += 1;
        }
        runs
    }
}

} // verus!
