//! Aggregate scan results into a Report and render it as text.
//!
//! The text rendering is colourised with owo-colors when asked to. The
//! SARIF model of a report is built in `sarif`; serialising it, and the JSON
//! rendering, are left to the command-line program.

use vstd::prelude::*;
use owo_colors::OwoColorize;
use crate::seqs::{first_index, lemma_first_index};
use crate::text::{chars_eq, chars_of, decimal, push_chars, push_decimal, push_str, string_of};
use crate::validate::{issues_view, Issue, IssueView, Severity};

verus! {

pub struct MbzResult {
    pub path: String,
    pub xml_count: usize,
    pub issues: Vec<Issue>,
    /// Set when the MBZ itself failed to open or another fatal error stopped scanning.
    pub fatal: Option<String>,
}

/// A scan result as plain values.
pub struct ResultView {
    pub path: Seq<char>,
    pub xml_count: nat,
    pub issues: Seq<IssueView>,
    pub fatal: Option<Seq<char>>,
}

impl View for MbzResult {
    type V = ResultView;

    open spec fn view(&self) -> ResultView {
        ResultView {
            path: self.path@,
            xml_count: self.xml_count as nat,
            issues: issues_view(self.issues@),
            fatal: match self.fatal {
                Some(f) => Some(f@),
                None => None,
            },
        }
    }
}

/// Number of issues of severity `sev`.
pub open spec fn count_sev(s: Seq<IssueView>, sev: Severity) -> nat
    decreases s.len(),
{
    if s.len() == 0 {
        0
    } else {
        count_sev(s.drop_last(), sev) + if s.last().severity == sev { 1nat } else { 0nat }
    }
}

proof fn lemma_count_sev_bound(s: Seq<IssueView>, sev: Severity)
    ensures
        count_sev(s, sev) <= s.len(),
    decreases s.len(),
{
    if s.len() > 0 {
        lemma_count_sev_bound(s.drop_last(), sev);
    }
}

fn count_severity(issues: &Vec<Issue>, sev: Severity) -> (n: usize)
    ensures
        n == count_sev(issues_view(issues@), sev),
{
    let ghost all = issues_view(issues@);
    let mut n: usize = 0;
    let mut i: usize = 0;
    while i < issues.len()
        invariant
            i <= issues@.len(),
            all == issues_view(issues@),
            n == count_sev(all.take(i as int), sev),
            n <= i,
        decreases issues@.len() - i,
    {
        assert(all.take(i as int + 1).drop_last() =~= all.take(i as int));
        assert(all.take(i as int + 1).last() == issues@[i as int]@);
        if issues[i].severity == sev {
            n += 1;
        }
        i += 1;
    }
    assert(all.take(issues@.len() as int) =~= all);
    n
}

impl MbzResult {
    pub fn errors(&self) -> (n: usize)
        ensures
            n == count_sev(self@.issues, Severity::Error),
    {
        count_severity(&self.issues, Severity::Error)
    }

    pub fn warnings(&self) -> (n: usize)
        ensures
            n == count_sev(self@.issues, Severity::Warning),
    {
        count_severity(&self.issues, Severity::Warning)
    }
}

pub struct Report {
    pub results: Vec<MbzResult>,
}

impl Default for Report {
    fn default() -> (r: Report)
        ensures
            r.results@.len() == 0,
    {
        Report { results: Vec::new() }
    }
}

pub open spec fn results_view(v: Seq<MbzResult>) -> Seq<ResultView> {
    v.map_values(|r: MbzResult| r@)
}

/// Issues of severity `sev` over all results.
pub open spec fn total_sev(rs: Seq<ResultView>, sev: Severity) -> nat
    decreases rs.len(),
{
    if rs.len() == 0 {
        0
    } else {
        total_sev(rs.drop_last(), sev) + count_sev(rs.last().issues, sev)
    }
}

/// Results whose scan stopped on a fatal error.
pub open spec fn fatal_total(rs: Seq<ResultView>) -> nat
    decreases rs.len(),
{
    if rs.len() == 0 {
        0
    } else {
        fatal_total(rs.drop_last()) + if rs.last().fatal is Some { 1nat } else { 0nat }
    }
}

proof fn lemma_total_sev_prefix(rs: Seq<ResultView>, sev: Severity, i: int)
    requires
        0 <= i <= rs.len(),
    ensures
        total_sev(rs.take(i), sev) <= total_sev(rs, sev),
    decreases rs.len() - i,
{
    if i < rs.len() {
        lemma_total_sev_prefix(rs, sev, i + 1);
        assert(rs.take(i + 1).drop_last() =~= rs.take(i));
    } else {
        assert(rs.take(i) =~= rs);
    }
}

fn total_severity(results: &Vec<MbzResult>, sev: Severity) -> (n: usize)
    requires
        total_sev(results_view(results@), sev) <= usize::MAX,
    ensures
        n == total_sev(results_view(results@), sev),
{
    let ghost all = results_view(results@);
    let mut n: usize = 0;
    let mut i: usize = 0;
    while i < results.len()
        invariant
            i <= results@.len(),
            all == results_view(results@),
            total_sev(all, sev) <= usize::MAX,
            n == total_sev(all.take(i as int), sev),
        decreases results@.len() - i,
    {
        assert(all.take(i as int + 1).drop_last() =~= all.take(i as int));
        assert(all.take(i as int + 1).last() == results@[i as int]@);
        proof {
            lemma_total_sev_prefix(all, sev, i + 1);
        }
        let c = count_severity(&results[i].issues, sev);
        n = n + c;
        i += 1;
    }
    assert(all.take(results@.len() as int) =~= all);
    n
}

impl Report {
    /// Errors over all results (the total must fit in a `usize`).
    pub fn total_errors(&self) -> (n: usize)
        requires
            total_sev(results_view(self.results@), Severity::Error) <= usize::MAX,
        ensures
            n == total_sev(results_view(self.results@), Severity::Error),
    {
        total_severity(&self.results, Severity::Error)
    }

    /// Warnings over all results (the total must fit in a `usize`).
    pub fn total_warnings(&self) -> (n: usize)
        requires
            total_sev(results_view(self.results@), Severity::Warning) <= usize::MAX,
        ensures
            n == total_sev(results_view(self.results@), Severity::Warning),
    {
        total_severity(&self.results, Severity::Warning)
    }

    /// Results whose scan stopped on a fatal error.
    pub fn fatal_count(&self) -> (n: usize)
        ensures
            n == fatal_total(results_view(self.results@)),
    {
        let ghost all = results_view(self.results@);
        let mut n: usize = 0;
        let mut i: usize = 0;
        while i < self.results.len()
            invariant
                i <= self.results@.len(),
                all == results_view(self.results@),
                n == fatal_total(all.take(i as int)),
                n <= i,
            decreases self.results@.len() - i,
        {
            assert(all.take(i as int + 1).drop_last() =~= all.take(i as int));
            assert(all.take(i as int + 1).last() == self.results@[i as int]@);
            if self.results[i].fatal.is_some() {
                n += 1;
            }
            i += 1;
        }
        assert(all.take(self.results@.len() as int) =~= all);
        n
    }
}

// ---------------------------------------------------------------------------
// Colours (owo-colors)

/// owo-colors' `bold()`: the text between `ESC[1m` and `ESC[0m`.
pub open spec fn bold(s: Seq<char>) -> Seq<char> {
    "\u{1b}[1m"@ + s + "\u{1b}[0m"@
}

/// owo-colors' `red()`: the text between `ESC[31m` and `ESC[39m`.
pub open spec fn red(s: Seq<char>) -> Seq<char> {
    "\u{1b}[31m"@ + s + "\u{1b}[39m"@
}

/// owo-colors' `yellow()`: the text between `ESC[33m` and `ESC[39m`.
pub open spec fn yellow(s: Seq<char>) -> Seq<char> {
    "\u{1b}[33m"@ + s + "\u{1b}[39m"@
}

/// owo-colors' `green()`: the text between `ESC[32m` and `ESC[39m`.
pub open spec fn green(s: Seq<char>) -> Seq<char> {
    "\u{1b}[32m"@ + s + "\u{1b}[39m"@
}

/// `OwoColorize::bold` rendered with `Display`.
///
/// Trusted: owo-colors' `BoldDisplay` writes `"\x1b[1m"`, the text, then
/// `"\x1b[0m"` (its `impl_fmt_for_style!` table).
#[verifier::external_body]
fn paint_bold(s: &[char]) -> (r: Vec<char>)
    ensures
        r@ == bold(s@),
{
    let t: String = s.iter().collect();
    format!("{}", t.bold()).chars().collect()
}

/// `OwoColorize::red` rendered with `Display`.
///
/// Trusted: owo-colors' `FgColorDisplay<Red, _>` writes `Red::ANSI_FG`
/// (`"\x1b[31m"`), the text, then `"\x1b[39m"`.
#[verifier::external_body]
fn paint_red(s: &[char]) -> (r: Vec<char>)
    ensures
        r@ == red(s@),
{
    let t: String = s.iter().collect();
    format!("{}", t.red()).chars().collect()
}

/// `OwoColorize::yellow` rendered with `Display`.
///
/// Trusted: owo-colors' `FgColorDisplay<Yellow, _>` writes `"\x1b[33m"`, the
/// text, then `"\x1b[39m"`.
#[verifier::external_body]
fn paint_yellow(s: &[char]) -> (r: Vec<char>)
    ensures
        r@ == yellow(s@),
{
    let t: String = s.iter().collect();
    format!("{}", t.yellow()).chars().collect()
}

/// `OwoColorize::green` rendered with `Display`.
///
/// Trusted: owo-colors' `FgColorDisplay<Green, _>` writes `"\x1b[32m"`, the
/// text, then `"\x1b[39m"`.
#[verifier::external_body]
fn paint_green(s: &[char]) -> (r: Vec<char>)
    ensures
        r@ == green(s@),
{
    let t: String = s.iter().collect();
    format!("{}", t.green()).chars().collect()
}

/// `red().bold()` rendered with `Display`.
///
/// Trusted: the bold wrapper around the red wrapper: `"\x1b[1m"`, then the
/// red rendering, then `"\x1b[0m"`.
#[verifier::external_body]
fn paint_red_bold(s: &[char]) -> (r: Vec<char>)
    ensures
        r@ == bold(red(s@)),
{
    let t: String = s.iter().collect();
    format!("{}", t.red().bold()).chars().collect()
}

// ---------------------------------------------------------------------------
// Per-result issue listing

/// Issue `i` belongs to the (code, file) bucket.
pub open spec fn in_bucket(i: IssueView, code: Seq<char>, file: Seq<char>) -> bool {
    i.code == code && i.xml_file == file
}

/// Issues of `s` in the (code, file) bucket.
pub open spec fn key_count(s: Seq<IssueView>, code: Seq<char>, file: Seq<char>) -> nat
    decreases s.len(),
{
    if s.len() == 0 {
        0
    } else {
        key_count(s.drop_last(), code, file) + if in_bucket(s.last(), code, file) { 1nat } else { 0nat }
    }
}

/// Issue `i` of `s` is listed verbatim: no cap, or at most `max` issues of
/// its bucket up to and including it.
pub open spec fn shown(s: Seq<IssueView>, max: nat, i: int) -> bool {
    max == 0 || key_count(s.take(i + 1), s[i].code, s[i].xml_file) <= max
}

pub open spec fn tag(sev: Severity) -> Seq<char> {
    match sev {
        Severity::Error => "ERROR"@,
        Severity::Warning => "WARN "@,
    }
}

/// Red for errors, yellow for warnings, when colouring.
pub open spec fn paint_sev(sev: Severity, line: Seq<char>, color: bool) -> Seq<char> {
    if color {
        match sev {
            Severity::Error => red(line),
            Severity::Warning => yellow(line),
        }
    } else {
        line
    }
}

/// `  [TAG] [CODE] file:location message`
pub open spec fn issue_line(i: IssueView) -> Seq<char> {
    "  ["@ + tag(i.severity) + "] ["@ + i.code + "] "@ + i.xml_file + ":"@ + i.location + " "@
        + i.message
}

/// The verbatim lines of `s`, in order.
pub open spec fn issue_lines(s: Seq<IssueView>, max: nat, color: bool) -> Seq<char>
    decreases s.len(),
{
    if s.len() == 0 {
        Seq::empty()
    } else {
        issue_lines(s.drop_last(), max, color) + if shown(s, max, s.len() - 1) {
            paint_sev(s.last().severity, issue_line(s.last()), color) + "\n"@
        } else {
            Seq::empty()
        }
    }
}

/// A bucket with issues beyond the cap: how many, and the severity of the
/// first one not listed.
pub ghost struct Bucket {
    pub code: Seq<char>,
    pub file: Seq<char>,
    pub n: nat,
    pub sev: Severity,
}

pub open spec fn bucket_is(code: Seq<char>, file: Seq<char>) -> spec_fn(Bucket) -> bool {
    |b: Bucket| b.code == code && b.file == file
}

/// The over-cap buckets of `s`, in the order their first unlisted issue
/// occurs.
pub open spec fn suppressed(s: Seq<IssueView>, max: nat) -> Seq<Bucket>
    decreases s.len(),
{
    if s.len() == 0 {
        Seq::empty()
    } else {
        let prev = suppressed(s.drop_last(), max);
        let i = s.last();
        if max > 0 && key_count(s, i.code, i.xml_file) > max {
            match first_index(prev, bucket_is(i.code, i.xml_file)) {
                Some(j) => prev.update(j, Bucket { n: prev[j].n + 1, ..prev[j] }),
                None => prev.push(Bucket { code: i.code, file: i.xml_file, n: 1, sev: i.severity }),
            }
        } else {
            prev
        }
    }
}

/// Lexicographic order of character sequences (the order of `str`).
pub open spec fn seq_lt(a: Seq<char>, b: Seq<char>) -> bool
    decreases a.len(),
{
    if a.len() == 0 {
        b.len() > 0
    } else if b.len() == 0 {
        false
    } else if a[0] != b[0] {
        a[0] < b[0]
    } else {
        seq_lt(a.drop_first(), b.drop_first())
    }
}

/// Buckets ordered by (code, file).
pub open spec fn bucket_before(a: Bucket, b: Bucket) -> bool {
    seq_lt(a.code, b.code) || (a.code == b.code && seq_lt(a.file, b.file))
}

/// Index of the first bucket that no other bucket precedes.
pub open spec fn least_bucket(v: Seq<Bucket>) -> int
    decreases v.len(),
{
    if v.len() <= 1 {
        0
    } else {
        let j = least_bucket(v.drop_last());
        if bucket_before(v.last(), v[j]) {
            v.len() - 1
        } else {
            j
        }
    }
}

pub proof fn lemma_least_bucket_range(v: Seq<Bucket>)
    ensures
        v.len() > 0 ==> 0 <= least_bucket(v) < v.len(),
    decreases v.len(),
{
    if v.len() > 1 {
        lemma_least_bucket_range(v.drop_last());
    }
}

/// The buckets sorted by (code, file).
pub open spec fn sorted_buckets(v: Seq<Bucket>) -> Seq<Bucket>
    decreases v.len(),
{
    if v.len() == 0 {
        Seq::empty()
    } else {
        let j = least_bucket(v);
        proof {
            lemma_least_bucket_range(v);
        }
        seq![v[j]] + sorted_buckets(v.remove(j))
    }
}

/// `  [TAG  ] [CODE] file: ... and N more issue(s) with this code`
pub open spec fn bucket_line(b: Bucket) -> Seq<char> {
    "  ["@ + tag(b.sev) + "] ["@ + b.code + "] "@ + b.file + ": ... and "@ + decimal(b.n)
        + " more issue(s) with this code"@
}

pub open spec fn bucket_lines(v: Seq<Bucket>, color: bool) -> Seq<char>
    decreases v.len(),
{
    if v.len() == 0 {
        Seq::empty()
    } else {
        paint_sev(v[0].sev, bucket_line(v[0]), color) + "\n"@ + bucket_lines(v.drop_first(), color)
    }
}

proof fn lemma_key_count_bound(s: Seq<IssueView>, code: Seq<char>, file: Seq<char>)
    ensures
        key_count(s, code, file) <= s.len(),
        key_count(s, code, file) > 0 ==> exists|j: int| 0 <= j < s.len() && in_bucket(#[trigger] s[j], code, file),
    decreases s.len(),
{
    if s.len() > 0 {
        lemma_key_count_bound(s.drop_last(), code, file);
        if key_count(s.drop_last(), code, file) > 0 {
            let j = choose|j: int| 0 <= j < s.drop_last().len() && in_bucket(#[trigger] s.drop_last()[j], code, file);
            assert(s[j] == s.drop_last()[j]);
        }
        if in_bucket(s.last(), code, file) {
            assert(s[s.len() - 1] == s.last());
        }
    }
}

/// Issues seen so far in one bucket.
struct SeenEntry {
    code: Vec<char>,
    file: Vec<char>,
    count: usize,
}

/// A bucket with issues beyond the cap.
struct SupEntry {
    code: Vec<char>,
    file: Vec<char>,
    n: usize,
    sev: Severity,
}

spec fn sup_view(v: Seq<SupEntry>) -> Seq<Bucket> {
    v.map_values(|e: SupEntry| Bucket { code: e.code@, file: e.file@, n: e.n as nat, sev: e.sev })
}

/// The seen-counts agree with the prefix `p`: one entry per bucket present
/// in `p`, holding its count.
spec fn seen_ok(seen: Seq<SeenEntry>, p: Seq<IssueView>) -> bool {
    &&& forall|a: int| 0 <= a < seen.len() ==> (#[trigger] seen[a]).count == key_count(p, seen[a].code@, seen[a].file@)
    &&& forall|a: int, b: int| 0 <= a < b < seen.len() ==> !(#[trigger] seen[a].code@ == #[trigger] seen[b].code@ && seen[a].file@ == seen[b].file@)
    &&& forall|j: int| 0 <= j < p.len() ==> exists|a: int| 0 <= a < seen.len() && in_bucket(#[trigger] p[j], seen[a].code@, seen[a].file@)
}

fn push_tag(out: &mut Vec<char>, sev: Severity)
    ensures
        final(out)@ == old(out)@ + tag(sev),
{
    match sev {
        Severity::Error => push_str(out, "ERROR"),
        Severity::Warning => push_str(out, "WARN "),
    }
}

/// Append `line`, coloured by severity when asked, and a newline.
fn push_painted_line(out: &mut Vec<char>, sev: Severity, line: &[char], color: bool)
    ensures
        final(out)@ == old(out)@ + paint_sev(sev, line@, color) + "\n"@,
{
    if color {
        let painted = match sev {
            Severity::Error => paint_red(line),
            Severity::Warning => paint_yellow(line),
        };
        push_chars(out, painted.as_slice());
    } else {
        push_chars(out, line);
    }
    push_str(out, "\n");
}

/// Append the verbatim lines of `issues` and return the over-cap buckets.
#[verifier::rlimit(40)]
fn list_issues(out: &mut Vec<char>, issues: &Vec<Issue>, max: usize, color: bool) -> (sup: Vec<SupEntry>)
    ensures
        final(out)@ == old(out)@ + issue_lines(issues_view(issues@), max as nat, color),
        sup_view(sup@) == suppressed(issues_view(issues@), max as nat),
{
    let ghost all = issues_view(issues@);
    let ghost start = out@;
    let mut seen: Vec<SeenEntry> = Vec::new();
    let mut sup: Vec<SupEntry> = Vec::new();
    let mut i: usize = 0;
    assert(all.take(0) =~= Seq::<IssueView>::empty());
    assert(out@ =~= start + issue_lines(all.take(0), max as nat, color));
    assert(sup_view(sup@) =~= Seq::<Bucket>::empty());
    while i < issues.len()
        invariant
            i <= issues@.len(),
            all == issues_view(issues@),
            out@ == start + issue_lines(all.take(i as int), max as nat, color),
            sup_view(sup@) == suppressed(all.take(i as int), max as nat),
            seen_ok(seen@, all.take(i as int)),
            forall|a: int| 0 <= a < sup@.len() ==> (#[trigger] sup@[a]).n <= i,
        decreases issues@.len() - i,
    {
        let ghost p = all.take(i as int);
        let ghost q = all.take(i as int + 1);
        assert(q.drop_last() =~= p);
        assert(q.last() == issues@[i as int]@);
        let issue = &issues[i];
        let code = chars_of(issue.code);
        let file = chars_of(issue.xml_file.as_str());
        let ghost k = (code@, file@);
        // Count this issue in its bucket.
        let mut a: usize = 0;
        while a < seen.len()
            invariant
                a <= seen@.len(),
                forall|b: int| 0 <= b < a ==> !(#[trigger] seen@[b].code@ == code@ && seen@[b].file@ == file@),
            ensures
                a < seen@.len() ==> seen@[a as int].code@ == code@ && seen@[a as int].file@ == file@,
            decreases seen@.len() - a,
        {
            if chars_eq(seen[a].code.as_slice(), code.as_slice()) && chars_eq(seen[a].file.as_slice(), file.as_slice()) {
                break;
            }
            a += 1;
        }
        proof {
            lemma_key_count_bound(p, code@, file@);
            lemma_key_count_bound(q, code@, file@);
        }
        let count: usize;
        if a < seen.len() {
            assert(seen@[a as int].code@ == code@ && seen@[a as int].file@ == file@);
            let c = seen[a].count + 1;
            let entry = SeenEntry { code: crate::text::copy_chars(code.as_slice()), file: crate::text::copy_chars(file.as_slice()), count: c };
            let ghost old_seen = seen@;
            seen.set(a, entry);
            count = c;
            proof {
                assert forall|b: int| 0 <= b < seen@.len() implies (#[trigger] seen@[b]).count == key_count(q, seen@[b].code@, seen@[b].file@) by {
                    if b != a {
                        assert(old_seen[b].count == key_count(p, old_seen[b].code@, old_seen[b].file@));
                        if b < a {
                            assert(!(old_seen[b].code@ == code@ && old_seen[b].file@ == file@));
                        } else {
                            assert(!(old_seen[a as int].code@ == old_seen[b].code@ && old_seen[a as int].file@ == old_seen[b].file@));
                        }
                    }
                }
                assert forall|b1: int, b2: int| 0 <= b1 < b2 < seen@.len() implies !(#[trigger] seen@[b1].code@ == #[trigger] seen@[b2].code@ && seen@[b1].file@ == seen@[b2].file@) by {
                    assert(!(old_seen[b1].code@ == old_seen[b2].code@ && old_seen[b1].file@ == old_seen[b2].file@));
                }
                assert forall|j: int| 0 <= j < q.len() implies exists|c: int| 0 <= c < seen@.len() && in_bucket(#[trigger] q[j], seen@[c].code@, seen@[c].file@) by {
                    if j < p.len() {
                        assert(q[j] == p[j]);
                        let c = choose|c: int| 0 <= c < old_seen.len() && in_bucket(p[j], old_seen[c].code@, old_seen[c].file@);
                        assert(in_bucket(q[j], seen@[c].code@, seen@[c].file@));
                    } else {
                        assert(in_bucket(q[j], seen@[a as int].code@, seen@[a as int].file@));
                    }
                }
            }
        } else {
            assert(key_count(p, code@, file@) == 0) by {
                if key_count(p, code@, file@) > 0 {
                    let j = choose|j: int| 0 <= j < p.len() && in_bucket(#[trigger] p[j], code@, file@);
                    let c = choose|c: int| 0 <= c < seen@.len() && in_bucket(p[j], seen@[c].code@, seen@[c].file@);
                    assert(seen@[c].code@ == code@ && seen@[c].file@ == file@);
                }
            }
            let entry = SeenEntry { code: crate::text::copy_chars(code.as_slice()), file: crate::text::copy_chars(file.as_slice()), count: 1 };
            let ghost old_seen = seen@;
            seen.push(entry);
            count = 1;
            proof {
                assert forall|b: int| 0 <= b < seen@.len() implies (#[trigger] seen@[b]).count == key_count(q, seen@[b].code@, seen@[b].file@) by {
                    if b < old_seen.len() {
                        assert(old_seen[b].count == key_count(p, old_seen[b].code@, old_seen[b].file@));
                        assert(!(old_seen[b].code@ == code@ && old_seen[b].file@ == file@));
                    }
                }
                assert forall|b1: int, b2: int| 0 <= b1 < b2 < seen@.len() implies !(#[trigger] seen@[b1].code@ == #[trigger] seen@[b2].code@ && seen@[b1].file@ == seen@[b2].file@) by {
                    if b2 < old_seen.len() {
                        assert(!(old_seen[b1].code@ == old_seen[b2].code@ && old_seen[b1].file@ == old_seen[b2].file@));
                    } else {
                        assert(!(old_seen[b1].code@ == code@ && old_seen[b1].file@ == file@));
                    }
                }
                assert forall|j: int| 0 <= j < q.len() implies exists|c: int| 0 <= c < seen@.len() && in_bucket(#[trigger] q[j], seen@[c].code@, seen@[c].file@) by {
                    if j < p.len() {
                        assert(q[j] == p[j]);
                        let c = choose|c: int| 0 <= c < old_seen.len() && in_bucket(p[j], old_seen[c].code@, old_seen[c].file@);
                        assert(in_bucket(q[j], seen@[c].code@, seen@[c].file@));
                    } else {
                        assert(in_bucket(q[j], seen@[old_seen.len() as int].code@, seen@[old_seen.len() as int].file@));
                    }
                }
            }
        }
        assert(count == key_count(q, code@, file@));
        assert(q.take(i as int + 1) =~= q);
        assert(q[i as int] == issues@[i as int]@);
        assert(q[i as int].code == code@ && q[i as int].xml_file == file@);
        assert(shown(q, max as nat, i as int) == (max == 0 || count <= max));
        if max > 0 && count > max {
            // Over the cap: counted in its bucket.
            let mut b: usize = 0;
            while b < sup.len()
                invariant
                    b <= sup@.len(),
                    forall|c: int| 0 <= c < b ==> !bucket_is(code@, file@)(#[trigger] sup_view(sup@)[c]),
                ensures
                    b < sup@.len() ==> bucket_is(code@, file@)(sup_view(sup@)[b as int]),
                decreases sup@.len() - b,
            {
                assert(sup_view(sup@)[b as int].code == sup@[b as int].code@);
                assert(sup_view(sup@)[b as int].file == sup@[b as int].file@);
                if chars_eq(sup[b].code.as_slice(), code.as_slice()) && chars_eq(sup[b].file.as_slice(), file.as_slice()) {
                    break;
                }
                b += 1;
            }
            let ghost old_sup = sup@;
            if b < sup.len() {
                proof {
                    lemma_first_index(sup_view(sup@), bucket_is(code@, file@), b as int);
                }
                let e = SupEntry { code: crate::text::copy_chars(sup[b].code.as_slice()), file: crate::text::copy_chars(sup[b].file.as_slice()), n: sup[b].n + 1, sev: sup[b].sev };
                sup.set(b, e);
                assert(sup_view(sup@) =~= sup_view(old_sup).update(b as int, Bucket { n: sup_view(old_sup)[b as int].n + 1, ..sup_view(old_sup)[b as int] }));
            } else {
                proof {
                    lemma_first_index(sup_view(sup@), bucket_is(code@, file@), b as int);
                }
                let e = SupEntry { code: crate::text::copy_chars(code.as_slice()), file: crate::text::copy_chars(file.as_slice()), n: 1, sev: issue.severity };
                sup.push(e);
                assert(sup_view(sup@) =~= sup_view(old_sup).push(Bucket { code: code@, file: file@, n: 1, sev: issue.severity }));
            }
            assert(out@ =~= start + issue_lines(q, max as nat, color));
        } else {
            let mut line = chars_of("  [");
            push_tag(&mut line, issue.severity);
            push_str(&mut line, "] [");
            push_chars(&mut line, code.as_slice());
            push_str(&mut line, "] ");
            push_chars(&mut line, file.as_slice());
            push_str(&mut line, ":");
            push_str(&mut line, issue.location.as_str());
            push_str(&mut line, " ");
            push_str(&mut line, issue.message.as_str());
            assert(line@ =~= issue_line(issues@[i as int]@));
            push_painted_line(out, issue.severity, line.as_slice(), color);
            assert(out@ =~= start + issue_lines(q, max as nat, color));
        }
        i += 1;
    }
    assert(all.take(issues@.len() as int) =~= all);
    sup
}

/// `seq_lt` on character slices.
fn chars_lt(a: &[char], b: &[char]) -> (r: bool)
    ensures
        r == seq_lt(a@, b@),
{
    let mut i: usize = 0;
    assert(a@.skip(0) =~= a@);
    assert(b@.skip(0) =~= b@);
    while i < a.len() && i < b.len() && a[i] == b[i]
        invariant
            i <= a@.len(),
            i <= b@.len(),
            seq_lt(a@, b@) == seq_lt(a@.skip(i as int), b@.skip(i as int)),
        decreases a@.len() - i,
    {
        assert(a@.skip(i as int).drop_first() =~= a@.skip(i as int + 1));
        assert(b@.skip(i as int).drop_first() =~= b@.skip(i as int + 1));
        assert(a@.skip(i as int)[0] == a@[i as int]);
        assert(b@.skip(i as int)[0] == b@[i as int]);
        i += 1;
    }
    if i < a.len() && i < b.len() {
        assert(a@.skip(i as int)[0] == a@[i as int]);
        assert(b@.skip(i as int)[0] == b@[i as int]);
        a[i] < b[i]
    } else {
        i == a.len() && i < b.len()
    }
}

fn sup_before(x: &SupEntry, y: &SupEntry) -> (r: bool)
    ensures
        r == bucket_before(
            Bucket { code: x.code@, file: x.file@, n: x.n as nat, sev: x.sev },
            Bucket { code: y.code@, file: y.file@, n: y.n as nat, sev: y.sev },
        ),
{
    chars_lt(x.code.as_slice(), y.code.as_slice()) || (chars_eq(x.code.as_slice(), y.code.as_slice())
        && chars_lt(x.file.as_slice(), y.file.as_slice()))
}

/// Append the summary lines of the over-cap buckets, sorted by (code, file).
fn push_bucket_lines(out: &mut Vec<char>, sup: Vec<SupEntry>, color: bool)
    ensures
        final(out)@ == old(out)@ + bucket_lines(sorted_buckets(sup_view(sup@)), color),
{
    let ghost start = out@;
    let ghost all = sup_view(sup@);
    let mut rest = sup;
    while rest.len() > 0
        invariant
            out@ + bucket_lines(sorted_buckets(sup_view(rest@)), color) == start + bucket_lines(sorted_buckets(all), color),
        decreases rest@.len(),
    {
        let ghost v = sup_view(rest@);
        let mut best: usize = 0;
        let mut j: usize = 1;
        assert(v.take(1).len() == 1);
        while j < rest.len()
            invariant
                1 <= j <= rest@.len(),
                v == sup_view(rest@),
                best < j,
                best == least_bucket(v.take(j as int)),
            decreases rest@.len() - j,
        {
            assert(v.take(j as int + 1).drop_last() =~= v.take(j as int));
            assert(v.take(j as int + 1).last() == v[j as int]);
            assert(v.take(j as int + 1)[best as int] == v[best as int]);
            assert(v[j as int] == (Bucket { code: rest@[j as int].code@, file: rest@[j as int].file@, n: rest@[j as int].n as nat, sev: rest@[j as int].sev }));
            assert(v[best as int] == (Bucket { code: rest@[best as int].code@, file: rest@[best as int].file@, n: rest@[best as int].n as nat, sev: rest@[best as int].sev }));
            if sup_before(&rest[j], &rest[best]) {
                best = j;
            }
            j += 1;
        }
        assert(v.take(rest@.len() as int) =~= v);
        let ghost before_rest = rest@;
        let e = rest.remove(best);
        let ghost b = v[best as int];
        assert(sup_view(rest@) =~= v.remove(best as int));
        let ghost sorted = sorted_buckets(v);
        assert(sorted == seq![b] + sorted_buckets(v.remove(best as int)));
        assert(sorted[0] == b);
        assert(sorted.drop_first() =~= sorted_buckets(v.remove(best as int)));
        let mut line = chars_of("  [");
        push_tag(&mut line, e.sev);
        push_str(&mut line, "] [");
        push_chars(&mut line, e.code.as_slice());
        push_str(&mut line, "] ");
        push_chars(&mut line, e.file.as_slice());
        push_str(&mut line, ": ... and ");
        push_decimal(&mut line, e.n as u64);
        push_str(&mut line, " more issue(s) with this code");
        assert(line@ =~= bucket_line(b));
        let ghost o = out@;
        push_painted_line(out, e.sev, line.as_slice(), color);
        assert(out@ + bucket_lines(sorted_buckets(sup_view(rest@)), color) =~= o + bucket_lines(sorted, color));
    }
    assert(sup_view(rest@) =~= Seq::<Bucket>::empty());
}

// ---------------------------------------------------------------------------
// Issue-code tally

/// Errors and warnings of one code.
pub ghost struct Tally {
    pub code: Seq<char>,
    pub e: nat,
    pub w: nat,
}

pub open spec fn tally_is(code: Seq<char>) -> spec_fn(Tally) -> bool {
    |t: Tally| t.code == code
}

/// `t` with one more issue of severity `sev`.
pub open spec fn bump(t: Tally, sev: Severity) -> Tally {
    match sev {
        Severity::Error => Tally { e: t.e + 1, ..t },
        Severity::Warning => Tally { w: t.w + 1, ..t },
    }
}

/// Per-code counts of `s`, codes in order of first appearance.
pub open spec fn tally(s: Seq<IssueView>) -> Seq<Tally>
    decreases s.len(),
{
    if s.len() == 0 {
        Seq::empty()
    } else {
        let prev = tally(s.drop_last());
        let i = s.last();
        match first_index(prev, tally_is(i.code)) {
            Some(j) => prev.update(j, bump(prev[j], i.severity)),
            None => prev.push(bump(Tally { code: i.code, e: 0, w: 0 }, i.severity)),
        }
    }
}

/// Every issue of every result, in order.
pub open spec fn all_issues(rs: Seq<ResultView>) -> Seq<IssueView>
    decreases rs.len(),
{
    if rs.len() == 0 {
        Seq::empty()
    } else {
        all_issues(rs.drop_last()) + rs.last().issues
    }
}

/// More issues first; equal totals by code.
pub open spec fn tally_before(a: Tally, b: Tally) -> bool {
    a.e + a.w > b.e + b.w || (a.e + a.w == b.e + b.w && seq_lt(a.code, b.code))
}

/// Index of the first tally no other precedes.
pub open spec fn best_tally(v: Seq<Tally>) -> int
    decreases v.len(),
{
    if v.len() <= 1 {
        0
    } else {
        let j = best_tally(v.drop_last());
        if tally_before(v.last(), v[j]) {
            v.len() - 1
        } else {
            j
        }
    }
}

pub proof fn lemma_best_tally_range(v: Seq<Tally>)
    ensures
        v.len() > 0 ==> 0 <= best_tally(v) < v.len(),
    decreases v.len(),
{
    if v.len() > 1 {
        lemma_best_tally_range(v.drop_last());
    }
}

/// Tallies sorted by total descending, then code ascending.
pub open spec fn sorted_tally(v: Seq<Tally>) -> Seq<Tally>
    decreases v.len(),
{
    if v.len() == 0 {
        Seq::empty()
    } else {
        let j = best_tally(v);
        proof {
            lemma_best_tally_range(v);
        }
        seq![v[j]] + sorted_tally(v.remove(j))
    }
}

/// `format!("{:<w}", s)`: `s` padded with spaces to `w` characters.
pub open spec fn pad_right(s: Seq<char>, w: nat) -> Seq<char> {
    if s.len() < w {
        s + Seq::new((w - s.len()) as nat, |i: int| ' ')
    } else {
        s
    }
}

/// `  CODE(padded to 36) errors=E(padded to 6) warnings=W`
pub open spec fn tally_line(t: Tally) -> Seq<char> {
    "  "@ + pad_right(t.code, 36) + " errors="@ + pad_right(decimal(t.e), 6) + " warnings="@ + decimal(t.w)
}

pub open spec fn tally_lines(v: Seq<Tally>) -> Seq<char>
    decreases v.len(),
{
    if v.len() == 0 {
        Seq::empty()
    } else {
        tally_line(v[0]) + "\n"@ + tally_lines(v.drop_first())
    }
}

/// The top-10 code summary across all results (nothing without issues).
pub open spec fn top_codes_text(rs: Seq<ResultView>) -> Seq<char> {
    let t = sorted_tally(tally(all_issues(rs)));
    if t.len() == 0 {
        Seq::empty()
    } else {
        "\nTop issue codes:\n"@ + tally_lines(t.take(if t.len() < 10 { t.len() as int } else { 10 }))
    }
}

struct TallyEntry {
    code: Vec<char>,
    e: usize,
    w: usize,
}

spec fn tally_view(v: Seq<TallyEntry>) -> Seq<Tally> {
    v.map_values(|t: TallyEntry| Tally { code: t.code@, e: t.e as nat, w: t.w as nat })
}

proof fn lemma_tally_bound(s: Seq<IssueView>)
    ensures
        forall|j: int| 0 <= j < tally(s).len() ==> (#[trigger] tally(s)[j]).e + tally(s)[j].w <= s.len(),
    decreases s.len(),
{
    if s.len() > 0 {
        lemma_tally_bound(s.drop_last());
        let prev = tally(s.drop_last());
        let i = s.last();
        crate::seqs::lemma_first_index_props(prev, tally_is(i.code));
        assert forall|j: int| 0 <= j < tally(s).len() implies (#[trigger] tally(s)[j]).e + tally(s)[j].w <= s.len() by {
            match first_index(prev, tally_is(i.code)) {
                Some(m) => {
                    if j != m {
                        assert(tally(s)[j] == prev[j]);
                    }
                },
                None => {
                    if j < prev.len() {
                        assert(tally(s)[j] == prev[j]);
                    }
                },
            }
        }
    }
}

proof fn lemma_all_issues_prefix(rs: Seq<ResultView>, r: int)
    requires
        0 <= r < rs.len(),
    ensures
        all_issues(rs.take(r + 1)) == all_issues(rs.take(r)) + rs[r].issues,
        all_issues(rs.take(r + 1)).len() <= all_issues(rs).len(),
    decreases rs.len() - r,
{
    assert(rs.take(r + 1).drop_last() =~= rs.take(r));
    assert(rs.take(r + 1).last() == rs[r]);
    if r + 1 < rs.len() {
        lemma_all_issues_prefix(rs, r + 1);
    } else {
        assert(rs.take(r + 1) =~= rs);
    }
}

/// Per-code counts over all results.
fn tally_codes(results: &Vec<MbzResult>) -> (t: Vec<TallyEntry>)
    requires
        all_issues(results_view(results@)).len() <= usize::MAX,
    ensures
        tally_view(t@) == tally(all_issues(results_view(results@))),
{
    let ghost rs = results_view(results@);
    let mut t: Vec<TallyEntry> = Vec::new();
    let mut r: usize = 0;
    assert(rs.take(0) =~= Seq::<ResultView>::empty());
    assert(tally_view(t@) =~= tally(all_issues(rs.take(0))));
    while r < results.len()
        invariant
            r <= results@.len(),
            rs == results_view(results@),
            all_issues(rs).len() <= usize::MAX,
            tally_view(t@) == tally(all_issues(rs.take(r as int))),
        decreases results@.len() - r,
    {
        proof {
            lemma_all_issues_prefix(rs, r as int);
        }
        let ghost base = all_issues(rs.take(r as int));
        let issues = &results[r].issues;
        let ghost iv = issues_view(issues@);
        assert(rs[r as int].issues == iv);
        let mut i: usize = 0;
        assert(base + iv.take(0) =~= base);
        while i < issues.len()
            invariant
                i <= issues@.len(),
                iv == issues_view(issues@),
                (base + iv).len() <= usize::MAX,
                tally_view(t@) == tally(base + iv.take(i as int)),
            decreases issues@.len() - i,
        {
            let ghost p = base + iv.take(i as int);
            let ghost q = base + iv.take(i as int + 1);
            assert(q.drop_last() =~= p);
            assert(q.last() == issues@[i as int]@);
            proof {
                lemma_tally_bound(p);
            }
            let code = chars_of(issues[i].code);
            let sev = issues[i].severity;
            let mut a: usize = 0;
            while a < t.len()
                invariant
                    a <= t@.len(),
                    forall|c: int| 0 <= c < a ==> !tally_is(code@)(#[trigger] tally_view(t@)[c]),
                ensures
                    a < t@.len() ==> tally_is(code@)(tally_view(t@)[a as int]),
                decreases t@.len() - a,
            {
                assert(tally_view(t@)[a as int].code == t@[a as int].code@);
                if chars_eq(t[a].code.as_slice(), code.as_slice()) {
                    break;
                }
                a += 1;
            }
            proof {
                lemma_first_index(tally_view(t@), tally_is(code@), a as int);
            }
            let ghost old_t = tally_view(t@);
            if a < t.len() {
                assert(old_t[a as int].e + old_t[a as int].w <= p.len());
                let (e, w) = match sev {
                    Severity::Error => (t[a].e + 1, t[a].w),
                    Severity::Warning => (t[a].e, t[a].w + 1),
                };
                let entry = TallyEntry { code: crate::text::copy_chars(t[a].code.as_slice()), e, w };
                t.set(a, entry);
                assert(tally_view(t@) =~= old_t.update(a as int, bump(old_t[a as int], sev)));
            } else {
                let (e, w): (usize, usize) = match sev {
                    Severity::Error => (1, 0),
                    Severity::Warning => (0, 1),
                };
                t.push(TallyEntry { code, e, w });
                assert(tally_view(t@) =~= old_t.push(bump(Tally { code: code@, e: 0, w: 0 }, sev)));
            }
            i += 1;
        }
        assert(iv.take(issues@.len() as int) =~= iv);
        r += 1;
    }
    assert(rs.take(results@.len() as int) =~= rs);
    t
}

fn tally_entry_before(x: &TallyEntry, y: &TallyEntry) -> (r: bool)
    ensures
        r == tally_before(
            Tally { code: x.code@, e: x.e as nat, w: x.w as nat },
            Tally { code: y.code@, e: y.e as nat, w: y.w as nat },
        ),
{
    let tx = (x.e as u128) + (x.w as u128);
    let ty = (y.e as u128) + (y.w as u128);
    tx > ty || (tx == ty && chars_lt(x.code.as_slice(), y.code.as_slice()))
}

/// `s` padded with spaces to `w` characters.
fn push_padded(out: &mut Vec<char>, s: &[char], w: usize)
    ensures
        final(out)@ == old(out)@ + pad_right(s@, w as nat),
{
    let ghost start = out@;
    push_chars(out, s);
    if s.len() < w {
        let mut k: usize = s.len();
        while k < w
            invariant
                s@.len() <= k <= w,
                out@ == start + s@ + Seq::new((k - s@.len()) as nat, |i: int| ' '),
            decreases w - k,
        {
            out.push(' ');
            k += 1;
            assert(out@ =~= start + s@ + Seq::new((k - s@.len()) as nat, |i: int| ' '));
        }
    } else {
        assert(out@ =~= start + pad_right(s@, w as nat));
    }
}

/// Append the top-10 code summary.
#[verifier::rlimit(40)]
fn push_top_codes(out: &mut Vec<char>, results: &Vec<MbzResult>)
    requires
        all_issues(results_view(results@)).len() <= usize::MAX,
    ensures
        final(out)@ == old(out)@ + top_codes_text(results_view(results@)),
{
    let ghost start = out@;
    let mut rest = tally_codes(results);
    let ghost all = tally_view(rest@);
    let ghost sorted = sorted_tally(all);
    if rest.len() == 0 {
        assert(all =~= Seq::<Tally>::empty());
        assert(out@ =~= start + top_codes_text(results_view(results@)));
        return;
    }
    proof {
        lemma_sorted_tally_len(all);
    }
    push_str(out, "\nTop issue codes:\n");
    let ghost head = out@;
    let shown: usize = if rest.len() < 10 { rest.len() } else { 10 };
    let mut k: usize = 0;
    assert(sorted.take(0) =~= Seq::<Tally>::empty());
    while k < shown
        invariant
            k <= shown,
            shown == (if all.len() < 10 { all.len() } else { 10 }),
            rest@.len() + k == all.len(),
            sorted == sorted_tally(all),
            sorted.len() == all.len(),
            sorted == sorted.take(k as int) + sorted_tally(tally_view(rest@)),
            out@ == head + tally_lines_prefix(sorted, k as int),
        decreases shown - k,
    {
        let ghost v = tally_view(rest@);
        let mut best: usize = 0;
        let mut j: usize = 1;
        assert(v.take(1).len() == 1);
        while j < rest.len()
            invariant
                1 <= j <= rest@.len(),
                v == tally_view(rest@),
                best < j,
                best == best_tally(v.take(j as int)),
            decreases rest@.len() - j,
        {
            assert(v.take(j as int + 1).drop_last() =~= v.take(j as int));
            assert(v.take(j as int + 1).last() == v[j as int]);
            assert(v.take(j as int + 1)[best as int] == v[best as int]);
            if tally_entry_before(&rest[j], &rest[best]) {
                best = j;
            }
            j += 1;
        }
        assert(v.take(rest@.len() as int) =~= v);
        let e = rest.remove(best);
        let ghost b = v[best as int];
        assert(tally_view(rest@) =~= v.remove(best as int));
        assert(sorted_tally(v) == seq![b] + sorted_tally(v.remove(best as int)));
        assert(sorted[k as int] == b) by {
            assert(sorted == sorted.take(k as int) + sorted_tally(v));
            assert((sorted.take(k as int) + sorted_tally(v))[k as int] == sorted_tally(v)[0]);
        }
        assert(sorted == sorted.take(k as int + 1) + sorted_tally(tally_view(rest@))) by {
            assert(sorted.take(k as int + 1) =~= sorted.take(k as int).push(b));
            assert(sorted_tally(v) =~= seq![b] + sorted_tally(tally_view(rest@)));
            assert(sorted.take(k as int) + sorted_tally(v) =~= sorted.take(k as int).push(b) + sorted_tally(tally_view(rest@)));
        }
        push_str(out, "  ");
        push_padded(out, e.code.as_slice(), 36);
        push_str(out, " errors=");
        let d = crate::text::decimal_of(e.e as u64);
        push_padded(out, d.as_slice(), 6);
        push_str(out, " warnings=");
        push_decimal(out, e.w as u64);
        push_str(out, "\n");
        proof {
            lemma_tally_lines_prefix_step(sorted, k as int);
        }
        assert(out@ =~= head + tally_lines_prefix(sorted, k as int + 1));
        k += 1;
    }
    proof {
        lemma_tally_lines_prefix_full(sorted.take(shown as int));
        assert(tally_lines_prefix(sorted, shown as int) == tally_lines_prefix(sorted.take(shown as int), shown as int)) by {
            lemma_tally_lines_prefix_take(sorted, shown as int);
        }
    }
    assert(out@ =~= start + top_codes_text(results_view(results@)));
}

/// The lines of the first `k` tallies of `v`.
spec fn tally_lines_prefix(v: Seq<Tally>, k: int) -> Seq<char>
    decreases k,
{
    if k <= 0 {
        Seq::empty()
    } else {
        tally_lines_prefix(v, k - 1) + tally_line(v[k - 1]) + "\n"@
    }
}

proof fn lemma_tally_lines_prefix_step(v: Seq<Tally>, k: int)
    requires
        0 <= k,
    ensures
        tally_lines_prefix(v, k + 1) == tally_lines_prefix(v, k) + tally_line(v[k]) + "\n"@,
{
}

proof fn lemma_tally_lines_prefix_take(v: Seq<Tally>, k: int)
    requires
        0 <= k <= v.len(),
    ensures
        tally_lines_prefix(v, k) == tally_lines_prefix(v.take(k), k),
    decreases k,
{
    if k > 0 {
        lemma_tally_lines_prefix_take(v, k - 1);
        lemma_tally_lines_prefix_take_any(v, k - 1, k);
        assert(v.take(k)[k - 1] == v[k - 1]);
    }
}

proof fn lemma_tally_lines_prefix_take_any(v: Seq<Tally>, k: int, n: int)
    requires
        0 <= k <= n <= v.len(),
    ensures
        tally_lines_prefix(v.take(n), k) == tally_lines_prefix(v.take(k), k),
    decreases k,
{
    if k > 0 {
        lemma_tally_lines_prefix_take_any(v, k - 1, n);
        lemma_tally_lines_prefix_take_any(v, k - 1, k);
        assert(v.take(n)[k - 1] == v[k - 1]);
        assert(v.take(k)[k - 1] == v[k - 1]);
    }
}

proof fn lemma_tally_lines_prefix_full(v: Seq<Tally>)
    ensures
        tally_lines_prefix(v, v.len() as int) == tally_lines(v),
    decreases v.len(),
{
    if v.len() > 0 {
        lemma_tally_lines_prefix_full(v.drop_first());
        lemma_tally_lines_shift(v, v.len() as int);
    }
}

/// Lines of the first `k` of `v` are the first line then lines of the
/// first `k - 1` of the rest.
proof fn lemma_tally_lines_shift(v: Seq<Tally>, k: int)
    requires
        1 <= k <= v.len(),
    ensures
        tally_lines_prefix(v, k) == tally_line(v[0]) + "\n"@ + tally_lines_prefix(v.drop_first(), k - 1),
    decreases k,
{
    if k > 1 {
        lemma_tally_lines_shift(v, k - 1);
        assert(v.drop_first()[k - 2] == v[k - 1]);
        assert(tally_lines_prefix(v, k) =~= tally_line(v[0]) + "\n"@ + tally_lines_prefix(v.drop_first(), k - 1));
    } else {
        assert(tally_lines_prefix(v, 0) =~= Seq::<char>::empty());
        assert(tally_lines_prefix(v, 1) =~= tally_line(v[0]) + "\n"@);
        assert(tally_lines_prefix(v.drop_first(), 0) =~= Seq::<char>::empty());
    }
}

proof fn lemma_sorted_tally_len(v: Seq<Tally>)
    ensures
        sorted_tally(v).len() == v.len(),
    decreases v.len(),
{
    if v.len() > 0 {
        lemma_best_tally_range(v);
        lemma_sorted_tally_len(v.remove(best_tally(v)));
    }
}

// ---------------------------------------------------------------------------
// The text report

pub open spec fn header_line(path: Seq<char>) -> Seq<char> {
    "== "@ + path + " =="@
}

/// `  scanned N XML file(s) — E error(s), W warning(s)`
pub open spec fn summary_line(r: ResultView) -> Seq<char> {
    "  scanned "@ + decimal(r.xml_count) + " XML file(s) \u{2014} "@ + decimal(
        count_sev(r.issues, Severity::Error),
    ) + " error(s), "@ + decimal(count_sev(r.issues, Severity::Warning)) + " warning(s)"@
}

/// One result's block: header, then the fatal error, or the summary and
/// (unless quiet) the capped issue listing and the over-cap summaries.
pub open spec fn result_text(r: ResultView, color: bool, quiet: bool, max: nat) -> Seq<char> {
    (if color { bold(header_line(r.path)) } else { header_line(r.path) }) + "\n"@ + match r.fatal {
        Some(f) => (if color { red("  FATAL: "@ + f) } else { "  FATAL: "@ + f }) + "\n"@,
        None => summary_line(r) + "\n"@ + if quiet {
            Seq::empty()
        } else {
            issue_lines(r.issues, max, color) + bucket_lines(sorted_buckets(suppressed(r.issues, max)), color)
        },
    }
}

pub open spec fn results_text(rs: Seq<ResultView>, color: bool, quiet: bool, max: nat) -> Seq<char>
    decreases rs.len(),
{
    if rs.len() == 0 {
        Seq::empty()
    } else {
        results_text(rs.drop_last(), color, quiet, max) + result_text(rs.last(), color, quiet, max)
    }
}

/// `\nTotal: N MBZ file(s) scanned, E error(s), W warning(s), F fatal`
pub open spec fn total_line(rs: Seq<ResultView>) -> Seq<char> {
    "\nTotal: "@ + decimal(rs.len()) + " MBZ file(s) scanned, "@ + decimal(total_sev(rs, Severity::Error))
        + " error(s), "@ + decimal(total_sev(rs, Severity::Warning)) + " warning(s), "@ + decimal(
        fatal_total(rs),
    ) + " fatal"@
}

/// The total line: red and bold with errors or fatal results, yellow with
/// warnings only, green otherwise (when colouring).
pub open spec fn totals_text(rs: Seq<ResultView>, color: bool) -> Seq<char> {
    let line = total_line(rs);
    (if color && (total_sev(rs, Severity::Error) > 0 || fatal_total(rs) > 0) {
        bold(red(line))
    } else if color && total_sev(rs, Severity::Warning) > 0 {
        yellow(line)
    } else if color {
        green(line)
    } else {
        line
    }) + "\n"@
}

/// The whole text report.
pub open spec fn report_text(rs: Seq<ResultView>, color: bool, quiet: bool, max: nat) -> Seq<char> {
    results_text(rs, color, quiet, max) + totals_text(rs, color) + top_codes_text(rs)
}

proof fn lemma_total_sev_bound(rs: Seq<ResultView>, sev: Severity)
    ensures
        total_sev(rs, sev) <= all_issues(rs).len(),
    decreases rs.len(),
{
    if rs.len() > 0 {
        lemma_total_sev_bound(rs.drop_last(), sev);
        lemma_count_sev_bound(rs.last().issues, sev);
    }
}

/// Append `line`, bold when asked, and a newline.
fn push_header(out: &mut Vec<char>, path: &str, color: bool)
    ensures
        final(out)@ == old(out)@ + (if color { bold(header_line(path@)) } else { header_line(path@) }) + "\n"@,
{
    let mut line = chars_of("== ");
    push_str(&mut line, path);
    push_str(&mut line, " ==");
    if color {
        let b = paint_bold(line.as_slice());
        push_chars(out, b.as_slice());
    } else {
        push_chars(out, line.as_slice());
    }
    push_str(out, "\n");
}

#[verifier::rlimit(50)]
fn push_result(out: &mut Vec<char>, r: &MbzResult, color: bool, quiet: bool, max: usize)
    ensures
        final(out)@ == old(out)@ + result_text(r@, color, quiet, max as nat),
{
    let ghost start = out@;
    push_header(out, r.path.as_str(), color);
    let ghost after_header = out@;
    match &r.fatal {
        Some(f) => {
            let mut line = chars_of("  FATAL: ");
            push_str(&mut line, f.as_str());
            if color {
                let p = paint_red(line.as_slice());
                push_chars(out, p.as_slice());
            } else {
                push_chars(out, line.as_slice());
            }
            push_str(out, "\n");
            assert(out@ =~= start + result_text(r@, color, quiet, max as nat));
        },
        None => {
            let errors = r.errors();
            let warnings = r.warnings();
            push_str(out, "  scanned ");
            push_decimal(out, r.xml_count as u64);
            push_str(out, " XML file(s) \u{2014} ");
            push_decimal(out, errors as u64);
            push_str(out, " error(s), ");
            push_decimal(out, warnings as u64);
            push_str(out, " warning(s)");
            push_str(out, "\n");
            assert(out@ =~= after_header + summary_line(r@) + "\n"@);
            if !quiet {
                let ghost mid = out@;
                let sup = list_issues(out, &r.issues, max, color);
                push_bucket_lines(out, sup, color);
                assert(out@ =~= mid + (issue_lines(r@.issues, max as nat, color) + bucket_lines(sorted_buckets(suppressed(r@.issues, max as nat)), color)));
            }
            assert(out@ =~= start + result_text(r@, color, quiet, max as nat));
        },
    }
}

impl Report {
    /// The text report: per result a header, the fatal error or a summary
    /// line and (unless `quiet`) the issues, at most `max_issues_per_code`
    /// verbatim per (code, file) bucket (0: no cap) followed by one line per
    /// capped bucket in (code, file) order; then the totals and the ten most
    /// frequent codes. `color` adds ANSI colours.
    ///
    /// The number of issues over all results must fit in a `usize`.
    pub fn print_text(&self, color: bool, quiet: bool, max_issues_per_code: usize) -> (text: String)
        requires
            all_issues(results_view(self.results@)).len() <= usize::MAX,
        ensures
            text@ == report_text(results_view(self.results@), color, quiet, max_issues_per_code as nat),
    {
        let ghost rs = results_view(self.results@);
        let mut out: Vec<char> = Vec::new();
        let mut i: usize = 0;
        assert(rs.take(0) =~= Seq::<ResultView>::empty());
        assert(out@ =~= results_text(rs.take(0), color, quiet, max_issues_per_code as nat));
        while i < self.results.len()
            invariant
                i <= self.results@.len(),
                rs == results_view(self.results@),
                out@ == results_text(rs.take(i as int), color, quiet, max_issues_per_code as nat),
            decreases self.results@.len() - i,
        {
            assert(rs.take(i as int + 1).drop_last() =~= rs.take(i as int));
            assert(rs.take(i as int + 1).last() == self.results@[i as int]@);
            push_result(&mut out, &self.results[i], color, quiet, max_issues_per_code);
            i += 1;
        }
        assert(rs.take(self.results@.len() as int) =~= rs);
        proof {
            lemma_total_sev_bound(rs, Severity::Error);
            lemma_total_sev_bound(rs, Severity::Warning);
        }
        let total_e = self.total_errors();
        let total_w = self.total_warnings();
        let total_f = self.fatal_count();
        let n = self.results.len();
        let mut line = chars_of("\nTotal: ");
        push_decimal(&mut line, n as u64);
        push_str(&mut line, " MBZ file(s) scanned, ");
        push_decimal(&mut line, total_e as u64);
        push_str(&mut line, " error(s), ");
        push_decimal(&mut line, total_w as u64);
        push_str(&mut line, " warning(s), ");
        push_decimal(&mut line, total_f as u64);
        push_str(&mut line, " fatal");
        assert(line@ =~= total_line(rs));
        if color && (total_e > 0 || total_f > 0) {
            let p = paint_red_bold(line.as_slice());
            push_chars(&mut out, p.as_slice());
        } else if color && total_w > 0 {
            let p = paint_yellow(line.as_slice());
            push_chars(&mut out, p.as_slice());
        } else if color {
            let p = paint_green(line.as_slice());
            push_chars(&mut out, p.as_slice());
        } else {
            push_chars(&mut out, line.as_slice());
        }
        push_str(&mut out, "\n");
        let ghost before_top = out@;
        assert(out@ =~= results_text(rs, color, quiet, max_issues_per_code as nat) + totals_text(rs, color));
        push_top_codes(&mut out, &self.results);
        assert(out@ =~= report_text(rs, color, quiet, max_issues_per_code as nat));
        string_of(out.as_slice())
    }
}

// ---------------------------------------------------------------------------
// Rule ids

/// Strictly increasing in `str` order.
pub open spec fn strictly_sorted(v: Seq<Seq<char>>) -> bool {
    forall|a: int, b: int| 0 <= a < b < v.len() ==> seq_lt(#[trigger] v[a], #[trigger] v[b])
}

/// The rule ids of a result: its issue codes, plus the archive-fatal id
/// when the scan stopped on a fatal error.
pub open spec fn rule_ids(r: ResultView) -> Set<Seq<char>> {
    let codes = Set::new(|c: Seq<char>| exists|i: int| 0 <= i < r.issues.len() && r.issues[i].code == c);
    if r.fatal is Some {
        codes.insert(crate::validate::codes::ARCHIVE_FATAL@)
    } else {
        codes
    }
}

proof fn lemma_seq_lt_trans(a: Seq<char>, b: Seq<char>, c: Seq<char>)
    requires
        seq_lt(a, b),
        seq_lt(b, c),
    ensures
        seq_lt(a, c),
    decreases a.len(),
{
    if a.len() > 0 && b.len() > 0 && c.len() > 0 && a[0] == b[0] && b[0] == c[0] {
        lemma_seq_lt_trans(a.drop_first(), b.drop_first(), c.drop_first());
    }
}

proof fn lemma_seq_lt_total(a: Seq<char>, b: Seq<char>)
    ensures
        a == b || seq_lt(a, b) || seq_lt(b, a),
    decreases a.len(),
{
    if a.len() > 0 && b.len() > 0 && a[0] == b[0] {
        lemma_seq_lt_total(a.drop_first(), b.drop_first());
        if a.drop_first() == b.drop_first() {
            assert(a =~= seq![a[0]] + a.drop_first());
            assert(b =~= seq![b[0]] + b.drop_first());
        }
    } else if a.len() == 0 && b.len() == 0 {
        assert(a =~= b);
    }
}

/// Insert `code` into the strictly sorted `ids` unless present.
fn insert_sorted(ids: &mut Vec<&'static str>, code: &'static str)
    requires
        strictly_sorted(old(ids)@.map_values(|c: &'static str| c@)),
    ensures
        strictly_sorted(final(ids)@.map_values(|c: &'static str| c@)),
        final(ids)@.map_values(|c: &'static str| c@).to_set() == old(ids)@.map_values(|c: &'static str| c@).to_set().insert(code@),
{
    let ghost v = ids@.map_values(|c: &'static str| c@);
    let k = chars_of(code);
    let mut i: usize = 0;
    while i < ids.len()
        invariant
            i <= ids@.len(),
            v == ids@.map_values(|c: &'static str| c@),
            k@ == code@,
            forall|j: int| 0 <= j < i ==> seq_lt(#[trigger] v[j], code@),
        ensures
            i < ids@.len() ==> !seq_lt(v[i as int], code@),
        decreases ids@.len() - i,
    {
        let c = chars_of(ids[i]);
        assert(v[i as int] == c@);
        if !chars_lt(c.as_slice(), k.as_slice()) {
            break;
        }
        i += 1;
    }
    if i < ids.len() {
        let c = chars_of(ids[i]);
        if chars_eq(c.as_slice(), k.as_slice()) {
            assert(v.to_set() =~= v.to_set().insert(code@)) by {
                assert(v[i as int] == code@);
            }
            return;
        }
        proof {
            lemma_seq_lt_total(v[i as int], code@);
        }
    }
    assert(i < v.len() ==> seq_lt(code@, v[i as int]));
    ids.insert(i, code);
    let ghost w = ids@.map_values(|c: &'static str| c@);
    assert(w =~= v.insert(i as int, code@));
    proof {
        assert forall|a: int, b: int| 0 <= a < b < w.len() implies seq_lt(#[trigger] w[a], #[trigger] w[b]) by {
            if b < i {
                assert(w[a] == v[a] && w[b] == v[b]);
            } else if a < i && b == i {
                assert(w[a] == v[a]);
            } else if a < i && b > i {
                assert(w[a] == v[a] && w[b] == v[b - 1]);
                if b - 1 > i {
                    lemma_seq_lt_trans(code@, v[i as int], v[b - 1]);
                }
                lemma_seq_lt_trans(w[a], code@, w[b]);
            } else if a == i {
                assert(w[b] == v[b - 1]);
                if b - 1 > i {
                    lemma_seq_lt_trans(code@, v[i as int], v[b - 1]);
                }
            } else {
                assert(w[a] == v[a - 1] && w[b] == v[b - 1]);
            }
        }
        assert(w.to_set() =~= v.to_set().insert(code@)) by {
            assert forall|x: Seq<char>| w.to_set().contains(x) implies v.to_set().insert(code@).contains(x) by {
                let j = choose|j: int| 0 <= j < w.len() && w[j] == x;
                if j < i {
                    assert(v[j] == x);
                } else if j > i {
                    assert(v[j - 1] == x);
                }
            }
            assert forall|x: Seq<char>| v.to_set().insert(code@).contains(x) implies w.to_set().contains(x) by {
                if x == code@ {
                    assert(w[i as int] == x);
                } else {
                    let j = choose|j: int| 0 <= j < v.len() && v[j] == x;
                    if j < i {
                        assert(w[j] == x);
                    } else {
                        assert(w[j + 1] == x);
                    }
                }
            }
        }
    }
}

/// The result's rule ids in `str` order, each once.
pub fn collect_rule_ids(r: &MbzResult) -> (ids: Vec<&'static str>)
    ensures
        strictly_sorted(ids@.map_values(|c: &'static str| c@)),
        ids@.map_values(|c: &'static str| c@).to_set() == rule_ids(r@),
{
    let ghost iv = r@.issues;
    let mut ids: Vec<&'static str> = Vec::new();
    let mut i: usize = 0;
    assert(ids@.map_values(|c: &'static str| c@) =~= Seq::<Seq<char>>::empty());
    while i < r.issues.len()
        invariant
            i <= r.issues@.len(),
            iv == issues_view(r.issues@),
            strictly_sorted(ids@.map_values(|c: &'static str| c@)),
            ids@.map_values(|c: &'static str| c@).to_set() == Set::new(|c: Seq<char>| exists|j: int| 0 <= j < i && iv[j].code == c),
        decreases r.issues@.len() - i,
    {
        let ghost before = ids@.map_values(|c: &'static str| c@).to_set();
        insert_sorted(&mut ids, r.issues[i].code);
        assert(iv[i as int].code == r.issues@[i as int].code@);
        assert(ids@.map_values(|c: &'static str| c@).to_set() =~= Set::new(|c: Seq<char>| exists|j: int| 0 <= j < i + 1 && iv[j].code == c)) by {
            assert forall|c: Seq<char>| (exists|j: int| 0 <= j < i + 1 && iv[j].code == c) implies before.insert(iv[i as int].code).contains(c) by {
                let j = choose|j: int| 0 <= j < i + 1 && iv[j].code == c;
                if j < i {
                    assert(before.contains(c));
                }
            }
        }
        i += 1;
    }
    if r.fatal.is_some() {
        insert_sorted(&mut ids, crate::validate::codes::ARCHIVE_FATAL);
    }
    assert(ids@.map_values(|c: &'static str| c@).to_set() =~= rule_ids(r@));
    ids
}

// ---------------------------------------------------------------------------
// SARIF fields

/// The SARIF `level` of a severity.
pub fn sarif_level(sev: Severity) -> (r: &'static str)
    ensures
        r@ == (match sev {
            Severity::Error => "error"@,
            Severity::Warning => "warning"@,
        }),
{
    match sev {
        Severity::Error => "error",
        Severity::Warning => "warning",
    }
}

/// The SARIF fingerprint of an issue: `code|mbz path|xml file|location`.
pub fn sarif_fingerprint(mbz_path: &str, issue: &Issue) -> (r: String)
    ensures
        r@ == issue.code@ + "|"@ + mbz_path@ + "|"@ + issue.xml_file@ + "|"@ + issue.location@,
{
    let mut v = chars_of(issue.code);
    push_str(&mut v, "|");
    push_str(&mut v, mbz_path);
    push_str(&mut v, "|");
    push_str(&mut v, issue.xml_file.as_str());
    push_str(&mut v, "|");
    push_str(&mut v, issue.location.as_str());
    string_of(v.as_slice())
}

/// The SARIF fingerprint of a fatal result: `MBZ-ARCHIVE-FATAL:path`.
pub fn fatal_fingerprint(mbz_path: &str) -> (r: String)
    ensures
        r@ == crate::validate::codes::ARCHIVE_FATAL@ + ":"@ + mbz_path@,
{
    let mut v = chars_of(crate::validate::codes::ARCHIVE_FATAL);
    push_str(&mut v, ":");
    push_str(&mut v, mbz_path);
    string_of(v.as_slice())
}

// ---------------------------------------------------------------------------
// Laws

/// With a cap, the capped listing accounts for every issue: each over-cap
/// bucket counts exactly the issues of its (code, file) beyond the first
/// `max`, every (code, file) with more than `max` issues has such a bucket,
/// and no bucket appears twice.
pub proof fn law_cap_accounts_for_every_issue(s: Seq<IssueView>, max: nat)
    requires
        max > 0,
    ensures
        forall|j: int| 0 <= j < suppressed(s, max).len() ==> #[trigger] suppressed(s, max)[j].n + max
            == key_count(s, suppressed(s, max)[j].code, suppressed(s, max)[j].file),
        forall|c: Seq<char>, f: Seq<char>| #[trigger] key_count(s, c, f) > max ==> exists|j: int|
            0 <= j < suppressed(s, max).len() && suppressed(s, max)[j].code == c && suppressed(s, max)[j].file == f,
        forall|a: int, b: int| 0 <= a < b < suppressed(s, max).len() ==> !(#[trigger] suppressed(s, max)[a].code
            == #[trigger] suppressed(s, max)[b].code && suppressed(s, max)[a].file == suppressed(s, max)[b].file),
    decreases s.len(),
{
    if s.len() > 0 {
        let p = s.drop_last();
        law_cap_accounts_for_every_issue(p, max);
        let prev = suppressed(p, max);
        let cur = suppressed(s, max);
        let i = s.last();
        let c0 = i.code;
        let f0 = i.xml_file;
        crate::seqs::lemma_first_index_props(prev, bucket_is(c0, f0));
        assert forall|c: Seq<char>, f: Seq<char>| key_count(s, c, f) == key_count(p, c, f) + (if c == c0 && f == f0 { 1nat } else { 0nat }) by {}
        if key_count(s, c0, f0) > max {
            match first_index(prev, bucket_is(c0, f0)) {
                Some(m) => {
                    assert forall|j: int| 0 <= j < cur.len() implies #[trigger] cur[j].n + max == key_count(s, cur[j].code, cur[j].file) by {
                        if j != m {
                            assert(cur[j] == prev[j]);
                            assert(!(prev[m].code == prev[j].code && prev[m].file == prev[j].file));
                        }
                    }
                    assert forall|c: Seq<char>, f: Seq<char>| #[trigger] key_count(s, c, f) > max implies exists|j: int|
                        0 <= j < cur.len() && cur[j].code == c && cur[j].file == f by {
                        if c == c0 && f == f0 {
                            assert(cur[m].code == c && cur[m].file == f);
                        } else {
                            assert(key_count(p, c, f) > max);
                            let j = choose|j: int| 0 <= j < prev.len() && prev[j].code == c && prev[j].file == f;
                            assert(cur[j].code == c && cur[j].file == f);
                        }
                    }
                    assert forall|a: int, b: int| 0 <= a < b < cur.len() implies !(#[trigger] cur[a].code == #[trigger] cur[b].code && cur[a].file == cur[b].file) by {
                        assert(cur[a].code == prev[a].code && cur[a].file == prev[a].file);
                        assert(cur[b].code == prev[b].code && cur[b].file == prev[b].file);
                    }
                },
                None => {
                    if key_count(p, c0, f0) > max {
                        let j = choose|j: int| 0 <= j < prev.len() && prev[j].code == c0 && prev[j].file == f0;
                        assert(bucket_is(c0, f0)(prev[j]));
                    }
                    assert forall|j: int| 0 <= j < cur.len() implies #[trigger] cur[j].n + max == key_count(s, cur[j].code, cur[j].file) by {
                        if j < prev.len() {
                            assert(cur[j] == prev[j]);
                            assert(!bucket_is(c0, f0)(prev[j]));
                        }
                    }
                    assert forall|c: Seq<char>, f: Seq<char>| #[trigger] key_count(s, c, f) > max implies exists|j: int|
                        0 <= j < cur.len() && cur[j].code == c && cur[j].file == f by {
                        if c == c0 && f == f0 {
                            assert(cur[prev.len() as int].code == c && cur[prev.len() as int].file == f);
                        } else {
                            assert(key_count(p, c, f) > max);
                            let j = choose|j: int| 0 <= j < prev.len() && prev[j].code == c && prev[j].file == f;
                            assert(cur[j].code == c && cur[j].file == f);
                        }
                    }
                    assert forall|a: int, b: int| 0 <= a < b < cur.len() implies !(#[trigger] cur[a].code == #[trigger] cur[b].code && cur[a].file == cur[b].file) by {
                        if b < prev.len() {
                            assert(cur[a] == prev[a] && cur[b] == prev[b]);
                        } else {
                            assert(cur[a] == prev[a]);
                            assert(!bucket_is(c0, f0)(prev[a]));
                        }
                    }
                },
            }
        } else {
            assert(cur == prev);
            assert forall|j: int| 0 <= j < cur.len() implies #[trigger] cur[j].n + max == key_count(s, cur[j].code, cur[j].file) by {
                assert(prev[j].n + max == key_count(p, prev[j].code, prev[j].file));
                if prev[j].code == c0 && prev[j].file == f0 {
                    assert(key_count(p, c0, f0) > max);
                }
            }
            assert forall|c: Seq<char>, f: Seq<char>| #[trigger] key_count(s, c, f) > max implies exists|j: int|
                0 <= j < cur.len() && cur[j].code == c && cur[j].file == f by {
                assert(key_count(p, c, f) > max);
            }
        }
    }
}

} // verus!
