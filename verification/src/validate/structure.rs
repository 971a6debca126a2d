//! Walk a backup XML file, identify table-row elements, and validate the
//! values of their leaf-text child elements against the schema.
//!
//! - Backup XML is intentionally a SUBSET of the underlying DB row. Many
//!   columns are recomputed at restore time and never appear in the XML, so
//!   "is every NOT NULL field present?" is never checked. Only fields that
//!   ARE present are length/type-validated.
//!
//! - An element is treated as a table row only when both signals hold: its
//!   name matches a table in the schema, AND it carries an `id` attribute.
//!
//! - Judgement on a direct child of a row is deferred until its end tag: if
//!   the child contained nested elements it is a wrapper or a nested
//!   reference and is left alone. If it contained only text, its name is
//!   looked up in the row's fields and the field's constraint applied. If
//!   the name isn't a field, an "unknown leaf" warning is emitted, promoted
//!   to error under `strict`.

use vstd::prelude::*;
use crate::numparse::{f64_ok, f64_text_ok, i64_ok, i64_text_ok, index_of, index_of_exec};
use crate::text::{
    ascii_lower, ascii_lower_of, chars_eq_str, chars_of, copy_chars, debug_of, debug_quoted,
    decimal, push_chars, push_decimal, push_str, trim, trim_of,
};
use crate::transformer::NULL_SENTINEL;
use crate::validate::codes;
use crate::validate::{issue_view, issues_view, Issue, IssueView, Severity};
use crate::xml::{is_terminal, lemma_scan_finish, scan, scan_all, xml_event, XmlAttr, XmlCursor, XmlEvent};
use crate::xmldb_shared::{field_or_alias, table_index, Field, FieldType, Schema, SchemaKeys};

verus! {

/// Element names that are deliberately emitted under a row even though they
/// don't correspond to a column in that table's install.xml (back-compat
/// emissions, computed values, cross-table denormalisations), keyed by
/// (table name, element name), compared case-insensitively:
/// course: numsections, hiddensections, coursedisplay, completionstartonenrol;
/// role: nameincourse.
pub open spec fn known_cross_table(table: Seq<char>, leaf: Seq<char>) -> bool {
    let t = ascii_lower(table);
    let l = ascii_lower(leaf);
    ||| (t == "course"@ && l == "numsections"@)
    ||| (t == "course"@ && l == "hiddensections"@)
    ||| (t == "course"@ && l == "coursedisplay"@)
    ||| (t == "course"@ && l == "completionstartonenrol"@)
    ||| (t == "role"@ && l == "nameincourse"@)
}

fn is_known_cross_table(table: &[char], leaf: &[char]) -> (r: bool)
    ensures
        r == known_cross_table(table@, leaf@),
{
    let t = ascii_lower_of(table);
    let l = ascii_lower_of(leaf);
    let t = t.as_slice();
    let l = l.as_slice();
    (chars_eq_str(t, "course") && chars_eq_str(l, "numsections")) || (chars_eq_str(t, "course")
        && chars_eq_str(l, "hiddensections")) || (chars_eq_str(t, "course") && chars_eq_str(
        l,
        "coursedisplay",
    )) || (chars_eq_str(t, "course") && chars_eq_str(l, "completionstartonenrol")) || (
    chars_eq_str(t, "role") && chars_eq_str(l, "nameincourse"))
}

pub struct StructureOptions {
    /// Promote unknown-leaf warnings to errors.
    pub strict: bool,
}

impl Default for StructureOptions {
    fn default() -> (o: StructureOptions)
        ensures
            !o.strict,
    {
        StructureOptions { strict: false }
    }
}

// ---------------------------------------------------------------------------
// Messages

pub open spec fn notnull_message(name: Seq<char>) -> Seq<char> {
    "NOT NULL field <"@ + name + "> contains $@NULL@$ sentinel"@
}

pub open spec fn char_message(name: Seq<char>, actual: nat, max: nat) -> Seq<char> {
    "char field <"@ + name + "> length "@ + decimal(actual) + " exceeds LENGTH=\""@ + decimal(max)
        + "\""@
}

pub open spec fn int_invalid_message(name: Seq<char>, value: Seq<char>) -> Seq<char> {
    "int field <"@ + name + "> has non-integer value "@ + debug_quoted(value)
}

pub open spec fn int_digits_message(name: Seq<char>, digits: nat, max: nat) -> Seq<char> {
    "int field <"@ + name + "> has "@ + decimal(digits) + " digits but LENGTH=\""@ + decimal(max)
        + "\""@
}

pub open spec fn number_invalid_message(name: Seq<char>, value: Seq<char>) -> Seq<char> {
    "number field <"@ + name + "> has non-numeric value "@ + debug_quoted(value)
}

pub open spec fn precision_message(name: Seq<char>, total: nat, p: nat) -> Seq<char> {
    "number field <"@ + name + "> precision "@ + decimal(total) + " exceeds LENGTH=\""@ + decimal(p)
        + "\""@
}

pub open spec fn decimals_message(name: Seq<char>, frac: nat, d: nat) -> Seq<char> {
    "number field <"@ + name + "> fractional digits "@ + decimal(frac) + " exceed DECIMALS=\""@
        + decimal(d) + "\""@
}

pub open spec fn float_invalid_message(name: Seq<char>, value: Seq<char>) -> Seq<char> {
    "float field <"@ + name + "> has non-numeric value "@ + debug_quoted(value)
}

pub open spec fn unknown_message(name: Seq<char>, table: Seq<char>) -> Seq<char> {
    "unknown leaf <"@ + name + "> under <"@ + table + "> (no matching field in db/install.xml)"@
}

// ---------------------------------------------------------------------------
// Field value rules

/// `s` with every leading `c` removed (`trim_start_matches`).
pub open spec fn strip_leading(s: Seq<char>, c: char) -> Seq<char>
    decreases s.len(),
{
    if s.len() > 0 && s[0] == c {
        strip_leading(s.drop_first(), c)
    } else {
        s
    }
}

/// `u32::wrapping_add`.
pub open spec fn wrapping_add_u32(a: u32, b: u32) -> u32 {
    if a + b > u32::MAX {
        (a + b - (u32::MAX + 1)) as u32
    } else {
        (a + b) as u32
    }
}

pub open spec fn err(file: Seq<char>, code: &'static str, loc: Seq<char>, msg: Seq<char>) -> IssueView {
    issue_view(code@, Severity::Error, file, loc, msg)
}

/// `char` columns: the untrimmed character count, truncated to 32 bits,
/// must not exceed LENGTH.
pub open spec fn char_issues(file: Seq<char>, f: Field, raw: Seq<char>, loc: Seq<char>) -> Seq<
    IssueView,
> {
    match f.length {
        Some(max) => if (raw.len() as u32) > max {
            seq![err(file, codes::STRUCT_CHAR_OVERFLOW, loc, char_message(f.name@, raw.len(), max as nat))]
        } else {
            seq![]
        },
        None => seq![],
    }
}

/// `int` columns: a non-empty value must parse as `i64` and have at most
/// LENGTH characters once leading `-` are removed.
pub open spec fn int_issues(file: Seq<char>, f: Field, v: Seq<char>, loc: Seq<char>) -> Seq<IssueView> {
    if v.len() == 0 {
        seq![]
    } else if !i64_text_ok(v) {
        seq![err(file, codes::STRUCT_INT_INVALID, loc, int_invalid_message(f.name@, v))]
    } else {
        match f.length {
            Some(max) => {
                let digits = strip_leading(v, '-').len() as u32;
                if digits > max {
                    seq![err(file, codes::STRUCT_INT_OVERFLOW, loc, int_digits_message(f.name@, digits as nat, max as nat))]
                } else {
                    seq![]
                }
            },
            None => seq![],
        }
    }
}

/// Digits before the first `.` of `body`.
pub open spec fn int_part_len(body: Seq<char>) -> nat {
    index_of(body, '.') as nat
}

/// Digits after the first `.` of `body` (0 without a `.`).
pub open spec fn frac_part_len(body: Seq<char>) -> nat {
    let p = index_of(body, '.');
    if p < body.len() {
        (body.len() - p - 1) as nat
    } else {
        0
    }
}

/// `number` columns: a non-empty value must parse as `f64`; the digit count
/// (integer plus fractional part, 32-bit wrapping sum) must not exceed
/// LENGTH and the fractional digits must not exceed DECIMALS.
pub open spec fn number_issues(file: Seq<char>, f: Field, v: Seq<char>, loc: Seq<char>) -> Seq<
    IssueView,
> {
    if v.len() == 0 {
        seq![]
    } else if !f64_text_ok(v) {
        seq![err(file, codes::STRUCT_NUMBER_INVALID, loc, number_invalid_message(f.name@, v))]
    } else {
        let body = strip_leading(v, '-');
        let int_d = int_part_len(body) as u32;
        let frac_d = frac_part_len(body) as u32;
        let total = wrapping_add_u32(int_d, frac_d);
        let p_issues = match f.length {
            Some(p) => if total > p {
                seq![err(file, codes::STRUCT_NUMBER_PRECISION, loc, precision_message(f.name@, total as nat, p as nat))]
            } else {
                seq![]
            },
            None => seq![],
        };
        let d_issues = match f.decimals {
            Some(d) => if frac_d > d {
                seq![err(file, codes::STRUCT_NUMBER_DECIMALS, loc, decimals_message(f.name@, frac_d as nat, d as nat))]
            } else {
                seq![]
            },
            None => seq![],
        };
        p_issues + d_issues
    }
}

/// `float` columns: a non-empty value must parse as `f64`.
pub open spec fn float_issues(file: Seq<char>, f: Field, v: Seq<char>, loc: Seq<char>) -> Seq<
    IssueView,
> {
    if v.len() != 0 && !f64_text_ok(v) {
        seq![err(file, codes::STRUCT_FLOAT_INVALID, loc, float_invalid_message(f.name@, v))]
    } else {
        seq![]
    }
}

/// Issues for the text `raw` of a leaf element mapped to field `f`. The
/// NULL sentinel (after trimming) only matters for NOT NULL fields; `char`
/// lengths use the untrimmed text, the other checks the trimmed one.
pub open spec fn field_value_issues(file: Seq<char>, f: Field, raw: Seq<char>, loc: Seq<char>) -> Seq<
    IssueView,
> {
    let v = trim(raw);
    if v == NULL_SENTINEL@ {
        if f.notnull {
            seq![err(file, codes::STRUCT_NOTNULL_VIOLATION, loc, notnull_message(f.name@))]
        } else {
            seq![]
        }
    } else {
        match f.ty {
            FieldType::Char => char_issues(file, f, raw, loc),
            FieldType::Int => int_issues(file, f, v, loc),
            FieldType::Number => number_issues(file, f, v, loc),
            FieldType::Float => float_issues(file, f, v, loc),
            _ => seq![],
        }
    }
}

// ---------------------------------------------------------------------------
// Walk state

/// A direct child of a row whose classification waits for its end tag.
pub ghost struct PendingChild {
    pub name: Seq<char>,
    pub open_depth: int,
    pub location: Seq<char>,
    /// (table index, field index) of the column it maps to.
    pub field: Option<(int, int)>,
    pub has_child_element: bool,
    pub text: Seq<char>,
}

/// An open table row.
pub ghost struct RowCtx {
    pub table: int,
    pub open_depth: int,
}

pub ghost struct WalkState {
    pub path: Seq<Seq<char>>,
    pub rows: Seq<RowCtx>,
    pub pending: Seq<PendingChild>,
    pub issues: Seq<IssueView>,
}

pub open spec fn walk_init() -> WalkState {
    WalkState { path: seq![], rows: seq![], pending: seq![], issues: seq![] }
}

/// `path.join("/")`
pub open spec fn join_path(p: Seq<Seq<char>>) -> Seq<char>
    decreases p.len(),
{
    if p.len() == 0 {
        seq![]
    } else if p.len() == 1 {
        p[0]
    } else {
        join_path(p.drop_last()) + "/"@ + p.last()
    }
}

/// XPath-ish location of the element at the end of `p`.
pub open spec fn location_of(p: Seq<Seq<char>>) -> Seq<char> {
    "/"@ + join_path(p)
}

/// Some attribute's key is `id` in any ASCII case.
pub open spec fn has_id_attr(attrs: Seq<XmlAttr>) -> bool {
    exists|i: int| 0 <= i < attrs.len() && ascii_lower(#[trigger] attrs[i].key@) == "id"@
}

pub open spec fn walk_start(schema: Schema, s: WalkState, name: Seq<char>, has_id: bool) -> WalkState {
    let path = s.path.push(name);
    let depth = path.len() as int;
    let lower = ascii_lower(name);
    let pending = if s.pending.len() > 0 && s.pending.last().open_depth == depth - 1 {
        let d = s.pending.last();
        s.pending.update(
            s.pending.len() - 1,
            PendingChild {
                name: d.name,
                open_depth: d.open_depth,
                location: d.location,
                field: d.field,
                has_child_element: true,
                text: d.text,
            },
        )
    } else {
        s.pending
    };
    if s.rows.len() > 0 && s.rows.last().open_depth == depth - 1 {
        let t = s.rows.last().table;
        let field = match field_or_alias(schema.tables@[t], lower) {
            Some(fi) => Some((t, fi)),
            None => None,
        };
        WalkState {
            path,
            rows: s.rows,
            pending: pending.push(
                PendingChild {
                    name,
                    open_depth: depth,
                    location: location_of(path),
                    field,
                    has_child_element: false,
                    text: seq![],
                },
            ),
            issues: s.issues,
        }
    } else if has_id && table_index(schema, lower) is Some {
        WalkState {
            path,
            rows: s.rows.push(RowCtx { table: table_index(schema, lower)->0, open_depth: depth }),
            pending,
            issues: s.issues,
        }
    } else {
        WalkState { path, rows: s.rows, pending, issues: s.issues }
    }
}

pub open spec fn walk_text(s: WalkState, text: Seq<char>) -> WalkState {
    if s.pending.len() > 0 && s.pending.last().open_depth == s.path.len() {
        let d = s.pending.last();
        WalkState {
            path: s.path,
            rows: s.rows,
            pending: s.pending.update(
                s.pending.len() - 1,
                PendingChild {
                    name: d.name,
                    open_depth: d.open_depth,
                    location: d.location,
                    field: d.field,
                    has_child_element: d.has_child_element,
                    text: d.text + text,
                },
            ),
            issues: s.issues,
        }
    } else {
        s
    }
}

/// Name of the table of the innermost open row, or "?".
pub open spec fn parent_table_name(schema: Schema, rows: Seq<RowCtx>) -> Seq<char> {
    if rows.len() > 0 {
        schema.tables@[rows.last().table].name@
    } else {
        "?"@
    }
}

/// Issues for a closed pending child.
pub open spec fn finalize_issues(
    schema: Schema,
    file: Seq<char>,
    strict: bool,
    rows: Seq<RowCtx>,
    d: PendingChild,
) -> Seq<IssueView> {
    if d.has_child_element {
        seq![]
    } else {
        match d.field {
            Some((ti, fi)) => field_value_issues(
                file,
                schema.tables@[ti].fields@[fi],
                d.text,
                d.location,
            ),
            None => {
                let parent = parent_table_name(schema, rows);
                if trim(d.text).len() == 0 || known_cross_table(parent, d.name) {
                    seq![]
                } else {
                    seq![
                        issue_view(
                            codes::STRUCT_UNKNOWN_LEAF@,
                            if strict { Severity::Error } else { Severity::Warning },
                            file,
                            d.location,
                            unknown_message(d.name, parent),
                        ),
                    ]
                }
            },
        }
    }
}

pub open spec fn walk_end(schema: Schema, file: Seq<char>, strict: bool, s: WalkState) -> WalkState {
    let depth = s.path.len() as int;
    let s1 = if s.pending.len() > 0 && s.pending.last().open_depth == depth {
        WalkState {
            path: s.path,
            rows: s.rows,
            pending: s.pending.drop_last(),
            issues: s.issues + finalize_issues(schema, file, strict, s.rows, s.pending.last()),
        }
    } else {
        s
    };
    WalkState {
        path: if s1.path.len() > 0 { s1.path.drop_last() } else { s1.path },
        rows: if s1.rows.len() > 0 && s1.rows.last().open_depth == depth {
            s1.rows.drop_last()
        } else {
            s1.rows
        },
        pending: s1.pending,
        issues: s1.issues,
    }
}

pub open spec fn walk_step(schema: Schema, file: Seq<char>, strict: bool, s: WalkState, e: XmlEvent) -> WalkState {
    match e {
        XmlEvent::Start { name, attrs } => walk_start(schema, s, name@, has_id_attr(attrs@)),
        XmlEvent::Empty { name, attrs } => walk_end(
            schema,
            file,
            strict,
            walk_start(schema, s, name@, has_id_attr(attrs@)),
        ),
        XmlEvent::Text { text } => walk_text(s, text@),
        XmlEvent::CData { text } => walk_text(s, text@),
        XmlEvent::End { .. } => walk_end(schema, file, strict, s),
        _ => s,
    }
}

pub open spec fn walk_fn(schema: Schema, file: Seq<char>, strict: bool) -> spec_fn(WalkState, XmlEvent) -> WalkState {
    |s: WalkState, e: XmlEvent| walk_step(schema, file, strict, s, e)
}

/// The issues `check` reports for `src`: the walk over every event up to the
/// first end-of-input or parse error.
pub open spec fn structure_issues(file: Seq<char>, src: Seq<u8>, schema: Schema, strict: bool) -> Seq<
    IssueView,
> {
    scan_all(src, false, walk_init(), walk_fn(schema, file, strict)).0.issues
}


// ---------------------------------------------------------------------------
// Field value checks

fn push_issue(issues: &mut Vec<Issue>, i: Issue)
    ensures
        issues_view(final(issues)@) == issues_view(old(issues)@).push(i@),
{
    let ghost before = issues@;
    issues.push(i);
    assert(issues_view(issues@) =~= issues_view(before).push(i@));
}

proof fn lemma_strip_leading(s: Seq<char>, c: char, i: int)
    requires
        0 <= i <= s.len(),
        forall|j: int| 0 <= j < i ==> s[j] == c,
        i == s.len() || s[i] != c,
    ensures
        strip_leading(s, c) == s.subrange(i, s.len() as int),
    decreases i,
{
    if i > 0 {
        assert(s.drop_first().subrange(i - 1, s.drop_first().len() as int) =~= s.subrange(
            i,
            s.len() as int,
        ));
        lemma_strip_leading(s.drop_first(), c, i - 1);
    } else {
        assert(s.subrange(0, s.len() as int) =~= s);
    }
}

fn strip_leading_exec(s: &[char], c: char) -> (r: Vec<char>)
    ensures
        r@ == strip_leading(s@, c),
{
    let mut i: usize = 0;
    while i < s.len() && s[i] == c
        invariant
            i <= s.len(),
            forall|j: int| 0 <= j < i ==> s@[j] == c,
        decreases s.len() - i,
    {
        i += 1;
    }
    proof {
        lemma_strip_leading(s@, c, i as int);
    }
    crate::text::slice_chars(s, i, s.len())
}

/// "<prefix><field name><middle>"
fn field_msg(prefix: &str, f: &Field, middle: &str) -> (m: Vec<char>)
    ensures
        m@ == prefix@ + f.name@ + middle@,
{
    let mut m = chars_of(prefix);
    let n = chars_of(f.name.as_str());
    push_chars(&mut m, n.as_slice());
    push_str(&mut m, middle);
    m
}

fn check_char(issues: &mut Vec<Issue>, file: &[char], f: &Field, raw: &[char], loc: &[char])
    ensures
        issues_view(final(issues)@) == issues_view(old(issues)@) + char_issues(file@, *f, raw@, loc@),
{
    match f.length {
        Some(max) => {
            let actual = raw.len();
            if (actual as u32) > max {
                let mut m = field_msg("char field <", f, "> length ");
                push_decimal(&mut m, actual as u64);
                push_str(&mut m, " exceeds LENGTH=\"");
                push_decimal(&mut m, max as u64);
                push_str(&mut m, "\"");
                assert(m@ == char_message(f.name@, raw@.len(), max as nat));
                push_issue(issues, Issue::of_chars(codes::STRUCT_CHAR_OVERFLOW, Severity::Error, file, loc, m.as_slice()));
            } else {
                assert(issues_view(issues@) =~= issues_view(issues@) + char_issues(file@, *f, raw@, loc@));
            }
        },
        None => {
            assert(issues_view(issues@) =~= issues_view(issues@) + char_issues(file@, *f, raw@, loc@));
        },
    }
}

fn check_int(issues: &mut Vec<Issue>, file: &[char], f: &Field, v: &[char], loc: &[char])
    ensures
        issues_view(final(issues)@) == issues_view(old(issues)@) + int_issues(file@, *f, v@, loc@),
{
    let ghost before = issues_view(issues@);
    if v.len() == 0 {
        assert(before =~= before + int_issues(file@, *f, v@, loc@));
        return;
    }
    if !i64_ok(v) {
        let mut m = field_msg("int field <", f, "> has non-integer value ");
        let d = debug_of(v);
        push_chars(&mut m, d.as_slice());
        push_issue(issues, Issue::of_chars(codes::STRUCT_INT_INVALID, Severity::Error, file, loc, m.as_slice()));
        return;
    }
    match f.length {
        Some(max_digits) => {
            let body = strip_leading_exec(v, '-');
            let digits = body.len() as u32;
            if digits > max_digits {
                let mut m = field_msg("int field <", f, "> has ");
                push_decimal(&mut m, digits as u64);
                push_str(&mut m, " digits but LENGTH=\"");
                push_decimal(&mut m, max_digits as u64);
                push_str(&mut m, "\"");
                push_issue(issues, Issue::of_chars(codes::STRUCT_INT_OVERFLOW, Severity::Error, file, loc, m.as_slice()));
            } else {
                assert(before =~= before + int_issues(file@, *f, v@, loc@));
            }
        },
        None => {
            assert(before =~= before + int_issues(file@, *f, v@, loc@));
        },
    }
}

fn check_number(issues: &mut Vec<Issue>, file: &[char], f: &Field, v: &[char], loc: &[char])
    ensures
        issues_view(final(issues)@) == issues_view(old(issues)@) + number_issues(file@, *f, v@, loc@),
{
    let ghost before = issues_view(issues@);
    if v.len() == 0 {
        assert(before =~= before + number_issues(file@, *f, v@, loc@));
        return;
    }
    if !f64_ok(v) {
        let mut m = field_msg("number field <", f, "> has non-numeric value ");
        let d = debug_of(v);
        push_chars(&mut m, d.as_slice());
        push_issue(issues, Issue::of_chars(codes::STRUCT_NUMBER_INVALID, Severity::Error, file, loc, m.as_slice()));
        return;
    }
    let body = strip_leading_exec(v, '-');
    let p = index_of_exec(body.as_slice(), '.');
    let int_count: usize = p;
    let frac_count: usize = if p < body.len() { body.len() - p - 1 } else { 0 };
    let int_digits = int_count as u32;
    let frac_digits = frac_count as u32;
    let total_digits = int_digits.wrapping_add(frac_digits);
    assert(total_digits == wrapping_add_u32(int_digits, frac_digits));
    let ghost mid = issues_view(issues@);
    match f.length {
        Some(pr) => {
            if total_digits > pr {
                let mut m = field_msg("number field <", f, "> precision ");
                push_decimal(&mut m, total_digits as u64);
                push_str(&mut m, " exceeds LENGTH=\"");
                push_decimal(&mut m, pr as u64);
                push_str(&mut m, "\"");
                push_issue(issues, Issue::of_chars(codes::STRUCT_NUMBER_PRECISION, Severity::Error, file, loc, m.as_slice()));
            }
        },
        None => {},
    }
    let ghost mid2 = issues_view(issues@);
    match f.decimals {
        Some(dd) => {
            if frac_digits > dd {
                let mut m = field_msg("number field <", f, "> fractional digits ");
                push_decimal(&mut m, frac_digits as u64);
                push_str(&mut m, " exceed DECIMALS=\"");
                push_decimal(&mut m, dd as u64);
                push_str(&mut m, "\"");
                push_issue(issues, Issue::of_chars(codes::STRUCT_NUMBER_DECIMALS, Severity::Error, file, loc, m.as_slice()));
            }
        },
        None => {},
    }
    assert(issues_view(issues@) =~= before + number_issues(file@, *f, v@, loc@));
}

fn check_float(issues: &mut Vec<Issue>, file: &[char], f: &Field, v: &[char], loc: &[char])
    ensures
        issues_view(final(issues)@) == issues_view(old(issues)@) + float_issues(file@, *f, v@, loc@),
{
    let ghost before = issues_view(issues@);
    if v.len() != 0 && !f64_ok(v) {
        let mut m = field_msg("float field <", f, "> has non-numeric value ");
        let d = debug_of(v);
        push_chars(&mut m, d.as_slice());
        push_issue(issues, Issue::of_chars(codes::STRUCT_FLOAT_INVALID, Severity::Error, file, loc, m.as_slice()));
    } else {
        assert(before =~= before + float_issues(file@, *f, v@, loc@));
    }
}

fn validate_field_value(issues: &mut Vec<Issue>, file: &[char], f: &Field, raw: &[char], loc: &[char])
    ensures
        issues_view(final(issues)@) == issues_view(old(issues)@) + field_value_issues(file@, *f, raw@, loc@),
{
    let ghost before = issues_view(issues@);
    let v = trim_of(raw);
    if chars_eq_str(v.as_slice(), NULL_SENTINEL) {
        if f.notnull {
            let m = field_msg("NOT NULL field <", f, "> contains $@NULL@$ sentinel");
            push_issue(issues, Issue::of_chars(codes::STRUCT_NOTNULL_VIOLATION, Severity::Error, file, loc, m.as_slice()));
        } else {
            assert(before =~= before + field_value_issues(file@, *f, raw@, loc@));
        }
        return;
    }
    match f.ty {
        FieldType::Char => check_char(issues, file, f, raw, loc),
        FieldType::Int => check_int(issues, file, f, v.as_slice(), loc),
        FieldType::Number => check_number(issues, file, f, v.as_slice(), loc),
        FieldType::Float => check_float(issues, file, f, v.as_slice(), loc),
        _ => {
            assert(before =~= before + field_value_issues(file@, *f, raw@, loc@));
        },
    }
}


// ---------------------------------------------------------------------------
// Walker

struct Pending {
    name: Vec<char>,
    open_depth: usize,
    location: Vec<char>,
    field: Option<(usize, usize)>,
    has_child_element: bool,
    text: Vec<char>,
}

impl Pending {
    spec fn ghost_view(&self) -> PendingChild {
        PendingChild {
            name: self.name@,
            open_depth: self.open_depth as int,
            location: self.location@,
            field: match self.field {
                Some((t, f)) => Some((t as int, f as int)),
                None => None,
            },
            has_child_element: self.has_child_element,
            text: self.text@,
        }
    }
}

pub open spec fn names_view(p: Seq<Vec<char>>) -> Seq<Seq<char>> {
    p.map_values(|v: Vec<char>| v@)
}

spec fn rows_view(r: Seq<(usize, usize)>) -> Seq<RowCtx> {
    r.map_values(|x: (usize, usize)| RowCtx { table: x.0 as int, open_depth: x.1 as int })
}

spec fn pending_view(p: Seq<Pending>) -> Seq<PendingChild> {
    p.map_values(|x: Pending| x.ghost_view())
}

struct Walker<'s> {
    schema: &'s Schema,
    keys: SchemaKeys,
    xml_file: Vec<char>,
    strict: bool,
    issues: Vec<Issue>,
    path: Vec<Vec<char>>,
    rows: Vec<(usize, usize)>,
    pending: Vec<Pending>,
}

proof fn lemma_join_step(q: Seq<Seq<char>>, i: int)
    requires
        0 <= i < q.len(),
    ensures
        join_path(q.subrange(0, i + 1)) == (if i == 0 {
            q[0]
        } else {
            join_path(q.subrange(0, i)) + "/"@ + q[i]
        }),
{
    assert(q.subrange(0, i + 1).drop_last() =~= q.subrange(0, i));
}

fn location_exec(path: &Vec<Vec<char>>) -> (r: Vec<char>)
    ensures
        r@ == location_of(names_view(path@)),
{
    let ghost q = names_view(path@);
    let mut v = chars_of("/");
    let mut i: usize = 0;
    while i < path.len()
        invariant
            i <= path@.len(),
            q == names_view(path@),
            v@ == "/"@ + join_path(q.subrange(0, i as int)),
        decreases path.len() - i,
    {
        proof {
            lemma_join_step(q, i as int);
        }
        if i > 0 {
            push_str(&mut v, "/");
        }
        push_chars(&mut v, path[i].as_slice());
        i += 1;
    }
    assert(q.subrange(0, path@.len() as int) =~= q);
    v
}

fn has_id_attribute(attrs: &Vec<XmlAttr>) -> (r: bool)
    ensures
        r == has_id_attr(attrs@),
{
    let mut i: usize = 0;
    while i < attrs.len()
        invariant
            i <= attrs@.len(),
            forall|j: int| 0 <= j < i ==> ascii_lower(#[trigger] attrs@[j].key@) != "id"@,
        decreases attrs.len() - i,
    {
        let k = ascii_lower_of(attrs[i].key.as_slice());
        if chars_eq_str(k.as_slice(), "id") {
            return true;
        }
        i += 1;
    }
    false
}

impl<'s> Walker<'s> {
    spec fn state(&self) -> WalkState {
        WalkState {
            path: names_view(self.path@),
            rows: rows_view(self.rows@),
            pending: pending_view(self.pending@),
            issues: issues_view(self.issues@),
        }
    }

    spec fn wf(&self) -> bool {
        &&& self.keys.keys_of(*self.schema)
        &&& forall|i: int|
            0 <= i < self.rows@.len() ==> (#[trigger] self.rows@[i]).0 < self.schema.tables@.len()
        &&& forall|i: int|
            0 <= i < self.pending@.len() ==> match (#[trigger] self.pending@[i]).field {
                Some((t, f)) => t < self.schema.tables@.len() && f
                    < self.schema.tables@[t as int].fields@.len(),
                None => true,
            }
    }

    fn on_start(&mut self, name: &[char], has_id: bool)
        requires
            old(self).wf(),
        ensures
            final(self).wf(),
            final(self).schema == old(self).schema,
            final(self).xml_file@ == old(self).xml_file@,
            final(self).strict == old(self).strict,
            final(self).state() == walk_start(*old(self).schema, old(self).state(), name@, has_id),
    {
        let ghost s0 = self.state();
        let ghost schema = *self.schema;
        self.path.push(copy_chars(name));
        assert(names_view(self.path@) =~= s0.path.push(name@));
        let depth = self.path.len();
        let lower = ascii_lower_of(name);
        let np = self.pending.len();
        if np > 0 && self.pending[np - 1].open_depth == depth - 1 {
            let mut d = self.pending.pop().unwrap();
            d.has_child_element = true;
            self.pending.push(d);
        }
        let ghost pend = pending_view(self.pending@);
        let ghost want = walk_start(schema, s0, name@, has_id);
        assert(pend =~= want.pending || (s0.rows.len() > 0 && s0.rows.last().open_depth == depth - 1));
        let nr = self.rows.len();
        if nr > 0 && self.rows[nr - 1].1 == depth - 1 {
            let t = self.rows[nr - 1].0;
            let field = match self.keys.field_or_alias(self.schema, t, lower.as_slice()) {
                Some(fi) => Some((t, fi)),
                None => None,
            };
            let location = location_exec(&self.path);
            let p = Pending {
                name: copy_chars(name),
                open_depth: depth,
                location,
                field,
                has_child_element: false,
                text: Vec::new(),
            };
            self.pending.push(p);
            assert(pending_view(self.pending@) =~= want.pending);
            return;
        }
        if has_id {
            proof {
                crate::text::lemma_ascii_lower_idem(name@);
            }
            match self.keys.table(Ghost(*self.schema), lower.as_slice()) {
                Some(t) => {
                    self.rows.push((t, depth));
                    assert(rows_view(self.rows@) =~= want.rows);
                },
                None => {},
            }
        }
    }

    fn on_text(&mut self, text: &[char])
        requires
            old(self).wf(),
        ensures
            final(self).wf(),
            final(self).schema == old(self).schema,
            final(self).xml_file@ == old(self).xml_file@,
            final(self).strict == old(self).strict,
            final(self).state() == walk_text(old(self).state(), text@),
    {
        let ghost s0 = self.state();
        let np = self.pending.len();
        if np > 0 && self.pending[np - 1].open_depth == self.path.len() {
            let mut d = self.pending.pop().unwrap();
            push_chars(&mut d.text, text);
            self.pending.push(d);
            assert(pending_view(self.pending@) =~= walk_text(s0, text@).pending);
        }
    }

    fn finalize_deferred(&mut self, d: Pending)
        requires
            old(self).wf(),
            match d.field {
                Some((t, f)) => t < old(self).schema.tables@.len() && f
                    < old(self).schema.tables@[t as int].fields@.len(),
                None => true,
            },
        ensures
            final(self).wf(),
            final(self).schema == old(self).schema,
            final(self).xml_file@ == old(self).xml_file@,
            final(self).strict == old(self).strict,
            final(self).path@ == old(self).path@,
            final(self).rows@ == old(self).rows@,
            final(self).pending@ == old(self).pending@,
            issues_view(final(self).issues@) == issues_view(old(self).issues@) + finalize_issues(
                *old(self).schema,
                old(self).xml_file@,
                old(self).strict,
                rows_view(old(self).rows@),
                d.ghost_view(),
            ),
    {
        let ghost before = issues_view(self.issues@);
        let ghost want = finalize_issues(*self.schema, self.xml_file@, self.strict, rows_view(self.rows@), d.ghost_view());
        if d.has_child_element {
            assert(before =~= before + want);
            return;
        }
        match d.field {
            Some((t, f)) => {
                let field = &self.schema.tables[t].fields[f];
                validate_field_value(&mut self.issues, self.xml_file.as_slice(), field, d.text.as_slice(), d.location.as_slice());
            },
            None => {
                let nr = self.rows.len();
                let parent = if nr > 0 {
                    chars_of(self.schema.tables[self.rows[nr - 1].0].name.as_str())
                } else {
                    chars_of("?")
                };
                assert(parent@ == parent_table_name(*self.schema, rows_view(self.rows@)));
                let trimmed = trim_of(d.text.as_slice());
                if trimmed.len() == 0 || is_known_cross_table(parent.as_slice(), d.name.as_slice()) {
                    assert(before =~= before + want);
                    return;
                }
                let mut m = chars_of("unknown leaf <");
                push_chars(&mut m, d.name.as_slice());
                push_str(&mut m, "> under <");
                push_chars(&mut m, parent.as_slice());
                push_str(&mut m, "> (no matching field in db/install.xml)");
                let severity = if self.strict { Severity::Error } else { Severity::Warning };
                let issue = Issue::of_chars(codes::STRUCT_UNKNOWN_LEAF, severity, self.xml_file.as_slice(), d.location.as_slice(), m.as_slice());
                push_issue(&mut self.issues, issue);
            },
        }
    }

    fn on_end(&mut self)
        requires
            old(self).wf(),
        ensures
            final(self).wf(),
            final(self).schema == old(self).schema,
            final(self).xml_file@ == old(self).xml_file@,
            final(self).strict == old(self).strict,
            final(self).state() == walk_end(*old(self).schema, old(self).xml_file@, old(self).strict, old(self).state()),
    {
        let ghost s0 = self.state();
        let ghost want = walk_end(*self.schema, self.xml_file@, self.strict, s0);
        let depth = self.path.len();
        let np = self.pending.len();
        if np > 0 && self.pending[np - 1].open_depth == depth {
            let d = self.pending.pop().unwrap();
            assert(d.ghost_view() == s0.pending.last());
            assert(pending_view(self.pending@) =~= s0.pending.drop_last());
            self.finalize_deferred(d);
        }
        let nr = self.rows.len();
        if nr > 0 && self.rows[nr - 1].1 == depth {
            self.rows.pop();
            assert(rows_view(self.rows@) =~= rows_view(old(self).rows@).drop_last());
        }
        if self.path.len() > 0 {
            self.path.pop();
            assert(names_view(self.path@) =~= s0.path.drop_last());
        }
        assert(self.state().pending =~= want.pending);
        assert(self.state().rows =~= want.rows);
        assert(self.state().path =~= want.path);
    }
}

/// Validate the rows of one backup XML file against `schema`.
pub fn check(xml_name: &str, bytes: &[u8], schema: &Schema, options: &StructureOptions) -> (res: Vec<Issue>)
    ensures
        issues_view(res@) == structure_issues(xml_name@, bytes@, *schema, options.strict),
{
    let ghost step = walk_fn(*schema, xml_name@, options.strict);
    let mut walker = Walker {
        schema,
        keys: SchemaKeys::of(schema),
        xml_file: chars_of(xml_name),
        strict: options.strict,
        issues: Vec::new(),
        path: Vec::new(),
        rows: Vec::new(),
        pending: Vec::new(),
    };
    assert(names_view(walker.path@) =~= Seq::<Seq<char>>::empty());
    assert(rows_view(walker.rows@) =~= Seq::<RowCtx>::empty());
    assert(pending_view(walker.pending@) =~= Seq::<PendingChild>::empty());
    assert(issues_view(walker.issues@) =~= Seq::<IssueView>::empty());
    let mut cur = XmlCursor::open(bytes, false);
    loop
        invariant_except_break
            cur.src() == bytes@,
            !cur.trim(),
            cur.count() <= bytes@.len(),
            scan(bytes@, false, cur.count(), walk_init(), step).1 is None,
            walker.state() == scan(bytes@, false, cur.count(), walk_init(), step).0,
            walker.wf(),
            walker.schema == schema,
            walker.xml_file@ == xml_name@,
            walker.strict == options.strict,
            step == walk_fn(*schema, xml_name@, options.strict),
        ensures
            issues_view(walker.issues@) == structure_issues(xml_name@, bytes@, *schema, options.strict),
        decreases bytes@.len() + 1 - cur.count(),
    {
        let ghost k = cur.count();
        let ev = cur.next();
        match ev {
            XmlEvent::Start { name, attrs } => {
                let id = has_id_attribute(&attrs);
                walker.on_start(name.as_slice(), id);
            },
            XmlEvent::Empty { name, attrs } => {
                let id = has_id_attribute(&attrs);
                walker.on_start(name.as_slice(), id);
                walker.on_end();
            },
            XmlEvent::Text { text } => {
                walker.on_text(text.as_slice());
            },
            XmlEvent::CData { text } => {
                walker.on_text(text.as_slice());
            },
            XmlEvent::End { .. } => {
                walker.on_end();
            },
            XmlEvent::Other => {},
            _ => {
                proof {
                    lemma_scan_finish(bytes@, false, k, walk_init(), step);
                }
                break;
            },
        }
    }
    walker.issues
}


// ---------------------------------------------------------------------------
// Laws

/// No element of `src` (read without trimming) carries an `id` attribute.
pub open spec fn no_id_elements(src: Seq<u8>) -> bool {
    forall|j: nat|
        match #[trigger] xml_event(src, false, j) {
            XmlEvent::Start { attrs, .. } => !has_id_attr(attrs@),
            XmlEvent::Empty { attrs, .. } => !has_id_attr(attrs@),
            _ => true,
        }
}

spec fn quiet_state(s: WalkState) -> bool {
    s.rows.len() == 0 && s.pending.len() == 0 && s.issues.len() == 0
}

/// An element is only taken for a table row when it carries an `id`
/// attribute: a file in which no element has one yields no issues, whatever
/// the schema.
pub proof fn law_rows_need_id(file: Seq<char>, src: Seq<u8>, schema: Schema, strict: bool)
    requires
        no_id_elements(src),
    ensures
        structure_issues(file, src, schema, strict) == Seq::<IssueView>::empty(),
{
    let step = walk_fn(schema, file, strict);
    let inv = |s: WalkState| quiet_state(s);
    let k = (src.len() + 1) as nat;
    assert forall|j: nat, s: WalkState|
        #![trigger inv(step(s, xml_event(src, false, j)))]
        j < k && inv(s) && !is_terminal(xml_event(src, false, j)) implies inv(
        step(s, xml_event(src, false, j)),
    ) by {
        let e = xml_event(src, false, j);
        assert(match e {
            XmlEvent::Start { attrs, .. } => !has_id_attr(attrs@),
            XmlEvent::Empty { attrs, .. } => !has_id_attr(attrs@),
            _ => true,
        });
    }
    crate::xml::lemma_scan_inv(src, false, k, walk_init(), step, inv);
}

/// Every issue of the list names `file` (and is an error when `strict`).
pub open spec fn issues_of(issues: Seq<IssueView>, file: Seq<char>, strict: bool) -> bool {
    forall|i: int|
        0 <= i < issues.len() ==> (#[trigger] issues[i]).xml_file == file && (strict
            ==> issues[i].severity == Severity::Error)
}

proof fn lemma_field_value_issues_of(file: Seq<char>, f: Field, raw: Seq<char>, loc: Seq<char>, strict: bool)
    ensures
        issues_of(field_value_issues(file, f, raw, loc), file, strict),
{
    let v = trim(raw);
    if !(v == NULL_SENTINEL@) {
        match f.ty {
            FieldType::Number => {
                if v.len() != 0 && f64_text_ok(v) {
                    let r = number_issues(file, f, v, loc);
                    assert forall|i: int| 0 <= i < r.len() implies (#[trigger] r[i]).xml_file == file
                        && r[i].severity == Severity::Error by {}
                }
            },
            _ => {},
        }
    }
}

proof fn lemma_issues_of_append(a: Seq<IssueView>, b: Seq<IssueView>, file: Seq<char>, strict: bool)
    requires
        issues_of(a, file, strict),
        issues_of(b, file, strict),
    ensures
        issues_of(a + b, file, strict),
{
    assert forall|i: int| 0 <= i < (a + b).len() implies (#[trigger] (a + b)[i]).xml_file == file
        && (strict ==> (a + b)[i].severity == Severity::Error) by {
        if i >= a.len() {
            assert((a + b)[i] == b[i - a.len()]);
        }
    }
}

proof fn lemma_walk_end_issues_of(schema: Schema, file: Seq<char>, strict: bool, s: WalkState)
    requires
        issues_of(s.issues, file, strict),
    ensures
        issues_of(walk_end(schema, file, strict, s).issues, file, strict),
{
    if s.pending.len() > 0 && s.pending.last().open_depth == s.path.len() {
        let d = s.pending.last();
        let fin = finalize_issues(schema, file, strict, s.rows, d);
        if !d.has_child_element {
            match d.field {
                Some((ti, fi)) => {
                    lemma_field_value_issues_of(file, schema.tables@[ti].fields@[fi], d.text, d.location, strict);
                },
                None => {},
            }
        }
        lemma_issues_of_append(s.issues, fin, file, strict);
    }
}

/// Every issue `check` reports names the file it was given, and under
/// `strict` every issue is an error.
pub proof fn law_issues_name_file(file: Seq<char>, src: Seq<u8>, schema: Schema, strict: bool)
    ensures
        issues_of(structure_issues(file, src, schema, strict), file, strict),
{
    let step = walk_fn(schema, file, strict);
    let inv = |s: WalkState| issues_of(s.issues, file, strict);
    let k = (src.len() + 1) as nat;
    assert forall|j: nat, s: WalkState|
        #![trigger inv(step(s, xml_event(src, false, j)))]
        j < k && inv(s) && !is_terminal(xml_event(src, false, j)) implies inv(
        step(s, xml_event(src, false, j)),
    ) by {
        let e = xml_event(src, false, j);
        match e {
            XmlEvent::Empty { name, attrs } => {
                lemma_walk_end_issues_of(schema, file, strict, walk_start(schema, s, name@, has_id_attr(attrs@)));
            },
            XmlEvent::End { .. } => {
                lemma_walk_end_issues_of(schema, file, strict, s);
            },
            _ => {},
        }
    }
    crate::xml::lemma_scan_inv(src, false, k, walk_init(), step, inv);
}

/// An unknown-leaf issue raised to an error; any other issue as it is.
pub open spec fn raise_unknown(i: IssueView) -> IssueView {
    if i.code == codes::STRUCT_UNKNOWN_LEAF@ {
        IssueView { severity: Severity::Error, ..i }
    } else {
        i
    }
}

/// Two walk states that agree but for the issues, where the first's are the
/// second's with unknown leaves raised to errors.
spec fn raised_state(a: WalkState, b: WalkState) -> bool {
    &&& a.path == b.path
    &&& a.rows == b.rows
    &&& a.pending == b.pending
    &&& a.issues == b.issues.map_values(|i: IssueView| raise_unknown(i))
}

proof fn lemma_raise_errors(r: Seq<IssueView>)
    requires
        forall|i: int| 0 <= i < r.len() ==> (#[trigger] r[i]).severity == Severity::Error,
    ensures
        r.map_values(|i: IssueView| raise_unknown(i)) == r,
{
    assert(r.map_values(|i: IssueView| raise_unknown(i)) =~= r);
}

proof fn lemma_finalize_raised(schema: Schema, file: Seq<char>, rows: Seq<RowCtx>, d: PendingChild)
    ensures
        finalize_issues(schema, file, true, rows, d) == finalize_issues(schema, file, false, rows, d).map_values(
            |i: IssueView| raise_unknown(i),
        ),
{
    let t = finalize_issues(schema, file, true, rows, d);
    let f = finalize_issues(schema, file, false, rows, d);
    if !d.has_child_element {
        match d.field {
            Some((ti, fi)) => {
                lemma_field_value_issues_of(file, schema.tables@[ti].fields@[fi], d.text, d.location, true);
                lemma_raise_errors(f);
            },
            None => {
                assert(f.map_values(|i: IssueView| raise_unknown(i)) =~= t);
            },
        }
    } else {
        assert(f.map_values(|i: IssueView| raise_unknown(i)) =~= t);
    }
}

proof fn lemma_walk_step_raised(schema: Schema, file: Seq<char>, a: WalkState, b: WalkState, e: XmlEvent)
    requires
        raised_state(a, b),
    ensures
        raised_state(walk_step(schema, file, true, a, e), walk_step(schema, file, false, b, e)),
{
    let same = WalkState { issues: b.issues, ..a };
    assert(same == b);
    match e {
        XmlEvent::Start { name, attrs } => {},
        XmlEvent::Empty { name, attrs } => {
            let sa = walk_start(schema, a, name@, has_id_attr(attrs@));
            let sb = walk_start(schema, b, name@, has_id_attr(attrs@));
            assert(raised_state(sa, sb));
            lemma_walk_end_raised(schema, file, sa, sb);
        },
        XmlEvent::Text { text } => {},
        XmlEvent::CData { text } => {},
        XmlEvent::End { .. } => {
            lemma_walk_end_raised(schema, file, a, b);
        },
        _ => {},
    }
}

proof fn lemma_walk_end_raised(schema: Schema, file: Seq<char>, a: WalkState, b: WalkState)
    requires
        raised_state(a, b),
    ensures
        raised_state(walk_end(schema, file, true, a), walk_end(schema, file, false, b)),
{
    if b.pending.len() > 0 && b.pending.last().open_depth == b.path.len() {
        let d = b.pending.last();
        lemma_finalize_raised(schema, file, b.rows, d);
        let ft = finalize_issues(schema, file, true, b.rows, d);
        let ff = finalize_issues(schema, file, false, b.rows, d);
        assert((b.issues + ff).map_values(|i: IssueView| raise_unknown(i)) =~= b.issues.map_values(
            |i: IssueView| raise_unknown(i),
        ) + ff.map_values(|i: IssueView| raise_unknown(i)));
    }
}

proof fn lemma_scan_raised(file: Seq<char>, src: Seq<u8>, schema: Schema, k: nat)
    ensures
        scan(src, false, k, walk_init(), walk_fn(schema, file, true)).1 == scan(
            src,
            false,
            k,
            walk_init(),
            walk_fn(schema, file, false),
        ).1,
        raised_state(
            scan(src, false, k, walk_init(), walk_fn(schema, file, true)).0,
            scan(src, false, k, walk_init(), walk_fn(schema, file, false)).0,
        ),
    decreases k,
{
    if k == 0 {
        assert(Seq::<IssueView>::empty().map_values(|i: IssueView| raise_unknown(i)) =~= Seq::<IssueView>::empty());
    } else {
        lemma_scan_raised(file, src, schema, (k - 1) as nat);
        let pt = scan(src, false, (k - 1) as nat, walk_init(), walk_fn(schema, file, true));
        let pf = scan(src, false, (k - 1) as nat, walk_init(), walk_fn(schema, file, false));
        let e = xml_event(src, false, (k - 1) as nat);
        if pf.1 is None && !is_terminal(e) {
            lemma_walk_step_raised(schema, file, pt.0, pf.0, e);
        }
    }
}

/// A strict check reports exactly what a non-strict one does, in the same
/// order, with each unknown-leaf warning raised to an error.
pub proof fn law_strict_raises_unknown_leaves(file: Seq<char>, src: Seq<u8>, schema: Schema)
    ensures
        structure_issues(file, src, schema, true) == structure_issues(file, src, schema, false).map_values(
            |i: IssueView| raise_unknown(i),
        ),
{
    lemma_scan_raised(file, src, schema, (src.len() + 1) as nat);
}

/// Every character is an ASCII decimal digit.
pub open spec fn decimal_digits(s: Seq<char>) -> bool {
    forall|i: int| 0 <= i < s.len() ==> '0' <= #[trigger] s[i] && s[i] <= '9'
}

/// A `float` column accepts every plain decimal: a value (after trimming)
/// of one or more digits, a `.`, and any number of digits, such as `0.5` or
/// `12.`, is never reported, whatever the column's other attributes.
pub proof fn law_float_accepts_decimals(file: Seq<char>, f: Field, raw: Seq<char>, loc: Seq<char>, a: Seq<char>, b: Seq<char>)
    requires
        f.ty == FieldType::Float,
        trim(raw) == a + "."@ + b,
        a.len() > 0,
        decimal_digits(a),
        decimal_digits(b),
    ensures
        field_value_issues(file, f, raw, loc) == Seq::<IssueView>::empty(),
{
    lemma_plain_decimal(trim(raw), a, b);
}

/// A plain decimal parses as `f64`, is not the NULL marker, starts with no
/// `-`, and its first `.` follows the integer digits.
proof fn lemma_plain_decimal(v: Seq<char>, a: Seq<char>, b: Seq<char>)
    requires
        v == a + "."@ + b,
        a.len() > 0,
        decimal_digits(a),
        decimal_digits(b),
    ensures
        f64_text_ok(v),
        v != NULL_SENTINEL@,
        strip_leading(v, '-') == v,
        index_of(v, '.') == a.len(),
        v.len() == a.len() + 1 + b.len(),
{
    reveal_strlit(".");
    reveal_strlit("$@NULL@$");
    assert(v[0] == a[0]);
    assert(v != NULL_SENTINEL@) by {
        assert(NULL_SENTINEL@[0] == '$');
    }
    assert forall|j: int| 0 <= j < v.len() implies v[j] == '.' || ('0' <= #[trigger] v[j] && v[j] <= '9') by {
        if j < a.len() {
            assert(v[j] == a[j]);
        } else if j > a.len() {
            assert(v[j] == b[j - a.len() - 1]);
        }
    }
    assert(crate::numparse::sign_stripped(v) == v);
    assert(ascii_lower(v) =~= v) by {
        assert forall|j: int| 0 <= j < v.len() implies #[trigger] ascii_lower(v)[j] == v[j] by {
            assert(v[j] == '.' || ('0' <= v[j] && v[j] <= '9'));
        }
    }
    crate::numparse::lemma_index_of(v, 'e', v.len() as int);
    assert(v.subrange(0, v.len() as int) =~= v);
    assert(v.subrange(v.len() as int, v.len() as int) =~= Seq::<char>::empty());
    crate::numparse::lemma_index_of(v, '.', a.len() as int);
    assert(v.subrange(0, a.len() as int) =~= a);
    assert(v.subrange(a.len() as int + 1, v.len() as int) =~= b);
    assert(crate::numparse::number_ok(v));
    assert(f64_text_ok(v));
    assert(v[0] != '-');
}

/// The leaves Moodle writes under a row without a column of that name, by
/// lower-cased table and element name.
pub open spec fn written_without_column(table: Seq<char>, leaf: Seq<char>) -> bool {
    ||| (table == "course"@ && leaf == "numsections"@)
    ||| (table == "course"@ && leaf == "hiddensections"@)
    ||| (table == "course"@ && leaf == "coursedisplay"@)
    ||| (table == "course"@ && leaf == "completionstartonenrol"@)
    ||| (table == "role"@ && leaf == "nameincourse"@)
}

/// A text leaf that Moodle writes under a row without a column of its name
/// (`numsections`, `hiddensections`, `coursedisplay` and
/// `completionstartonenrol` under `course`; `nameincourse` under `role`; in
/// any ASCII case) is never reported, strict or not, whatever its text.
pub proof fn law_cross_table_leaves_are_silent(
    schema: Schema,
    file: Seq<char>,
    strict: bool,
    rows: Seq<RowCtx>,
    d: PendingChild,
)
    requires
        d.field is None,
        written_without_column(ascii_lower(parent_table_name(schema, rows)), ascii_lower(d.name)),
    ensures
        finalize_issues(schema, file, strict, rows, d) == Seq::<IssueView>::empty(),
{
}

/// Under a row of any other table, a leaf with no column of its name and
/// with non-blank text gives exactly one unknown-leaf issue at the leaf's
/// location: an error when strict, a warning otherwise.
pub proof fn law_other_unknown_leaves_are_reported(
    schema: Schema,
    file: Seq<char>,
    strict: bool,
    rows: Seq<RowCtx>,
    d: PendingChild,
)
    requires
        !d.has_child_element,
        d.field is None,
        trim(d.text).len() > 0,
        ascii_lower(parent_table_name(schema, rows)) != "course"@,
        ascii_lower(parent_table_name(schema, rows)) != "role"@,
    ensures
        finalize_issues(schema, file, strict, rows, d).len() == 1,
        finalize_issues(schema, file, strict, rows, d)[0].code == codes::STRUCT_UNKNOWN_LEAF@,
        finalize_issues(schema, file, strict, rows, d)[0].severity == (if strict {
            Severity::Error
        } else {
            Severity::Warning
        }),
        finalize_issues(schema, file, strict, rows, d)[0].location == d.location,
        finalize_issues(schema, file, strict, rows, d)[0].xml_file == file,
{
}

/// The characters Rust's `f64` parser can accept anywhere in a value:
/// digits, `.`, signs, the exponent mark and the letters of `inf`,
/// `infinity` and `nan`, in either case.
pub open spec fn float_text_char(c: char) -> bool {
    ||| ('0' <= c && c <= '9')
    ||| c == '.' || c == '+' || c == '-'
    ||| c == 'e' || c == 'E'
    ||| c == 'i' || c == 'I' || c == 'n' || c == 'N' || c == 'f' || c == 'F'
    ||| c == 't' || c == 'T' || c == 'y' || c == 'Y' || c == 'a' || c == 'A'
}

proof fn lemma_index_of_props(s: Seq<char>, c: char)
    ensures
        0 <= index_of(s, c) <= s.len(),
        index_of(s, c) < s.len() ==> s[index_of(s, c)] == c,
        forall|j: int| 0 <= j < index_of(s, c) ==> s[j] != c,
    decreases s.len(),
{
    if s.len() > 0 && s[0] != c {
        lemma_index_of_props(s.drop_first(), c);
        assert forall|j: int| 0 <= j < index_of(s, c) implies s[j] != c by {
            if j > 0 {
                assert(s[j] == s.drop_first()[j - 1]);
            }
        }
    }
}

/// Characters of a number accepted by `number_ok`.
spec fn number_char(c: char) -> bool {
    ('0' <= c && c <= '9') || c == '.' || c == 'e' || c == '+' || c == '-'
}

proof fn lemma_number_chars(t: Seq<char>, k: int)
    requires
        crate::numparse::number_ok(t),
        0 <= k < t.len(),
    ensures
        number_char(t[k]),
{
    let i = index_of(t, 'e');
    lemma_index_of_props(t, 'e');
    let m = t.subrange(0, i);
    let x = t.subrange(i, t.len() as int);
    if k < i {
        let p = index_of(m, '.');
        lemma_index_of_props(m, '.');
        assert(m[k] == t[k]);
        if k < p {
            assert(m.subrange(0, p)[k] == m[k]);
            assert(crate::numparse::is_digit(m.subrange(0, p)[k]));
        } else if k > p {
            let b = m.subrange(p + 1, m.len() as int);
            assert(b[k - p - 1] == m[k]);
            assert(crate::numparse::is_digit(b[k - p - 1]));
        }
    } else {
        assert(x[k - i] == t[k]);
        if k > i {
            let y = x.drop_first();
            assert(y[k - i - 1] == t[k]);
            let z = crate::numparse::sign_stripped(y);
            if y.len() > 0 && (y[0] == '+' || y[0] == '-') {
                if k - i - 1 > 0 {
                    assert(z[k - i - 2] == y[k - i - 1]);
                    assert(crate::numparse::is_digit(z[k - i - 2]));
                }
            } else {
                assert(crate::numparse::is_digit(z[k - i - 1]));
            }
        }
    }
}

proof fn lemma_word_letters(t: Seq<char>, k: int)
    requires
        t == "inf"@ || t == "infinity"@ || t == "nan"@,
        0 <= k < t.len(),
    ensures
        t[k] == 'i' || t[k] == 'n' || t[k] == 'f' || t[k] == 't' || t[k] == 'y' || t[k] == 'a',
{
    reveal_strlit("inf");
    reveal_strlit("infinity");
    reveal_strlit("nan");
    if t == "inf"@ {
        assert(t =~= seq!['i', 'n', 'f']);
    } else if t == "nan"@ {
        assert(t =~= seq!['n', 'a', 'n']);
    } else {
        assert(t =~= seq!['i', 'n', 'f', 'i', 'n', 'i', 't', 'y']);
    }
    if k == 0 {} else if k == 1 {} else if k == 2 {} else if k == 3 {} else if k == 4 {} else if k == 5 {} else if k == 6 {} else {}
}

proof fn lemma_f64_text_chars(v: Seq<char>, j: int)
    requires
        f64_text_ok(v),
        0 <= j < v.len(),
    ensures
        float_text_char(v[j]),
{
    reveal_strlit("inf");
    reveal_strlit("infinity");
    reveal_strlit("nan");
    let s = crate::numparse::sign_stripped(v);
    let t = ascii_lower(s);
    let signed = v.len() > 0 && (v[0] == '+' || v[0] == '-');
    if signed && j == 0 {
    } else {
        let k = if signed { j - 1 } else { j };
        assert(s[k] == v[j]);
        assert(t[k] == crate::text::lower_char(s[k]));
        let c = s[k];
        if t == "inf"@ || t == "infinity"@ || t == "nan"@ {
            lemma_word_letters(t, k);
        } else {
            lemma_number_chars(t, k);
        }
        if 'A' <= c && c <= 'Z' {
            assert((c as u32) + 32 == (t[k] as u32));
        }
    }
}

/// A `float` column rejects a value holding any character that Rust's `f64`
/// parser never accepts (a letter outside `e`, `inf`, `infinity`, `nan`, a
/// space inside the value, a comma, ...): one float-invalid error.
pub proof fn law_float_rejects_foreign_chars(file: Seq<char>, f: Field, raw: Seq<char>, loc: Seq<char>, j: int)
    requires
        f.ty == FieldType::Float,
        trim(raw) != NULL_SENTINEL@,
        0 <= j < trim(raw).len(),
        !float_text_char(trim(raw)[j]),
    ensures
        field_value_issues(file, f, raw, loc).len() == 1,
        field_value_issues(file, f, raw, loc)[0].code == codes::STRUCT_FLOAT_INVALID@,
        field_value_issues(file, f, raw, loc)[0].severity == Severity::Error,
{
    if f64_text_ok(trim(raw)) {
        lemma_f64_text_chars(trim(raw), j);
    }
}

/// The NULL marker decides alone: on a NOT NULL column it is one
/// not-null error, on a nullable column nothing, whatever the column's type.
pub proof fn law_null_marker(file: Seq<char>, f: Field, raw: Seq<char>, loc: Seq<char>)
    requires
        trim(raw) == "$@NULL@$"@,
    ensures
        f.notnull ==> field_value_issues(file, f, raw, loc).len() == 1 && field_value_issues(file, f, raw, loc)[0].code
            == codes::STRUCT_NOTNULL_VIOLATION@,
        !f.notnull ==> field_value_issues(file, f, raw, loc) == Seq::<IssueView>::empty(),
{
}

/// A `char` column with a LENGTH accepts any text of at most LENGTH
/// characters (spaces included) and gives one overflow error for a longer
/// one; without a LENGTH it accepts any text.
pub proof fn law_char_length(file: Seq<char>, f: Field, raw: Seq<char>, loc: Seq<char>)
    requires
        f.ty == FieldType::Char,
        trim(raw) != "$@NULL@$"@,
        raw.len() <= u32::MAX,
    ensures
        f.length is None ==> field_value_issues(file, f, raw, loc) == Seq::<IssueView>::empty(),
        f.length matches Some(max) && raw.len() <= max ==> field_value_issues(file, f, raw, loc) == Seq::<
            IssueView,
        >::empty(),
        f.length matches Some(max) && raw.len() > max ==> field_value_issues(file, f, raw, loc).len() == 1
            && field_value_issues(file, f, raw, loc)[0].code == codes::STRUCT_CHAR_OVERFLOW@,
{
    reveal_strlit("$@NULL@$");
}

/// 10 to the power `n`.
pub open spec fn pow10(n: nat) -> nat
    decreases n,
{
    if n == 0 {
        1
    } else {
        10 * pow10((n - 1) as nat)
    }
}

proof fn lemma_digits_value_below(s: Seq<char>)
    requires
        decimal_digits(s),
    ensures
        crate::numparse::digits_value(s) < pow10(s.len()),
    decreases s.len(),
{
    if s.len() > 0 {
        assert(decimal_digits(s.drop_last())) by {
            assert forall|i: int| 0 <= i < s.drop_last().len() implies '0' <= #[trigger] s.drop_last()[i]
                && s.drop_last()[i] <= '9' by {
                assert(s.drop_last()[i] == s[i]);
            }
        }
        lemma_digits_value_below(s.drop_last());
        assert('0' <= s.last() && s.last() <= '9');
    }
}

proof fn lemma_pow10_mono(a: nat, b: nat)
    requires
        a <= b,
    ensures
        pow10(a) <= pow10(b),
    decreases b,
{
    if a < b {
        lemma_pow10_mono(a, (b - 1) as nat);
    }
}

/// An `int` column accepts a plain count: one to eighteen digits, which fit
/// in `i64`, and no more digits than its LENGTH when it has one.
pub proof fn law_int_accepts_digit_runs(file: Seq<char>, f: Field, raw: Seq<char>, loc: Seq<char>)
    requires
        f.ty == FieldType::Int,
        0 < trim(raw).len() <= 18,
        decimal_digits(trim(raw)),
        f.length matches Some(max) ==> trim(raw).len() <= max,
    ensures
        field_value_issues(file, f, raw, loc) == Seq::<IssueView>::empty(),
{
    reveal_strlit("$@NULL@$");
    let v = trim(raw);
    assert(v != NULL_SENTINEL@) by {
        assert(NULL_SENTINEL@[0] == '$');
        assert('0' <= v[0] && v[0] <= '9');
    }
    assert(crate::numparse::sign_stripped(v) == v) by {
        assert('0' <= v[0] && v[0] <= '9');
    }
    assert(crate::numparse::all_digits(v)) by {
        assert forall|i: int| 0 <= i < v.len() implies #[trigger] crate::numparse::is_digit(v[i]) by {
            assert('0' <= v[i] && v[i] <= '9');
        }
    }
    lemma_digits_value_below(v);
    lemma_pow10_mono(v.len(), 18);
    assert(pow10(18) == 1_000_000_000_000_000_000) by {
        reveal_with_fuel(pow10, 19);
    }
    assert(i64_text_ok(v));
    assert(strip_leading(v, '-') == v) by {
        assert(v[0] != '-');
    }
}

/// An `int` column rejects a value with a character other than a digit,
/// past an optional leading sign: one int-invalid error.
pub proof fn law_int_rejects_non_digits(file: Seq<char>, f: Field, raw: Seq<char>, loc: Seq<char>, j: int)
    requires
        f.ty == FieldType::Int,
        trim(raw) != "$@NULL@$"@,
        0 <= j < trim(raw).len(),
        !('0' <= trim(raw)[j] && trim(raw)[j] <= '9'),
        j > 0 || (trim(raw)[0] != '-' && trim(raw)[0] != '+'),
    ensures
        field_value_issues(file, f, raw, loc).len() == 1,
        field_value_issues(file, f, raw, loc)[0].code == codes::STRUCT_INT_INVALID@,
{
    let v = trim(raw);
    let d = crate::numparse::sign_stripped(v);
    if v.len() > 0 && (v[0] == '+' || v[0] == '-') {
        assert(d[j - 1] == v[j]);
        assert(!crate::numparse::is_digit(d[j - 1]));
    } else {
        assert(!crate::numparse::is_digit(d[j]));
    }
    assert(!i64_text_ok(v));
}

/// A `number` column with LENGTH `p` and DECIMALS `d` given a plain decimal
/// of `a` integer and `b` fractional digits reports a precision error
/// exactly when `a + b > p`, then a decimals error exactly when `b > d`,
/// and nothing else.
pub proof fn law_number_digit_limits(
    file: Seq<char>,
    f: Field,
    raw: Seq<char>,
    loc: Seq<char>,
    a: Seq<char>,
    b: Seq<char>,
    p: u32,
    d: u32,
)
    requires
        f.ty == FieldType::Number,
        f.length == Some(p),
        f.decimals == Some(d),
        trim(raw) == a + "."@ + b,
        a.len() > 0,
        decimal_digits(a),
        decimal_digits(b),
        a.len() + b.len() <= u32::MAX,
    ensures
        field_value_issues(file, f, raw, loc).len() == (if a.len() + b.len() > p { 1int } else { 0int }) + (
        if b.len() > d { 1int } else { 0int }),
        a.len() + b.len() > p ==> field_value_issues(file, f, raw, loc)[0].code
            == codes::STRUCT_NUMBER_PRECISION@,
        b.len() > d ==> field_value_issues(file, f, raw, loc).last().code == codes::STRUCT_NUMBER_DECIMALS@,
{
    let v = trim(raw);
    lemma_plain_decimal(v, a, b);
    assert(int_part_len(v) == a.len());
    assert(frac_part_len(v) == b.len());
}

} // verus!
