//! Archive-level safety: reject entry names that could escape the extraction
//! root, or that contain shapes a Moodle restore wouldn't accept; and the
//! format checks of `<backup_id>` and `<contenthash>` values.
//!
//! Moodle's `file_packer::extract_to_pathname` is the actual extractor at
//! restore time; it does not perform a defence-in-depth path-traversal check
//! itself. One is done here so callers can refuse hostile archives *before*
//! invoking restore.

use vstd::prelude::*;
use crate::mbz::{names_view, MbzArchive};
use crate::text::{
    all_hex, all_hex_of, byte_len, is_hex_digit, lemma_hex_byte_len, chars_view, byte_len_of, chars_of, contains_char, debug_of, debug_quoted,
    decimal, push_chars, push_decimal, push_str, trim, trim_of, chars_eq_str,
};
use crate::validate::codes;
use crate::validate::{issue_view, issues_view, Issue, IssueView, Severity};
use crate::xml::{lemma_scan_finish, scan, scan_all, XmlCursor, XmlEvent};

verus! {

// ---------------------------------------------------------------------------
// Entry names

/// Path separators a restore on any platform would honour.
pub open spec fn is_sep(c: char) -> bool {
    c == '/' || c == '\\'
}

/// A `..` path component starts at `i`.
pub open spec fn dotdot_at(s: Seq<char>, i: int) -> bool {
    &&& 0 <= i && i + 2 <= s.len()
    &&& s[i] == '.' && s[i + 1] == '.'
    &&& (i == 0 || is_sep(s[i - 1]))
    &&& (i + 2 == s.len() || is_sep(s[i + 2]))
}

/// `char::is_ascii_alphabetic`.
pub open spec fn is_ascii_alpha(c: char) -> bool {
    ('a' <= c && c <= 'z') || ('A' <= c && c <= 'Z')
}

/// A Windows drive letter (an ASCII letter followed by `:`) starts at `i`.
pub open spec fn drive_at(s: Seq<char>, i: int) -> bool {
    &&& 0 <= i && i + 1 < s.len()
    &&& is_ascii_alpha(s[i])
    &&& s[i + 1] == ':'
}

/// Why an entry name is unsafe, or None when it is safe. Checked in order:
/// a NUL character; a leading `/` or `\` (absolute path); a Windows drive
/// letter (`X:`) anywhere in the name; a component equal to `..`.
pub open spec fn unsafe_why(s: Seq<char>) -> Option<Seq<char>> {
    if s.contains('\0') {
        Some("contains NUL byte"@)
    } else if s.len() > 0 && is_sep(s[0]) {
        Some("absolute path"@)
    } else if exists|i: int| drive_at(s, i) {
        Some("Windows drive letter"@)
    } else if exists|i: int| dotdot_at(s, i) {
        Some("contains \"..\" path component"@)
    } else {
        None
    }
}

fn has_dotdot(s: &[char]) -> (r: bool)
    ensures
        r == exists|i: int| dotdot_at(s@, i),
{
    let n = s.len();
    if n < 2 {
        assert forall|j: int| !dotdot_at(s@, j) by {}
        return false;
    }
    let mut i: usize = 0;
    while i <= n - 2
        invariant
            n == s@.len(),
            n >= 2,
            i <= n - 1,
            forall|j: int| 0 <= j < i ==> !dotdot_at(s@, j),
        decreases n - i,
    {
        if s[i] == '.' && s[i + 1] == '.' && (i == 0 || s[i - 1] == '/' || s[i - 1] == '\\') && (
        i + 2 == n || s[i + 2] == '/' || s[i + 2] == '\\') {
            assert(dotdot_at(s@, i as int));
            return true;
        }
        i += 1;
    }
    assert forall|j: int| !dotdot_at(s@, j) by {
        if 0 <= j && j + 2 <= s@.len() {
            assert(j < i);
        }
    }
    false
}

fn has_drive_letter(s: &[char]) -> (r: bool)
    ensures
        r == exists|i: int| drive_at(s@, i),
{
    let n = s.len();
    if n < 2 {
        assert forall|j: int| !drive_at(s@, j) by {}
        return false;
    }
    let mut i: usize = 0;
    while i < n - 1
        invariant
            n == s@.len(),
            n >= 2,
            i <= n - 1,
            forall|j: int| 0 <= j < i ==> !drive_at(s@, j),
        decreases n - i,
    {
        if (('a' <= s[i] && s[i] <= 'z') || ('A' <= s[i] && s[i] <= 'Z')) && s[i + 1] == ':' {
            assert(drive_at(s@, i as int));
            return true;
        }
        i += 1;
    }
    assert forall|j: int| !drive_at(s@, j) by {
        if 0 <= j && j + 1 < s@.len() {
            assert(j < i);
        }
    }
    false
}

/// A human-readable reason if `name` is unsafe, or None if safe.
pub fn unsafe_reason(name: &str) -> (r: Option<&'static str>)
    ensures
        match r {
            Some(x) => unsafe_why(name@) == Some(x@),
            None => unsafe_why(name@) is None,
        },
{
    let s = chars_of(name);
    let s = s.as_slice();
    if contains_char(s, '\0') {
        return Some("contains NUL byte");
    }
    if s.len() > 0 && (s[0] == '/' || s[0] == '\\') {
        return Some("absolute path");
    }
    if has_drive_letter(s) {
        return Some("Windows drive letter");
    }
    if has_dotdot(s) {
        return Some("contains \"..\" path component");
    }
    None
}

/// One issue per unsafe name, in order.
pub open spec fn name_issues(names: Seq<Seq<char>>) -> Seq<IssueView>
    decreases names.len(),
{
    if names.len() == 0 {
        Seq::empty()
    } else {
        let prev = name_issues(names.drop_last());
        match unsafe_why(names.last()) {
            Some(why) => prev.push(
                issue_view(
                    codes::SAFETY_PATH_TRAVERSAL@,
                    Severity::Error,
                    names.last(),
                    Seq::empty(),
                    "unsafe archive entry name: "@ + why,
                ),
            ),
            None => prev,
        }
    }
}

/// One `MBZ-SAFETY-PATH-TRAVERSAL` error per offending entry name, in
/// archive order.
pub fn check_entry_names(archive: &MbzArchive) -> (res: Vec<Issue>)
    ensures
        issues_view(res@) == name_issues(archive.entry_names()),
{
    let names = archive.names();
    let ghost all = names_view(names@);
    let mut issues: Vec<Issue> = Vec::new();
    let mut i: usize = 0;
    while i < names.len()
        invariant
            i <= names@.len(),
            all == names_view(names@),
            issues_view(issues@) == name_issues(all.take(i as int)),
        decreases names@.len() - i,
    {
        assert(all.take(i as int + 1).drop_last() =~= all.take(i as int));
        assert(all.take(i as int + 1).last() == names@[i as int]@);
        if let Some(reason) = unsafe_reason(names[i].as_str()) {
            let mut msg = chars_of("unsafe archive entry name: ");
            push_str(&mut msg, reason);
            let empty: Vec<char> = Vec::new();
            let issue = Issue::of_strs(codes::SAFETY_PATH_TRAVERSAL, Severity::Error, names[i].as_str(), empty.as_slice(), msg.as_slice());
            issues.push(issue);
            assert(empty@ =~= Seq::<char>::empty());
            assert(issues_view(issues@) =~= name_issues(all.take(i as int)).push(issue@));
        }
        i += 1;
    }
    assert(all.take(names@.len() as int) =~= all);
    issues
}

// ---------------------------------------------------------------------------
// Text of named elements

/// Reading state: inside a target element, its text so far, and the
/// finished values.
pub ghost struct TextScan {
    pub in_target: bool,
    pub current: Seq<char>,
    pub out: Seq<Seq<char>>,
}

pub open spec fn text_init() -> TextScan {
    TextScan { in_target: false, current: Seq::empty(), out: Seq::empty() }
}

/// `<target>` opens a value; text and CDATA inside it accumulate; `</target>`
/// closes it, keeping the trimmed text when it is not empty.
pub open spec fn text_step(target: Seq<char>, s: TextScan, e: XmlEvent) -> TextScan {
    match e {
        XmlEvent::Start { name, .. } => if name@ == target {
            TextScan { in_target: true, current: Seq::empty(), out: s.out }
        } else {
            s
        },
        XmlEvent::Text { text } => if s.in_target {
            TextScan { in_target: s.in_target, current: s.current + text@, out: s.out }
        } else {
            s
        },
        XmlEvent::CData { text } => if s.in_target {
            TextScan { in_target: s.in_target, current: s.current + text@, out: s.out }
        } else {
            s
        },
        XmlEvent::End { name } => if name@ == target {
            TextScan {
                in_target: false,
                current: Seq::empty(),
                out: if trim(s.current).len() > 0 { s.out.push(trim(s.current)) } else { s.out },
            }
        } else {
            s
        },
        _ => s,
    }
}

pub open spec fn text_fn(target: Seq<char>) -> spec_fn(TextScan, XmlEvent) -> TextScan {
    |s: TextScan, e: XmlEvent| text_step(target, s, e)
}

/// The trimmed, non-empty text values of every `<target>` element of `src`,
/// in document order (reading stops at the first parse error).
pub open spec fn element_texts(src: Seq<u8>, target: Seq<char>) -> Seq<Seq<char>> {
    scan_all(src, true, text_init(), text_fn(target)).0.out
}

/// The text values of every `<target>` element (see `element_texts`).
pub fn extract_all_text(bytes: &[u8], target: &str) -> (res: Vec<Vec<char>>)
    ensures
        chars_view(res@) == element_texts(bytes@, target@),
{
    let ghost step = text_fn(target@);
    let mut in_target = false;
    let mut current: Vec<char> = Vec::new();
    let mut out: Vec<Vec<char>> = Vec::new();
    let mut cur = XmlCursor::open(bytes, true);
    assert(chars_view(out@) =~= text_init().out);
    assert(current@ =~= text_init().current);
    loop
        invariant_except_break
            cur.src() == bytes@,
            cur.trim(),
            cur.count() <= bytes@.len(),
            step == text_fn(target@),
            scan(bytes@, true, cur.count(), text_init(), step).1 is None,
            in_target == scan(bytes@, true, cur.count(), text_init(), step).0.in_target,
            current@ == scan(bytes@, true, cur.count(), text_init(), step).0.current,
            chars_view(out@) == scan(bytes@, true, cur.count(), text_init(), step).0.out,
        ensures
            chars_view(out@) == element_texts(bytes@, target@),
        decreases bytes@.len() + 1 - cur.count(),
    {
        let ghost k = cur.count();
        let ghost s = scan(bytes@, true, k, text_init(), step).0;
        let ev = cur.next();
        match ev {
            XmlEvent::Start { name, .. } => {
                if chars_eq_str(name.as_slice(), target) {
                    in_target = true;
                    current = Vec::new();
                    assert(current@ =~= Seq::<char>::empty());
                }
            },
            XmlEvent::Text { text } => {
                if in_target {
                    push_chars(&mut current, text.as_slice());
                }
            },
            XmlEvent::CData { text } => {
                if in_target {
                    push_chars(&mut current, text.as_slice());
                }
            },
            XmlEvent::End { name } => {
                if chars_eq_str(name.as_slice(), target) {
                    let t = trim_of(current.as_slice());
                    if t.len() > 0 {
                        out.push(t);
                        assert(chars_view(out@) =~= s.out.push(trim(s.current)));
                    }
                    in_target = false;
                    current = Vec::new();
                    assert(current@ =~= Seq::<char>::empty());
                }
            },
            XmlEvent::Eof | XmlEvent::Error { .. } => {
                proof {
                    lemma_scan_finish(bytes@, true, k, text_init(), step);
                }
                break;
            },
            _ => {},
        }
    }
    out
}

/// The first text value of a `<target>` element, if any.
pub fn extract_single_text(bytes: &[u8], target: &str) -> (r: Option<Vec<char>>)
    ensures
        match r {
            Some(v) => element_texts(bytes@, target@).len() > 0 && v@ == element_texts(bytes@, target@)[0],
            None => element_texts(bytes@, target@).len() == 0,
        },
{
    let mut values = extract_all_text(bytes, target);
    if values.len() == 0 {
        None
    } else {
        Some(values.remove(0))
    }
}

// ---------------------------------------------------------------------------
// backup_id

/// A well-formed backup id: 32 hex characters.
pub open spec fn good_backup_id(id: Seq<char>) -> bool {
    byte_len(id) == 32 && all_hex(id)
}

/// The issues for `moodle_backup.xml`'s first `<backup_id>` value.
pub open spec fn backup_id_issues(src: Seq<u8>) -> Seq<IssueView> {
    let ids = element_texts(src, "backup_id"@);
    if ids.len() > 0 && !good_backup_id(ids[0]) {
        seq![
            issue_view(
                codes::MANIFEST_BAD_BACKUPID@,
                Severity::Error,
                "moodle_backup.xml"@,
                "/moodle_backup/information/backup_id"@,
                "<backup_id> should be 32 hex characters, got "@ + debug_quoted(ids[0]) + " (length "@
                    + decimal(byte_len(ids[0]) as nat) + ")"@,
            ),
        ]
    } else {
        Seq::empty()
    }
}

/// Format check of moodle_backup.xml's `<backup_id>` (32 hex characters):
/// one error when the first value is malformed, none otherwise.
pub fn check_backup_id(xml_bytes: &[u8]) -> (res: Vec<Issue>)
    ensures
        issues_view(res@) == backup_id_issues(xml_bytes@),
{
    let mut issues: Vec<Issue> = Vec::new();
    if let Some(id) = extract_single_text(xml_bytes, "backup_id") {
        let n = byte_len_of(id.as_slice());
        if !(n == 32 && all_hex_of(id.as_slice())) {
            let mut msg = chars_of("<backup_id> should be 32 hex characters, got ");
            let q = debug_of(id.as_slice());
            push_chars(&mut msg, q.as_slice());
            push_str(&mut msg, " (length ");
            push_decimal(&mut msg, n as u64);
            push_str(&mut msg, ")");
            let loc = chars_of("/moodle_backup/information/backup_id");
            let issue = Issue::of_strs(codes::MANIFEST_BAD_BACKUPID, Severity::Error, "moodle_backup.xml", loc.as_slice(), msg.as_slice());
            issues.push(issue);
            assert(issues_view(issues@) =~= seq![issue@]);
        }
    }
    assert(issues@.len() == 0 ==> issues_view(issues@) =~= Seq::<IssueView>::empty());
    issues
}

// ---------------------------------------------------------------------------
// contenthash

/// A well-formed content hash: 40 hex characters (a SHA-1).
pub open spec fn good_contenthash(h: Seq<char>) -> bool {
    byte_len(h) == 40 && all_hex(h)
}

pub open spec fn bad_hash_pred() -> spec_fn(Seq<char>) -> bool {
    |h: Seq<char>| !good_contenthash(h)
}

/// The malformed `<contenthash>` values of files.xml, in order.
pub open spec fn bad_hashes(src: Seq<u8>) -> Seq<Seq<char>> {
    element_texts(src, "contenthash"@).filter(bad_hash_pred())
}

/// The message summarising malformed hashes (`n` of them, `first` first).
pub open spec fn bad_hash_message(n: nat, first: Seq<char>) -> Seq<char> {
    if n == 1 {
        "<contenthash> value is not 40-hex sha1: "@ + debug_quoted(first) + " (length "@ + decimal(
            byte_len(first) as nat,
        ) + ")"@
    } else {
        decimal(n) + " <contenthash> values are not 40-hex sha1 (first: "@ + debug_quoted(first)
            + ", length "@ + decimal(byte_len(first) as nat) + ")"@
    }
}

/// At most one issue summarising the malformed hashes.
pub open spec fn contenthash_issues(src: Seq<u8>) -> Seq<IssueView> {
    let bad = bad_hashes(src);
    if bad.len() == 0 {
        Seq::empty()
    } else {
        seq![
            issue_view(
                codes::MANIFEST_BAD_CONTENTHASH@,
                Severity::Error,
                "files.xml"@,
                "/files"@,
                bad_hash_message(bad.len(), bad[0]),
            ),
        ]
    }
}

/// 40-hex `<contenthash>` format check across all entries in files.xml,
/// capped at one issue that counts the bad values and quotes the first.
pub fn check_contenthash_format(xml_bytes: &[u8]) -> (res: Vec<Issue>)
    ensures
        issues_view(res@) == contenthash_issues(xml_bytes@),
{
    let hashes = extract_all_text(xml_bytes, "contenthash");
    let ghost all = chars_view(hashes@);
    let mut n: usize = 0;
    let mut first: Option<usize> = None;
    let mut i: usize = 0;
    while i < hashes.len()
        invariant
            i <= hashes@.len(),
            all == chars_view(hashes@),
            all == element_texts(xml_bytes@, "contenthash"@),
            n == all.take(i as int).filter(bad_hash_pred()).len(),
            n <= i,
            match first {
                Some(f) => f < i && n > 0 && all.take(i as int).filter(bad_hash_pred())[0] == all[f as int],
                None => n == 0,
            },
        decreases hashes@.len() - i,
    {
        let h = hashes[i].as_slice();
        let good = byte_len_of(h) == 40 && all_hex_of(h);
        assert(all.take(i as int + 1).drop_last() =~= all.take(i as int));
        assert(all.take(i as int + 1).last() == all[i as int]);
        assert(all[i as int] == hashes@[i as int]@);
        assert(all.take(i as int + 1).filter(bad_hash_pred()) == (if !good_contenthash(all[i as int]) {
            all.take(i as int).filter(bad_hash_pred()).push(all[i as int])
        } else {
            all.take(i as int).filter(bad_hash_pred())
        })) by {
            reveal(Seq::filter);
        }
        if !good {
            if first.is_none() {
                first = Some(i);
            }
            n += 1;
        }
        i += 1;
    }
    assert(all.take(hashes@.len() as int) =~= all);
    match first {
        None => {
            let v: Vec<Issue> = Vec::new();
            assert(issues_view(v@) =~= Seq::<IssueView>::empty());
            v
        },
        Some(f) => {
            let h = hashes[f].as_slice();
            let q = debug_of(h);
            let blen = byte_len_of(h);
            let mut msg: Vec<char> = Vec::new();
            if n == 1 {
                push_str(&mut msg, "<contenthash> value is not 40-hex sha1: ");
                push_chars(&mut msg, q.as_slice());
                push_str(&mut msg, " (length ");
                push_decimal(&mut msg, blen as u64);
                push_str(&mut msg, ")");
            } else {
                push_decimal(&mut msg, n as u64);
                push_str(&mut msg, " <contenthash> values are not 40-hex sha1 (first: ");
                push_chars(&mut msg, q.as_slice());
                push_str(&mut msg, ", length ");
                push_decimal(&mut msg, blen as u64);
                push_str(&mut msg, ")");
            }
            assert(msg@ =~= bad_hash_message(n as nat, all[f as int]));
            let loc = chars_of("/files");
            let issue = Issue::of_strs(codes::MANIFEST_BAD_CONTENTHASH, Severity::Error, "files.xml", loc.as_slice(), msg.as_slice());
            let v = vec![issue];
            assert(issues_view(v@) =~= seq![issue@]);
            v
        },
    }
}

/// A backup id with a character that is not an ASCII hex digit is always
/// reported, whatever its length: one error on moodle_backup.xml.
pub proof fn law_backup_id_rejects_non_hex(src: Seq<u8>, j: int)
    requires
        element_texts(src, "backup_id"@).len() > 0,
        0 <= j < element_texts(src, "backup_id"@)[0].len(),
        !(('0' <= element_texts(src, "backup_id"@)[0][j] && element_texts(src, "backup_id"@)[0][j] <= '9')
            || ('a' <= element_texts(src, "backup_id"@)[0][j] && element_texts(src, "backup_id"@)[0][j] <= 'f')
            || ('A' <= element_texts(src, "backup_id"@)[0][j] && element_texts(src, "backup_id"@)[0][j] <= 'F')),
    ensures
        backup_id_issues(src).len() == 1,
        backup_id_issues(src)[0].code == codes::MANIFEST_BAD_BACKUPID@,
        backup_id_issues(src)[0].severity == Severity::Error,
        backup_id_issues(src)[0].xml_file == "moodle_backup.xml"@,
{
    let id = element_texts(src, "backup_id"@)[0];
    assert(!is_hex_digit(id[j]));
}

/// A backup id of hex digits is reported exactly when it is not 32
/// characters long; no `<backup_id>` at all is never reported.
pub proof fn law_backup_id_hex_length(src: Seq<u8>)
    ensures
        element_texts(src, "backup_id"@).len() == 0 ==> backup_id_issues(src) == Seq::<IssueView>::empty(),
        element_texts(src, "backup_id"@).len() > 0 && element_texts(src, "backup_id"@)[0].len() <= usize::MAX
            && (forall|j: int| 0 <= j < element_texts(src, "backup_id"@)[0].len() ==> {
                let c = #[trigger] element_texts(src, "backup_id"@)[0][j];
                ('0' <= c && c <= '9') || ('a' <= c && c <= 'f') || ('A' <= c && c <= 'F')
            }) ==> (backup_id_issues(src).len() == 0 <==> element_texts(src, "backup_id"@)[0].len() == 32),
{
    let ids = element_texts(src, "backup_id"@);
    if ids.len() > 0 && ids[0].len() <= usize::MAX && (forall|j: int| 0 <= j < ids[0].len() ==> {
        let c = #[trigger] ids[0][j];
        ('0' <= c && c <= '9') || ('a' <= c && c <= 'f') || ('A' <= c && c <= 'F')
    }) {
        assert(all_hex(ids[0])) by {
            assert forall|j: int| 0 <= j < ids[0].len() implies is_hex_digit(#[trigger] ids[0][j]) by {
                let c = ids[0][j];
                assert(('0' <= c && c <= '9') || ('a' <= c && c <= 'f') || ('A' <= c && c <= 'F'));
            }
        }
        lemma_hex_byte_len(ids[0]);
    }
}

/// A `<contenthash>` value with a character that is not an ASCII hex digit
/// makes files.xml get one malformed-hash error, whatever the other values.
pub proof fn law_contenthash_rejects_non_hex(src: Seq<u8>, i: int, j: int)
    requires
        0 <= i < element_texts(src, "contenthash"@).len(),
        0 <= j < element_texts(src, "contenthash"@)[i].len(),
        !(('0' <= element_texts(src, "contenthash"@)[i][j] && element_texts(src, "contenthash"@)[i][j] <= '9')
            || ('a' <= element_texts(src, "contenthash"@)[i][j] && element_texts(src, "contenthash"@)[i][j] <= 'f')
            || ('A' <= element_texts(src, "contenthash"@)[i][j] && element_texts(src, "contenthash"@)[i][j] <= 'F')),
    ensures
        contenthash_issues(src).len() == 1,
        contenthash_issues(src)[0].code == codes::MANIFEST_BAD_CONTENTHASH@,
        contenthash_issues(src)[0].severity == Severity::Error,
        contenthash_issues(src)[0].xml_file == "files.xml"@,
{
    let all = element_texts(src, "contenthash"@);
    assert(!is_hex_digit(all[i][j]));
    assert(bad_hash_pred()(all[i]));
    all.lemma_filter_contains(bad_hash_pred(), i);
}

/// When every `<contenthash>` value is 40 hex digits, files.xml gets no
/// malformed-hash error.
pub proof fn law_contenthash_accepts_sha1_hex(src: Seq<u8>)
    requires
        forall|i: int| 0 <= i < element_texts(src, "contenthash"@).len() ==> {
            let h = #[trigger] element_texts(src, "contenthash"@)[i];
            &&& h.len() == 40
            &&& forall|j: int| 0 <= j < 40 ==> {
                let c = #[trigger] h[j];
                ('0' <= c && c <= '9') || ('a' <= c && c <= 'f') || ('A' <= c && c <= 'F')
            }
        },
    ensures
        contenthash_issues(src) == Seq::<IssueView>::empty(),
{
    let all = element_texts(src, "contenthash"@);
    if bad_hashes(src).len() > 0 {
        all.lemma_filter_pred(bad_hash_pred(), 0);
        let h = bad_hashes(src)[0];
        assert(all.filter(bad_hash_pred()).contains(h)) by {
            assert(all.filter(bad_hash_pred())[0] == h);
        }
        all.lemma_filter_contains_rev(bad_hash_pred(), h);
        let k = choose|k: int| 0 <= k < all.len() && all[k] == h;
        assert(h.len() == 40);
        assert(all_hex(h)) by {
            assert forall|j: int| 0 <= j < h.len() implies is_hex_digit(#[trigger] h[j]) by {
                let c = h[j];
                assert(('0' <= c && c <= '9') || ('a' <= c && c <= 'f') || ('A' <= c && c <= 'F'));
            }
        }
        lemma_hex_byte_len(h);
        assert(false);
    }
}

/// A plain relative path is safe: ASCII letters, digits, `_`, `-`, `.` and
/// `/`, not starting with `/`, with no two dots in a row (so no `..`
/// component) and no `:`.
pub proof fn law_plain_relative_names_are_safe(name: Seq<char>)
    requires
        forall|j: int| 0 <= j < name.len() ==> {
            let c = #[trigger] name[j];
            ||| ('a' <= c && c <= 'z') || ('A' <= c && c <= 'Z') || ('0' <= c && c <= '9')
            ||| c == '_' || c == '-' || c == '.' || c == '/'
        },
        name.len() > 0 ==> name[0] != '/',
        forall|j: int| 0 <= j < name.len() - 1 ==> !(#[trigger] name[j] == '.' && name[j + 1] == '.'),
    ensures
        unsafe_why(name) is None,
{
    assert(!name.contains('\0')) by {
        if name.contains('\0') {
            let j = choose|j: int| 0 <= j < name.len() && name[j] == '\0';
            assert(name[j] == '\0');
        }
    }
    assert forall|i: int| !drive_at(name, i) by {
        if 0 <= i && i + 1 < name.len() {
            assert(name[i + 1] != ':');
        }
    }
    assert forall|i: int| !dotdot_at(name, i) by {
        if 0 <= i && i + 2 <= name.len() {
            assert(!(name[i] == '.' && name[i + 1] == '.'));
        }
    }
}

/// A name with a `..` component (between separators `/` or `\\`, or at
/// either end) is always unsafe.
pub proof fn law_dotdot_components_are_unsafe(p: Seq<char>, q: Seq<char>)
    requires
        p.len() == 0 || p.last() == '/' || p.last() == '\\',
        q.len() == 0 || q[0] == '/' || q[0] == '\\',
    ensures
        unsafe_why(p + ".."@ + q) is Some,
{
    reveal_strlit("..");
    let n = p + ".."@ + q;
    let i = p.len() as int;
    assert(n[i] == '.' && n[i + 1] == '.');
    if i > 0 {
        assert(n[i - 1] == p.last());
    }
    if q.len() > 0 {
        assert(n[i + 2] == q[0]);
    }
    assert(dotdot_at(n, i));
}

/// A name holding a NUL character is unsafe for that reason first.
pub proof fn law_nul_names_are_unsafe(name: Seq<char>, j: int)
    requires
        0 <= j < name.len(),
        name[j] == '\0',
    ensures
        unsafe_why(name) == Some("contains NUL byte"@),
{
    assert(name.contains('\0'));
}

} // verus!
