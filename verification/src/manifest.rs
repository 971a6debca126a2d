//! Cross-XML integrity checks against the archive's entry list:
//!
//! - moodle_backup.xml lists activities/sections with directory paths; each
//!   referenced directory must have at least one entry inside the archive.
//! - files.xml lists files with contenthash; each hash must map to a
//!   `files/XX/HASH` entry in the archive (presence only, no payload reads).

use vstd::prelude::*;
use crate::mbz::MbzArchive;
use crate::text::{
    byte_len, byte_len_of, chars_of, chars_view, contains_chars, debug_of, debug_quoted, decimal,
    ends_with_str, has_prefix, has_suffix, push_chars, push_decimal, push_str, starts_with,
    chars_eq_str, string_of,
};
use crate::validate::codes;
use crate::validate::safety::{element_texts, extract_all_text};
use crate::validate::{issue_view, issues_view, Issue, IssueView, Severity};
use crate::xml::{lemma_scan_finish, scan, scan_all, XmlAttr, XmlCursor, XmlEvent};

verus! {

// ---------------------------------------------------------------------------
// Directories referenced by moodle_backup.xml

/// Elements whose `directory` attribute names an archive directory.
pub open spec fn is_dir_owner(n: Seq<char>) -> bool {
    n == "activity"@ || n == "section"@ || n == "course"@
}

/// Non-empty values of `directory` attributes, in order.
pub open spec fn directory_attrs(attrs: Seq<XmlAttr>) -> Seq<Seq<char>>
    decreases attrs.len(),
{
    if attrs.len() == 0 {
        Seq::empty()
    } else {
        let prev = directory_attrs(attrs.drop_last());
        let a = attrs.last();
        if a.key@ == "directory"@ && a.value@.len() > 0 {
            prev.push(a.value@)
        } else {
            prev
        }
    }
}

/// Reading state: the element whose text is being read, and the directories
/// found so far.
pub ghost struct DirScan {
    pub current: Option<Seq<char>>,
    pub out: Seq<Seq<char>>,
}

pub open spec fn dir_init() -> DirScan {
    DirScan { current: None, out: Seq::empty() }
}

/// `<activity|section|course directory="...">` (opening or self-closing)
/// contributes its attribute; the text of a `<directory>` element is taken
/// too.
pub open spec fn dir_step(s: DirScan, e: XmlEvent) -> DirScan {
    match e {
        XmlEvent::Start { name, attrs } => DirScan {
            current: Some(name@),
            out: if is_dir_owner(name@) { s.out + directory_attrs(attrs@) } else { s.out },
        },
        XmlEvent::Empty { name, attrs } => DirScan {
            current: s.current,
            out: if is_dir_owner(name@) { s.out + directory_attrs(attrs@) } else { s.out },
        },
        XmlEvent::Text { text } => if s.current == Some("directory"@) && text@.len() > 0 {
            DirScan { current: s.current, out: s.out.push(text@) }
        } else {
            s
        },
        XmlEvent::End { .. } => DirScan { current: None, out: s.out },
        _ => s,
    }
}

pub open spec fn dir_fn() -> spec_fn(DirScan, XmlEvent) -> DirScan {
    |s: DirScan, e: XmlEvent| dir_step(s, e)
}

/// Every directory moodle_backup.xml references, in document order.
pub open spec fn referenced_directories(src: Seq<u8>) -> Seq<Seq<char>> {
    scan_all(src, true, dir_init(), dir_fn()).0.out
}

fn is_dir_owner_exec(n: &[char]) -> (r: bool)
    ensures
        r == is_dir_owner(n@),
{
    chars_eq_str(n, "activity") || chars_eq_str(n, "section") || chars_eq_str(n, "course")
}

fn push_directory_attrs(out: &mut Vec<Vec<char>>, attrs: &Vec<XmlAttr>)
    ensures
        chars_view(final(out)@) == chars_view(old(out)@) + directory_attrs(attrs@),
{
    let ghost start = chars_view(out@);
    let mut i: usize = 0;
    assert(attrs@.take(0) =~= Seq::<XmlAttr>::empty());
    assert(chars_view(out@) =~= start + directory_attrs(attrs@.take(0)));
    while i < attrs.len()
        invariant
            i <= attrs@.len(),
            chars_view(out@) == start + directory_attrs(attrs@.take(i as int)),
        decreases attrs@.len() - i,
    {
        assert(attrs@.take(i as int + 1).drop_last() =~= attrs@.take(i as int));
        assert(attrs@.take(i as int + 1).last() == attrs@[i as int]);
        let a = &attrs[i];
        if chars_eq_str(a.key.as_slice(), "directory") && a.value.len() > 0 {
            let v = crate::text::copy_chars(a.value.as_slice());
            let ghost prev = out@;
            out.push(v);
            assert(chars_view(out@) =~= chars_view(prev).push(v@));
            assert(chars_view(out@) =~= start + directory_attrs(attrs@.take(i as int + 1)));
        }
        i += 1;
    }
    assert(attrs@.take(attrs@.len() as int) =~= attrs@);
}

/// The directories moodle_backup.xml references (see `referenced_directories`).
pub fn extract_referenced_directories(xml_bytes: &[u8]) -> (res: Vec<Vec<char>>)
    ensures
        chars_view(res@) == referenced_directories(xml_bytes@),
{
    let ghost step = dir_fn();
    let mut out: Vec<Vec<char>> = Vec::new();
    let mut current: Option<Vec<char>> = None;
    let mut cur = XmlCursor::open(xml_bytes, true);
    assert(chars_view(out@) =~= dir_init().out);
    loop
        invariant_except_break
            cur.src() == xml_bytes@,
            cur.trim(),
            cur.count() <= xml_bytes@.len(),
            step == dir_fn(),
            scan(xml_bytes@, true, cur.count(), dir_init(), step).1 is None,
            chars_view(out@) == scan(xml_bytes@, true, cur.count(), dir_init(), step).0.out,
            match current {
                Some(c) => scan(xml_bytes@, true, cur.count(), dir_init(), step).0.current == Some(c@),
                None => scan(xml_bytes@, true, cur.count(), dir_init(), step).0.current is None,
            },
        ensures
            chars_view(out@) == referenced_directories(xml_bytes@),
        decreases xml_bytes@.len() + 1 - cur.count(),
    {
        let ghost k = cur.count();
        let ev = cur.next();
        match ev {
            XmlEvent::Start { name, attrs } => {
                if is_dir_owner_exec(name.as_slice()) {
                    push_directory_attrs(&mut out, &attrs);
                }
                current = Some(name);
            },
            XmlEvent::Empty { name, attrs } => {
                if is_dir_owner_exec(name.as_slice()) {
                    push_directory_attrs(&mut out, &attrs);
                }
            },
            XmlEvent::Text { text } => {
                let in_dir = match &current {
                    Some(c) => chars_eq_str(c.as_slice(), "directory"),
                    None => false,
                };
                if in_dir && text.len() > 0 {
                    out.push(text);
                }
            },
            XmlEvent::End { .. } => {
                current = None;
            },
            XmlEvent::Eof | XmlEvent::Error { .. } => {
                proof {
                    lemma_scan_finish(xml_bytes@, true, k, dir_init(), step);
                }
                break;
            },
            _ => {},
        }
    }
    out
}

/// The prefix an entry inside directory `d` starts with.
pub open spec fn dir_prefix(d: Seq<char>) -> Seq<char> {
    if has_suffix(d, "/"@) {
        d
    } else {
        d + "/"@
    }
}

/// Some archive entry lives under directory `d`.
pub open spec fn has_entry_under(names: Seq<Seq<char>>, d: Seq<char>) -> bool {
    exists|i: int| 0 <= i < names.len() && has_prefix(#[trigger] names[i], dir_prefix(d))
}

/// One error per referenced directory with no entry under it.
pub open spec fn missing_dir_issues(dirs: Seq<Seq<char>>, names: Seq<Seq<char>>) -> Seq<IssueView>
    decreases dirs.len(),
{
    if dirs.len() == 0 {
        Seq::empty()
    } else {
        let prev = missing_dir_issues(dirs.drop_last(), names);
        let d = dirs.last();
        if has_entry_under(names, d) {
            prev
        } else {
            prev.push(
                issue_view(
                    codes::MANIFEST_MISSING_DIR@,
                    Severity::Error,
                    "moodle_backup.xml"@,
                    "/moodle_backup/.../directory="@ + d,
                    "manifest references directory "@ + debug_quoted(d)
                        + " but no zip entries live under it"@,
                ),
            )
        }
    }
}

fn has_entry_under_exec(names: &Vec<Vec<char>>, d: &[char]) -> (r: bool)
    ensures
        r == has_entry_under(chars_view(names@), d@),
{
    proof {
        reveal_strlit("/");
    }
    let mut prefix = crate::text::copy_chars(d);
    if !ends_with_str(d, "/") {
        push_str(&mut prefix, "/");
    }
    let ghost all = chars_view(names@);
    let mut i: usize = 0;
    while i < names.len()
        invariant
            i <= names@.len(),
            all == chars_view(names@),
            prefix@ == dir_prefix(d@),
            forall|j: int| 0 <= j < i ==> !has_prefix(#[trigger] all[j], dir_prefix(d@)),
        decreases names@.len() - i,
    {
        if starts_with(names[i].as_slice(), prefix.as_slice()) {
            assert(has_prefix(all[i as int], dir_prefix(d@)));
            return true;
        }
        i += 1;
    }
    false
}

/// One `MBZ-MANIFEST-MISSING-DIR` error for each directory moodle_backup.xml
/// references that has no archive entry under it, in document order.
pub fn check_moodle_backup_manifest(archive: &MbzArchive, xml_bytes: &[u8]) -> (res: Vec<Issue>)
    ensures
        issues_view(res@) == missing_dir_issues(
            referenced_directories(xml_bytes@),
            archive.entry_names(),
        ),
{
    let directories = extract_referenced_directories(xml_bytes);
    let names = archive.name_chars();
    let ghost dirs = chars_view(directories@);
    let ghost all = archive.entry_names();
    let mut issues: Vec<Issue> = Vec::new();
    let mut i: usize = 0;
    while i < directories.len()
        invariant
            i <= directories@.len(),
            dirs == chars_view(directories@),
            all == chars_view(names@),
            issues_view(issues@) == missing_dir_issues(dirs.take(i as int), all),
        decreases directories@.len() - i,
    {
        assert(dirs.take(i as int + 1).drop_last() =~= dirs.take(i as int));
        assert(dirs.take(i as int + 1).last() == directories@[i as int]@);
        let d = directories[i].as_slice();
        if !has_entry_under_exec(&names, d) {
            let mut loc = chars_of("/moodle_backup/.../directory=");
            push_chars(&mut loc, d);
            let mut msg = chars_of("manifest references directory ");
            let q = debug_of(d);
            push_chars(&mut msg, q.as_slice());
            push_str(&mut msg, " but no zip entries live under it");
            let issue = Issue::of_strs(codes::MANIFEST_MISSING_DIR, Severity::Error, "moodle_backup.xml", loc.as_slice(), msg.as_slice());
            issues.push(issue);
            assert(issues_view(issues@) =~= missing_dir_issues(dirs.take(i as int), all).push(issue@));
        }
        i += 1;
    }
    assert(dirs.take(directories@.len() as int) =~= dirs);
    issues
}

// ---------------------------------------------------------------------------
// Payloads referenced by files.xml

/// `&h[..2]`: the characters of the first two bytes of `h`'s encoding.
pub open spec fn byte_prefix2(h: Seq<char>) -> Seq<char> {
    vstd::utf8::decode_utf8(vstd::utf8::encode_utf8(h).subrange(0, 2))
}

/// `&h[..2]` is defined: `h` is shorter than two bytes (and then skipped) or
/// byte 2 starts a character.
pub open spec fn prefix2_defined(h: Seq<char>) -> bool {
    byte_len(h) < 2 || vstd::utf8::is_char_boundary(vstd::utf8::encode_utf8(h), 2)
}

/// Every `<contenthash>` value of files.xml can be cut after two bytes.
pub open spec fn payload_prefixes_defined(src: Seq<u8>) -> bool {
    forall|i: int|
        0 <= i < element_texts(src, "contenthash"@).len() ==> prefix2_defined(
            #[trigger] element_texts(src, "contenthash"@)[i],
        )
}

/// The archive entry that holds the payload of hash `h`.
pub open spec fn payload_entry(h: Seq<char>) -> Seq<char> {
    "files/"@ + byte_prefix2(h) + "/"@ + h
}

/// A hash of at least two bytes whose payload entry is not in the archive.
pub open spec fn missing_payload_pred(names: Seq<Seq<char>>) -> spec_fn(Seq<char>) -> bool {
    |h: Seq<char>| byte_len(h) >= 2 && !names.contains(payload_entry(h))
}

/// The hashes of files.xml whose payloads are missing, in order.
pub open spec fn missing_payloads(src: Seq<u8>, names: Seq<Seq<char>>) -> Seq<Seq<char>> {
    element_texts(src, "contenthash"@).filter(missing_payload_pred(names))
}

/// At most one error counting the missing payloads and naming the first.
pub open spec fn missing_payload_issues(src: Seq<u8>, names: Seq<Seq<char>>) -> Seq<IssueView> {
    let m = missing_payloads(src, names);
    if m.len() == 0 {
        Seq::empty()
    } else {
        seq![
            issue_view(
                codes::MANIFEST_MISSING_FILE_PAYLOAD@,
                Severity::Error,
                "files.xml"@,
                "/files"@,
                decimal(m.len()) + " contenthash(es) in files.xml have no matching files/XX/HASH entry (first: "@
                    + m[0] + ")"@,
            ),
        ]
    }
}

/// The payload entry name of hash `h` (at least two bytes long).
fn payload_entry_exec(h: &[char]) -> (r: Vec<char>)
    requires
        byte_len(h@) >= 2,
        prefix2_defined(h@),
    ensures
        r@ == payload_entry(h@),
{
    let s = string_of(h);
    let (p, _) = s.as_str().split_at(2);
    proof {
        vstd::utf8::encode_utf8_decode_utf8(p@);
    }
    let mut r = chars_of("files/");
    push_str(&mut r, p);
    push_str(&mut r, "/");
    push_chars(&mut r, h);
    r
}

/// Whether every `<contenthash>` value of `xml_bytes` can be cut after two
/// bytes, as `check_files_xml` does.
pub fn payload_prefixes_ok(xml_bytes: &[u8]) -> (r: bool)
    ensures
        r == payload_prefixes_defined(xml_bytes@),
{
    let hashes = extract_contenthashes(xml_bytes);
    let ghost all = chars_view(hashes@);
    let mut i: usize = 0;
    while i < hashes.len()
        invariant
            i <= hashes@.len(),
            all == chars_view(hashes@),
            all == element_texts(xml_bytes@, "contenthash"@),
            forall|j: int| 0 <= j < i ==> prefix2_defined(#[trigger] all[j]),
        decreases hashes@.len() - i,
    {
        let h = hashes[i].as_slice();
        assert(all[i as int] == h@);
        if byte_len_of(h) >= 2 {
            let s = string_of(h);
            if !s.as_str().is_char_boundary(2) {
                assert(!prefix2_defined(all[i as int]));
                return false;
            }
        }
        i += 1;
    }
    true
}

/// One `MBZ-MANIFEST-MISSING-FILE` error when some `<contenthash>` of
/// files.xml (of at least two bytes) has no `files/<first two bytes>/<hash>`
/// entry in the archive; it counts them and names the first.
pub fn check_files_xml(archive: &MbzArchive, xml_bytes: &[u8]) -> (res: Vec<Issue>)
    requires
        payload_prefixes_defined(xml_bytes@),
    ensures
        issues_view(res@) == missing_payload_issues(xml_bytes@, archive.entry_names()),
{
    let names = archive.name_chars();
    let hashes = extract_contenthashes(xml_bytes);
    let ghost all = chars_view(hashes@);
    let ghost entries = archive.entry_names();
    let mut missing: usize = 0;
    let mut first_missing: Option<usize> = None;
    let mut i: usize = 0;
    while i < hashes.len()
        invariant
            i <= hashes@.len(),
            all == chars_view(hashes@),
            all == element_texts(xml_bytes@, "contenthash"@),
            entries == chars_view(names@),
            payload_prefixes_defined(xml_bytes@),
            missing == all.take(i as int).filter(missing_payload_pred(entries)).len(),
            missing <= i,
            match first_missing {
                Some(f) => f < i && missing > 0 && all.take(i as int).filter(
                    missing_payload_pred(entries),
                )[0] == all[f as int],
                None => missing == 0,
            },
        decreases hashes@.len() - i,
    {
        let h = hashes[i].as_slice();
        assert(all[i as int] == h@);
        assert(prefix2_defined(all[i as int]));
        assert(all.take(i as int + 1).drop_last() =~= all.take(i as int));
        assert(all.take(i as int + 1).last() == all[i as int]);
        assert(all.take(i as int + 1).filter(missing_payload_pred(entries)) == (if missing_payload_pred(entries)(all[i as int]) {
            all.take(i as int).filter(missing_payload_pred(entries)).push(all[i as int])
        } else {
            all.take(i as int).filter(missing_payload_pred(entries))
        })) by {
            reveal(Seq::filter);
        }
        if byte_len_of(h) >= 2 {
            let expected = payload_entry_exec(h);
            if !contains_chars(&names, expected.as_slice()) {
                if first_missing.is_none() {
                    first_missing = Some(i);
                }
                missing += 1;
            }
        }
        i += 1;
    }
    assert(all.take(hashes@.len() as int) =~= all);
    match first_missing {
        None => {
            let v: Vec<Issue> = Vec::new();
            assert(issues_view(v@) =~= Seq::<IssueView>::empty());
            v
        },
        Some(f) => {
            let mut msg: Vec<char> = Vec::new();
            push_decimal(&mut msg, missing as u64);
            push_str(&mut msg, " contenthash(es) in files.xml have no matching files/XX/HASH entry (first: ");
            push_chars(&mut msg, hashes[f].as_slice());
            push_str(&mut msg, ")");
            let loc = chars_of("/files");
            let issue = Issue::of_strs(codes::MANIFEST_MISSING_FILE_PAYLOAD, Severity::Error, "files.xml", loc.as_slice(), msg.as_slice());
            let v = vec![issue];
            assert(issues_view(v@) =~= seq![issue@]);
            v
        },
    }
}

/// The `<contenthash>` values of files.xml (trimmed, non-empty), in order.
pub fn extract_contenthashes(xml_bytes: &[u8]) -> (res: Vec<Vec<char>>)
    ensures
        chars_view(res@) == element_texts(xml_bytes@, "contenthash"@),
{
    extract_all_text(xml_bytes, "contenthash")
}

/// A referenced directory `d` counts as present exactly when some entry
/// lives inside it: an entry name starting with `d` and a `/` (just `d` when
/// it already ends in `/`). An entry of a sibling whose name merely extends
/// `d` (`d` + "2/...") does not count; a missing directory yields one error
/// on moodle_backup.xml.
pub proof fn law_directory_needs_entry_inside(d: Seq<char>, names: Seq<Seq<char>>)
    ensures
        d.len() > 0 && d.last() != '/' ==> (missing_dir_issues(seq![d], names).len() == 0 <==> exists|i: int|
            0 <= i < names.len() && has_prefix(#[trigger] names[i], d + "/"@)),
        d.len() > 0 && d.last() == '/' ==> (missing_dir_issues(seq![d], names).len() == 0 <==> exists|i: int|
            0 <= i < names.len() && has_prefix(#[trigger] names[i], d)),
        missing_dir_issues(seq![d], names).len() <= 1,
        missing_dir_issues(seq![d], names).len() == 1 ==> {
            &&& missing_dir_issues(seq![d], names)[0].code == codes::MANIFEST_MISSING_DIR@
            &&& missing_dir_issues(seq![d], names)[0].severity == Severity::Error
            &&& missing_dir_issues(seq![d], names)[0].xml_file == "moodle_backup.xml"@
        },
{
    reveal_strlit("/");
    let one = seq![d];
    assert(one.drop_last() =~= Seq::<Seq<char>>::empty());
    assert(one.last() == d);
    assert(missing_dir_issues(one.drop_last(), names) == Seq::<IssueView>::empty());
    if d.len() > 0 {
        if d.last() != '/' {
            assert(!has_suffix(d, "/"@)) by {
                if has_suffix(d, "/"@) {
                    assert(d.subrange(d.len() - 1, d.len() as int)[0] == d.last());
                }
            }
            assert(dir_prefix(d) == d + "/"@);
        } else {
            assert(has_suffix(d, "/"@)) by {
                assert(d.subrange(d.len() - 1, d.len() as int) =~= "/"@);
            }
            assert(dir_prefix(d) == d);
        }
    }
    if has_entry_under(names, d) {
        assert(missing_dir_issues(one, names) == Seq::<IssueView>::empty());
    } else {
        assert(missing_dir_issues(one, names).len() == 1);
    }
}

/// Every character is `0`-`9`, `a`-`f` or `A`-`F`.
pub open spec fn hex_text(s: Seq<char>) -> bool {
    forall|j: int| 0 <= j < s.len() ==> {
        let c = #[trigger] s[j];
        ('0' <= c && c <= '9') || ('a' <= c && c <= 'f') || ('A' <= c && c <= 'F')
    }
}

/// The payload entry of a hex hash `h`: `files/<its first two>/<h>`.
proof fn lemma_hex_payload_entry(h: Seq<char>)
    requires
        hex_text(h),
        h.len() <= usize::MAX,
    ensures
        byte_len(h) == h.len(),
        h.len() >= 2 ==> payload_entry(h) == "files/"@ + h.take(2) + "/"@ + h,
{
    assert(crate::text::all_hex(h)) by {
        assert forall|j: int| 0 <= j < h.len() implies crate::text::is_hex_digit(#[trigger] h[j]) by {
            let c = h[j];
            assert(('0' <= c && c <= '9') || ('a' <= c && c <= 'f') || ('A' <= c && c <= 'F'));
        }
    }
    crate::text::lemma_hex_byte_len(h);
    if h.len() >= 2 {
        let p = h.take(2);
        assert(vstd::utf8::is_ascii_chars(h)) by {
            assert forall|j: int| 0 <= j < h.len() implies '\0' <= #[trigger] h[j] <= '\u{7f}' by {
                assert(crate::text::is_hex_digit(h[j]));
            }
        }
        assert(vstd::utf8::is_ascii_chars(p));
        vstd::utf8::is_ascii_chars_encode_utf8(h);
        vstd::utf8::is_ascii_chars_encode_utf8(p);
        assert(vstd::utf8::encode_utf8(h).subrange(0, 2) =~= vstd::utf8::encode_utf8(p)) by {
            assert(vstd::utf8::encode_utf8(h)[0] == h[0] as u8);
            assert(vstd::utf8::encode_utf8(h)[1] == h[1] as u8);
            assert(vstd::utf8::encode_utf8(p)[0] == p[0] as u8);
            assert(vstd::utf8::encode_utf8(p)[1] == p[1] as u8);
        }
        vstd::utf8::encode_utf8_decode_utf8(p);
    }
}

/// When every `<contenthash>` value of files.xml is hex and each one of two
/// or more characters has its `files/<first two>/<hash>` entry in the
/// archive, files.xml gets no missing-payload error.
pub proof fn law_present_payloads_are_silent(src: Seq<u8>, names: Seq<Seq<char>>)
    requires
        forall|i: int| 0 <= i < element_texts(src, "contenthash"@).len() ==> {
            let h = #[trigger] element_texts(src, "contenthash"@)[i];
            &&& hex_text(h)
            &&& h.len() <= usize::MAX
            &&& h.len() >= 2 ==> names.contains("files/"@ + h.take(2) + "/"@ + h)
        },
    ensures
        missing_payload_issues(src, names) == Seq::<IssueView>::empty(),
{
    let all = element_texts(src, "contenthash"@);
    let pred = missing_payload_pred(names);
    if missing_payloads(src, names).len() > 0 {
        all.lemma_filter_pred(pred, 0);
        let h = all.filter(pred)[0];
        assert(all.filter(pred).contains(h));
        all.lemma_filter_contains_rev(pred, h);
        let k = choose|k: int| 0 <= k < all.len() && all[k] == h;
        lemma_hex_payload_entry(h);
        assert(false);
    }
}

/// A hex `<contenthash>` of two or more characters whose
/// `files/<first two>/<hash>` entry is not in the archive makes files.xml
/// get one missing-payload error.
pub proof fn law_missing_payload_is_reported(src: Seq<u8>, names: Seq<Seq<char>>, i: int)
    requires
        0 <= i < element_texts(src, "contenthash"@).len(),
        hex_text(element_texts(src, "contenthash"@)[i]),
        2 <= element_texts(src, "contenthash"@)[i].len() <= usize::MAX,
        !names.contains(
            "files/"@ + element_texts(src, "contenthash"@)[i].take(2) + "/"@ + element_texts(src, "contenthash"@)[i],
        ),
    ensures
        missing_payload_issues(src, names).len() == 1,
        missing_payload_issues(src, names)[0].code == codes::MANIFEST_MISSING_FILE_PAYLOAD@,
        missing_payload_issues(src, names)[0].severity == Severity::Error,
        missing_payload_issues(src, names)[0].xml_file == "files.xml"@,
{
    let all = element_texts(src, "contenthash"@);
    lemma_hex_payload_entry(all[i]);
    assert(missing_payload_pred(names)(all[i]));
    all.lemma_filter_contains(missing_payload_pred(names), i);
}

} // verus!
