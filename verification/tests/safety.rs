use backup_scan_tool::mbz::{EntryRead, MbzArchive, ZipBacked};
use backup_scan_tool::validate::codes;
use backup_scan_tool::validate::safety::{
    check_backup_id, check_contenthash_format, check_entry_names, unsafe_reason,
};
use backup_scan_tool::validate::Severity;

#[test]
fn flags_double_dot_component() {
    assert!(unsafe_reason("../etc/passwd").is_some());
    assert!(unsafe_reason("foo/../bar").is_some());
    assert!(unsafe_reason("foo/..").is_some());
}

#[test]
fn flags_absolute_paths() {
    assert!(unsafe_reason("/etc/passwd").is_some());
    assert!(unsafe_reason("\\windows\\system32").is_some());
}

#[test]
fn flags_drive_letter() {
    assert!(unsafe_reason("C:/Windows").is_some());
    assert!(unsafe_reason("z:foo").is_some());
}

#[test]
fn allows_normal_paths() {
    assert!(unsafe_reason("activities/assign_5/module.xml").is_none());
    assert!(unsafe_reason("files/aa/aaaa").is_none());
    assert!(unsafe_reason("moodle_backup.xml").is_none());
}

#[test]
fn backup_id_short_is_flagged() {
    let xml = br#"<moodle_backup><information><backup_id>abc</backup_id></information></moodle_backup>"#;
    let issues = check_backup_id(xml);
    assert_eq!(issues.len(), 1);
    assert_eq!(issues[0].code, codes::MANIFEST_BAD_BACKUPID);
}

#[test]
fn backup_id_valid_is_silent() {
    let xml = br#"<moodle_backup><information><backup_id>0123456789abcdef0123456789abcdef</backup_id></information></moodle_backup>"#;
    assert!(check_backup_id(xml).is_empty());
}

#[test]
fn contenthash_short_is_flagged() {
    let xml = br#"<files><file id="1"><contenthash>tooshort</contenthash></file></files>"#;
    let issues = check_contenthash_format(xml);
    assert_eq!(issues.len(), 1);
    assert_eq!(issues[0].code, codes::MANIFEST_BAD_CONTENTHASH);
}

#[test]
fn contenthash_valid_is_silent() {
    let xml = br#"<files>
            <file id="1"><contenthash>0123456789abcdef0123456789abcdef01234567</contenthash></file>
        </files>"#;
    assert!(check_contenthash_format(xml).is_empty());
}

#[test]
fn unsafe_reasons_are_ordered_and_named() {
    assert_eq!(unsafe_reason("a\0b"), Some("contains NUL byte"));
    assert_eq!(unsafe_reason("/a/../b"), Some("absolute path"));
    assert_eq!(unsafe_reason("c:.."), Some("Windows drive letter"));
    assert_eq!(unsafe_reason("a\\..\\b"), Some("contains \"..\" path component"));
    assert_eq!(unsafe_reason("a/..b/c"), None);
    assert_eq!(unsafe_reason("a/b../c"), None);
    assert_eq!(unsafe_reason("1:foo"), None);
    assert_eq!(unsafe_reason(""), None);
}

#[test]
fn backup_id_message_quotes_value_and_byte_length() {
    let xml = "<moodle_backup><backup_id>é</backup_id></moodle_backup>".as_bytes();
    let issues = check_backup_id(xml);
    assert_eq!(issues.len(), 1);
    assert_eq!(issues[0].severity, Severity::Error);
    assert_eq!(issues[0].xml_file, "moodle_backup.xml");
    assert_eq!(issues[0].location, "/moodle_backup/information/backup_id");
    assert_eq!(
        issues[0].message,
        "<backup_id> should be 32 hex characters, got \"é\" (length 2)"
    );
    // Only the first value is checked; a missing one is silent.
    assert!(check_backup_id(b"<moodle_backup></moodle_backup>").is_empty());
    let two = br#"<m><backup_id>0123456789abcdef0123456789abcdef</backup_id><backup_id>x</backup_id></m>"#;
    assert!(check_backup_id(two).is_empty());
}

#[test]
fn contenthash_summary_counts_bad_values() {
    let xml = br#"<files>
        <file><contenthash> zz </contenthash></file>
        <file><contenthash>0123456789abcdef0123456789abcdef01234567</contenthash></file>
        <file><contenthash>short</contenthash></file>
    </files>"#;
    let issues = check_contenthash_format(xml);
    assert_eq!(issues.len(), 1);
    assert_eq!(issues[0].xml_file, "files.xml");
    assert_eq!(issues[0].location, "/files");
    assert_eq!(
        issues[0].message,
        "2 <contenthash> values are not 40-hex sha1 (first: \"zz\", length 2)"
    );
    let one = br#"<files><file><contenthash>abc</contenthash></file></files>"#;
    assert_eq!(
        check_contenthash_format(one)[0].message,
        "<contenthash> value is not 40-hex sha1: \"abc\" (length 3)"
    );
}

#[test]
fn entry_names_are_checked_in_order() {
    let archive = MbzArchive::Zip(ZipBacked {
        path: "x.mbz".to_string(),
        names: vec![
            "ok.xml".to_string(),
            "../up.xml".to_string(),
            "/abs".to_string(),
        ],
        reads: vec![EntryRead { name: "ok.xml".to_string(), data: Ok(b"<a/>".to_vec()) }],
    });
    let issues = check_entry_names(&archive);
    assert_eq!(issues.len(), 2);
    assert_eq!(issues[0].code, codes::SAFETY_PATH_TRAVERSAL);
    assert_eq!(issues[0].xml_file, "../up.xml");
    assert_eq!(issues[0].location, "");
    assert_eq!(
        issues[0].message,
        "unsafe archive entry name: contains \"..\" path component"
    );
    assert_eq!(issues[1].message, "unsafe archive entry name: absolute path");
}

#[test]
fn drive_letter_anywhere_is_unsafe() {
    assert_eq!(unsafe_reason("aC:"), Some("Windows drive letter"));
    assert_eq!(unsafe_reason("files/x:y"), Some("Windows drive letter"));
    assert_eq!(unsafe_reason("a/b:"), Some("Windows drive letter"));
    assert_eq!(unsafe_reason("a/1:/b"), None);
    assert_eq!(unsafe_reason("a:"), Some("Windows drive letter"));
}
