use backup_scan_tool::mbz::{EntryRead, MbzArchive, ZipBacked};
use backup_scan_tool::report::MbzResult;
use backup_scan_tool::scanner::{scan_completes, scan_mbz, scan_mbz_checked};
use backup_scan_tool::xmldb_shared::{Field, FieldType, Schema, Table};

/// An archive as a ZIP reader would present it: every entry name, and the
/// contents of the XML entries.
fn make_mbz(name: &str, files: &[(&str, &[u8])]) -> (String, MbzArchive) {
    let path = format!("/tmp/{}", name);
    let names: Vec<String> = files.iter().map(|(n, _)| n.to_string()).collect();
    let reads: Vec<EntryRead> = files
        .iter()
        .filter(|(n, _)| n.ends_with(".xml"))
        .map(|(n, b)| EntryRead { name: n.to_string(), data: Ok(b.to_vec()) })
        .collect();
    (path.clone(), MbzArchive::Zip(ZipBacked { path, names, reads }))
}

fn scan(name: &str, files: &[(&str, &[u8])], schema: &Schema) -> MbzResult {
    let (path, archive) = make_mbz(name, files);
    assert!(scan_completes(&archive));
    scan_mbz(&path, Ok(archive), schema, false)
}

fn course_schema() -> Schema {
    let field = |name: &str, ty: FieldType, length: Option<u32>| Field {
        name: name.to_string(),
        ty,
        length,
        decimals: None,
        notnull: true,
        sequence: false,
        default: None,
    };
    Schema {
        tables: vec![Table {
            name: "course".to_string(),
            fields: vec![
                field("id", FieldType::Int, Some(10)),
                field("fullname", FieldType::Char, Some(254)),
                field("shortname", FieldType::Char, Some(255)),
            ],
            plugin_path: "lib".to_string(),
            aliases: Vec::new(),
        }],
    }
}

#[test]
fn well_formed_minimal_mbz_has_no_parse_errors() {
    let s = course_schema();
    let result = scan(
        "good.mbz",
        &[(
            "moodle_backup.xml",
            br#"<?xml version="1.0"?><moodle_backup><information><name>x</name></information></moodle_backup>"# as &[u8],
        )],
        &s,
    );
    assert!(result.fatal.is_none());
    assert!(
        !result.issues.iter().any(|i| i.code == "MBZ-XML-PARSE"),
        "unexpected parse errors: {:?}",
        result.issues
    );
}

#[test]
fn malformed_xml_is_reported() {
    let s = course_schema();
    let result = scan(
        "bad.mbz",
        &[(
            "moodle_backup.xml",
            br#"<?xml version="1.0"?><moodle_backup><name>x</moodle_backup>"# as &[u8],
        )],
        &s,
    );
    assert!(result.errors() >= 1);
    assert!(result.issues.iter().any(|i| i.message.contains("XML parse error")));
}

#[test]
fn files_xml_missing_contenthash_reports() {
    let files_xml = r#"<?xml version="1.0"?><files><file id="1">
        <contenthash>abcdef0123456789abcdef0123456789abcdef01</contenthash>
        <contextid>1</contextid>
        <component>core</component>
        <filearea>area</filearea>
        <itemid>0</itemid>
        <filepath>/</filepath>
        <filename>x.txt</filename>
        <userid>1</userid>
        <filesize>1</filesize>
        <mimetype>text/plain</mimetype>
        <status>0</status>
        <source>$@NULL@$</source>
        <author>$@NULL@$</author>
        <license>$@NULL@$</license>
        <timecreated>0</timecreated>
        <timemodified>0</timemodified>
        <sortorder>0</sortorder>
        <referencefileid>$@NULL@$</referencefileid>
    </file></files>"#;
    let s = course_schema();
    let result = scan("files.mbz", &[("files.xml", files_xml.as_bytes())], &s);
    assert!(result
        .issues
        .iter()
        .any(|i| i.message.contains("contenthash") && i.xml_file == "files.xml"));
}

#[test]
fn manifest_directory_missing_in_zip_reports() {
    let backup_xml = r#"<?xml version="1.0"?><moodle_backup><information>
        <contents><activities>
            <activity><moduleid>1</moduleid><modulename>assign</modulename>
                <title>x</title><directory>activities/assign_99</directory></activity>
        </activities></contents>
    </information></moodle_backup>"#;
    let s = course_schema();
    let result = scan("manifest.mbz", &[("moodle_backup.xml", backup_xml.as_bytes())], &s);
    assert!(result.issues.iter().any(|i| i.message.contains("activities/assign_99")));
}

#[test]
fn inforef_dangling_user_reference_is_detected() {
    let users_xml = r#"<?xml version="1.0"?><users>
        <user id="1"><username>a</username></user>
    </users>"#;
    let inforef_xml = r#"<?xml version="1.0"?><inforef>
        <userref>
            <user><id>1</id></user>
            <user><id>99</id></user>
        </userref>
    </inforef>"#;
    let s = course_schema();
    let result = scan(
        "xref.mbz",
        &[
            ("users.xml", users_xml.as_bytes()),
            ("activities/assign_5/inforef.xml", inforef_xml.as_bytes()),
        ],
        &s,
    );
    let xref = result
        .issues
        .iter()
        .find(|i| i.code == "MBZ-XREF-MISSING-USER")
        .expect("expected XREF-MISSING-USER");
    assert_eq!(xref.xml_file, "activities/assign_5/inforef.xml");
    assert!(xref.message.contains("99"), "msg: {}", xref.message);
}

#[test]
fn inforef_silent_when_source_xml_absent() {
    let inforef_xml = r#"<?xml version="1.0"?><inforef>
        <userref><user><id>1</id></user></userref>
    </inforef>"#;
    let s = course_schema();
    let result = scan(
        "xref_silent.mbz",
        &[("activities/assign_5/inforef.xml", inforef_xml.as_bytes())],
        &s,
    );
    assert!(
        !result.issues.iter().any(|i| i.code.starts_with("MBZ-XREF-MISSING")),
        "expected no xref issues, got: {:?}",
        result.issues
    );
}

#[test]
fn shape_missing_activity_file_is_reported() {
    let backup_xml = r#"<?xml version="1.0"?><moodle_backup><information>
        <contents>
          <activities>
            <activity>
              <moduleid>1</moduleid>
              <modulename>assign</modulename>
              <title>x</title>
              <directory>activities/assign_5</directory>
            </activity>
          </activities>
        </contents>
    </information></moodle_backup>"#;
    let s = course_schema();
    let result = scan(
        "shape.mbz",
        &[
            ("moodle_backup.xml", backup_xml.as_bytes()),
            (
                "activities/assign_5/inforef.xml",
                br#"<?xml version="1.0"?><inforef></inforef>"# as &[u8],
            ),
        ],
        &s,
    );
    let missing: Vec<_> = result
        .issues
        .iter()
        .filter(|i| i.code == "MBZ-SHAPE-MISSING-ACTIVITY-FILE")
        .collect();
    assert!(
        missing
            .iter()
            .any(|i| i.message.contains("module.xml") && i.message.contains("assign_5")),
        "expected module.xml missing for assign_5, got: {:?}",
        missing
    );
}

#[test]
fn shape_missing_users_xml_when_setting_enabled() {
    let backup_xml = r#"<?xml version="1.0"?><moodle_backup><information>
        <settings>
          <setting>
            <level>root</level>
            <name>users</name>
            <value>1</value>
          </setting>
        </settings>
    </information></moodle_backup>"#;
    let s = course_schema();
    let result = scan("users.mbz", &[("moodle_backup.xml", backup_xml.as_bytes())], &s);
    assert!(
        result.issues.iter().any(|i| i.code == "MBZ-SHAPE-MISSING-ROOT-FILE"
            && i.message.contains("users.xml")
            && i.message.contains("users=1")),
        "expected users.xml gated-missing issue, got: {:?}",
        result.issues
    );
}

#[test]
fn orphan_file_payload_in_zip_is_warned() {
    let files_xml = r#"<?xml version="1.0"?><files></files>"#;
    let orphan_name = "files/aa/aabbccddeeff00112233445566778899aabbccdd";
    let s = course_schema();
    let result = scan(
        "orphan.mbz",
        &[
            ("files.xml", files_xml.as_bytes()),
            (orphan_name, b"binary payload bytes"),
        ],
        &s,
    );
    assert!(
        result.issues.iter().any(|i| i.code == "MBZ-ORPHAN-FILE-PAYLOAD"),
        "expected orphan payload warning, got: {:?}",
        result.issues
    );
}

#[test]
fn unsafe_archive_entry_name_is_flagged() {
    let s = course_schema();
    let result = scan(
        "evil.mbz",
        &[
            (
                "moodle_backup.xml",
                br#"<?xml version="1.0"?><moodle_backup></moodle_backup>"# as &[u8],
            ),
            ("../../../etc/passwd", b"hostile"),
        ],
        &s,
    );
    assert!(
        result.issues.iter().any(|i| i.code == "MBZ-SAFETY-PATH-TRAVERSAL"),
        "expected path traversal flag, got: {:?}",
        result.issues
    );
}

#[test]
fn course_field_length_violation_is_detected() {
    let s = course_schema();
    let course = s.table("course").expect("course table");
    let fullname = course
        .fields
        .iter()
        .find(|f| f.name == "fullname")
        .expect("fullname field");
    let max = fullname.length.expect("char field has length") as usize;
    let too_long = "X".repeat(max + 5);
    let xml = format!(
        r#"<?xml version="1.0"?><course id="1"><fullname>{}</fullname></course>"#,
        too_long
    );
    let result = scan("course.mbz", &[("course/course.xml", xml.as_bytes())], &s);
    assert!(
        result
            .issues
            .iter()
            .any(|i| { i.message.contains("fullname") && i.message.contains("exceeds LENGTH") }),
        "expected length error, got: {:?}",
        result.issues
    );
}

#[test]
fn failed_open_is_reported_as_fatal() {
    let s = course_schema();
    let r = scan_mbz("/tmp/broken.mbz", Err("could not open archive".to_string()), &s, false);
    assert_eq!(r.fatal.as_deref(), Some("could not open archive"));
    assert_eq!(r.xml_count, 0);
    assert!(r.issues.is_empty());
    assert_eq!(r.path, "/tmp/broken.mbz");
}

#[test]
fn unreadable_entry_is_reported_and_scan_continues() {
    let s = course_schema();
    let archive = MbzArchive::Zip(ZipBacked {
        path: "/tmp/r.mbz".to_string(),
        names: vec!["a.xml".to_string(), "b.xml".to_string(), "files/".to_string()],
        reads: vec![
            EntryRead { name: "a.xml".to_string(), data: Err("decompressing a.xml: bad".to_string()) },
            EntryRead { name: "b.xml".to_string(), data: Ok(b"<b/>".to_vec()) },
        ],
    });
    let r = scan_mbz("/tmp/r.mbz", Ok(archive), &s, false);
    assert_eq!(r.xml_count, 2);
    assert_eq!(r.issues.len(), 1);
    assert_eq!(r.issues[0].code, "MBZ-ARCHIVE-ENTRY-READ");
    assert_eq!(r.issues[0].xml_file, "a.xml");
    assert_eq!(r.issues[0].message, "could not read entry: decompressing a.xml: bad");
}

#[test]
fn inforef_before_its_source_is_still_checked() {
    let s = course_schema();
    let result = scan(
        "order.mbz",
        &[
            (
                "sections/section_1/inforef.xml",
                br#"<inforef><roleref><role><id>3</id></role></roleref></inforef>"# as &[u8],
            ),
            ("roles.xml", br#"<roles><role id="4"/></roles>"# as &[u8]),
        ],
        &s,
    );
    let xref: Vec<_> = result.issues.iter().filter(|i| i.code == "MBZ-XREF-MISSING-ROLE").collect();
    assert_eq!(xref.len(), 1, "got: {:?}", result.issues);
    assert_eq!(xref[0].xml_file, "sections/section_1/inforef.xml");
}

#[test]
fn non_ascii_contenthash_prefix_is_detected() {
    let (_, archive) = make_mbz(
        "cut.mbz",
        &[("files.xml", "<files><contenthash>aé0</contenthash></files>".as_bytes())],
    );
    assert!(!scan_completes(&archive));
    let (_, fine) = make_mbz(
        "ok.mbz",
        &[("files.xml", "<files><contenthash>éa0</contenthash></files>".as_bytes())],
    );
    assert!(scan_completes(&fine));
}

#[test]
fn checked_scan_refuses_uncuttable_hashes_and_scans_otherwise() {
    let s = course_schema();
    let (path, cut) = make_mbz(
        "cut.mbz",
        &[("files.xml", "<files><contenthash>aé0</contenthash></files>".as_bytes())],
    );
    assert!(scan_mbz_checked(&path, Ok(cut), &s, false).is_none());
    let failed = scan_mbz_checked("/tmp/x.mbz", Err("boom".to_string()), &s, false).unwrap();
    assert_eq!(failed.fatal.as_deref(), Some("boom"));
    let files: &[(&str, &[u8])] = &[(
        "moodle_backup.xml",
        br#"<moodle_backup><information><name>x</name></information></moodle_backup>"#,
    )];
    let (path, ok) = make_mbz("ok.mbz", files);
    let checked = scan_mbz_checked(&path, Ok(ok), &s, false).unwrap();
    let plain = scan("ok.mbz", files, &s);
    assert_eq!(checked.issues.len(), plain.issues.len());
    assert_eq!(checked.xml_count, plain.xml_count);
    assert!(checked.fatal.is_none());
}
