use backup_scan_tool::mbz::{EntryRead, MbzArchive, ZipBacked};
use backup_scan_tool::validate::codes;
use backup_scan_tool::validate::completeness::{
    check, check_orphan_files, dir_basename, parse_file_payload_entry, parse_manifest, Manifest,
};
use backup_scan_tool::validate::Severity;

fn archive_with(names: &[&str]) -> MbzArchive {
    MbzArchive::Zip(ZipBacked {
        path: "t.mbz".to_string(),
        names: names.iter().map(|n| n.to_string()).collect(),
        reads: Vec::new(),
    })
}

#[test]
fn parses_manifest_with_activities_and_settings() {
    let xml = br#"<?xml version="1.0"?><moodle_backup>
          <information>
            <contents>
              <activities>
                <activity>
                  <moduleid>1</moduleid>
                  <modulename>assign</modulename>
                  <title>x</title>
                  <directory>activities/assign_5</directory>
                </activity>
              </activities>
              <sections>
                <section>
                  <sectionid>3</sectionid>
                  <title>s</title>
                  <directory>sections/section_3</directory>
                </section>
              </sections>
            </contents>
            <settings>
              <setting><level>root</level><name>users</name><value>1</value></setting>
              <setting><level>root</level><name>badges</name><value>0</value></setting>
              <setting>
                <level>activity</level>
                <activity>assign_5</activity>
                <name>filters</name>
                <value>1</value>
              </setting>
              <setting>
                <level>activity</level>
                <activity>assign_5</activity>
                <name>userscompletion</name>
                <value>0</value>
              </setting>
            </settings>
          </information>
        </moodle_backup>"#;
    let m = parse_manifest(xml);
    assert_eq!(m.activities.len(), 1);
    assert_eq!(m.activities[0].directory, "activities/assign_5");
    assert_eq!(m.activities[0].modulename, "assign");
    assert_eq!(m.sections.len(), 1);
    assert_eq!(m.sections[0].directory, "sections/section_3");
}

#[test]
fn parses_settings_in_attribute_form() {
    let xml = br#"<?xml version="1.0"?><moodle_backup>
          <information>
            <settings>
              <setting>
                <level>root</level>
                <name>users</name>
                <value>1</value>
              </setting>
            </settings>
          </information>
        </moodle_backup>"#;
    let m = parse_manifest(xml);
    assert_eq!(m.root_settings.get("users").map(|s| s.as_str()), Some("1"));
}

#[test]
fn dir_basename_strips_path() {
    assert_eq!(dir_basename("activities/assign_5"), "assign_5");
    assert_eq!(dir_basename("sections/section_3"), "section_3");
    assert_eq!(dir_basename("plain"), "plain");
}

#[test]
fn parse_file_payload_entry_validates_format() {
    let h = "aabbccddeeff00112233445566778899aabbccdd";
    let entry = format!("files/aa/{}", h);
    assert_eq!(parse_file_payload_entry(&entry), Some(h));

    let entry = format!("files/zz/{}", h);
    assert!(parse_file_payload_entry(&entry).is_none());

    let entry = format!("files/aa/{}", "bbccddeeff00112233445566778899aabbccddee");
    assert!(parse_file_payload_entry(&entry).is_none());

    assert!(parse_file_payload_entry("files/aa/short").is_none());
}

#[test]
fn manifest_parse_error_gives_empty_manifest() {
    let xml = br#"<moodle_backup><activities><activity><directory>activities/a_1</directory></activity></activities><x></moodle_backup>"#;
    let m = parse_manifest(xml);
    assert!(m.activities.is_empty());
    assert!(m.root_settings.get("users").is_none());
}

#[test]
fn later_setting_replaces_earlier_and_case_is_ignored() {
    let xml = br#"<moodle_backup><settings>
        <setting><level>root</level><name>users</name><value>0</value></setting>
        <setting><level>root</level><name>users</name><value> TRUE </value></setting>
        <setting><level>section</level><section>section_3</section><name>userinfo</name><value>1</value></setting>
    </settings></moodle_backup>"#;
    let m = parse_manifest(xml);
    assert_eq!(m.root_settings.get("users").map(|s| s.as_str()), Some("TRUE"));
    assert!(Manifest::setting_is_on(&m.root_settings, "users"));
    assert!(!Manifest::setting_is_on(&m.root_settings, "badges"));
    assert_eq!(
        m.per_section_settings.get("section_3", "userinfo").map(|s| s.as_str()),
        Some("1")
    );
}

#[test]
fn required_activity_files_follow_settings() {
    let xml = br#"<moodle_backup><settings>
        <setting><level>activity</level><activity>assign_5</activity><name>logs</name><value>1</value></setting>
        <setting><level>activity</level><activity>assign_5</activity><name>filters</name><value>yes</value></setting>
    </settings></moodle_backup>"#;
    let m = parse_manifest(xml);
    assert_eq!(
        m.required_activity_files("assign_5"),
        vec!["module.xml", "roles.xml", "grades.xml", "inforef.xml", "logs.xml", "logstores.xml"]
    );
    assert_eq!(
        m.required_activity_files("quiz_1"),
        vec!["module.xml", "roles.xml", "grades.xml", "inforef.xml"]
    );
}

#[test]
fn shape_check_reports_sections_and_root_files() {
    let xml = br#"<moodle_backup><information><contents>
        <sections><section><directory>sections/section_3</directory></section></sections>
    </contents><settings>
        <setting><level>root</level><name>badges</name><value>1</value></setting>
    </settings></information></moodle_backup>"#;
    let m = parse_manifest(xml);
    let archive = archive_with(&[
        "sections/section_3/section.xml",
        "groups.xml",
        "questions.xml",
        "roles.xml",
        "gradebook.xml",
        "completion.xml",
        "scales.xml",
        "outcomes.xml",
        "files.xml",
    ]);
    let issues = check(&archive, &m);
    let msgs: Vec<&str> = issues.iter().map(|i| i.message.as_str()).collect();
    assert_eq!(
        msgs,
        vec![
            "section \"sections/section_3\" is missing required file inforef.xml",
            "required root XML moodle_backup.xml is missing from the archive",
            "root setting badges=1 implies badges.xml should be present, but it is missing",
        ]
    );
    assert_eq!(issues[0].code, codes::SHAPE_MISSING_SECTION_FILE);
    assert_eq!(issues[0].location, "/moodle_backup/.../section[directory=sections/section_3]");
    assert_eq!(issues[1].code, codes::SHAPE_MISSING_ROOT_FILE);
    assert_eq!(issues[1].location, "/moodle_backup");
    assert_eq!(issues[2].location, "/moodle_backup/.../setting[name=badges]");
}

#[test]
fn orphans_are_listed_up_to_five() {
    let mut names = Vec::new();
    let mut hashes = Vec::new();
    for i in 0..7u32 {
        let h = format!("aa{:038x}", i);
        names.push(format!("files/aa/{}", h));
        hashes.push(h);
    }
    names.push("files/bb/not-a-hash".to_string());
    let referenced = format!("<files><file><contenthash>{}</contenthash></file></files>", hashes[0]);
    let archive = MbzArchive::Zip(ZipBacked {
        path: "o.mbz".to_string(),
        names: names.clone(),
        reads: vec![EntryRead { name: "files.xml".to_string(), data: Ok(referenced.clone().into_bytes()) }],
    });
    let issues = check_orphan_files(&archive, referenced.as_bytes());
    assert_eq!(issues.len(), 1);
    assert_eq!(issues[0].severity, Severity::Warning);
    assert_eq!(issues[0].code, codes::ORPHAN_FILE_PAYLOAD);
    let expected = format!(
        "6 file payload(s) in zip have no <contenthash> in files.xml: {}, {}, {}, {}, {} (and 1 more)",
        hashes[1], hashes[2], hashes[3], hashes[4], hashes[5]
    );
    assert_eq!(issues[0].message, expected);
    // Every referenced payload is silent.
    let all: String = hashes.iter().map(|h| format!("<contenthash>{}</contenthash>", h)).collect();
    let all = format!("<files>{}</files>", all);
    assert!(check_orphan_files(&archive, all.as_bytes()).is_empty());
}

#[test]
fn parses_settings_written_as_attributes() {
    let xml = br#"<?xml version="1.0"?><moodle_backup><information><settings><setting level="root" name="users" value="1"/></settings></information></moodle_backup>"#;
    let m = parse_manifest(xml);
    assert_eq!(m.root_settings.get("users").map(|s| s.as_str()), Some("1"));

    let xml = br#"<moodle_backup><information><settings>
        <setting level="activity" activity="assign_5" name="filters" value="1"/>
        <setting level="section" section="section_3" name="userinfo" value="0"/>
        <setting level="root" name="badges" value="0"><value>1</value></setting>
        <setting level="activity" name="logs" value="1"/>
    </settings></information></moodle_backup>"#;
    let m = parse_manifest(xml);
    assert_eq!(
        m.per_activity_settings.get("assign_5", "filters").map(|s| s.as_str()),
        Some("1")
    );
    assert_eq!(
        m.per_section_settings.get("section_3", "userinfo").map(|s| s.as_str()),
        Some("0")
    );
    assert_eq!(m.root_settings.get("badges").map(|s| s.as_str()), Some("1"));
    assert!(m.per_activity_settings.get("", "logs").is_none());
}

#[test]
fn payload_entry_names_round_trip() {
    let h = "0123456789ABCDEFabcdef0123456789abcdef01";
    let entry = format!("files/{}/{}", &h[..2], h);
    assert_eq!(parse_file_payload_entry(&entry), Some(h));
    assert!(parse_file_payload_entry(&format!("files/02/{}", h)).is_none());
    assert!(parse_file_payload_entry(&format!("files/01/{}x", h)).is_none());
    assert!(parse_file_payload_entry(&format!("file/01/{}", h)).is_none());
}
