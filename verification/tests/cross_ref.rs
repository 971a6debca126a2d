use backup_scan_tool::validate::codes;
use backup_scan_tool::validate::Severity;
use backup_scan_tool::validate::cross_ref::{
    check_inforef, ingest_activity_grades, is_inforef, ReferenceIndex,
};

#[test]
fn ingest_users_indexes_ids() {
    let mut idx = ReferenceIndex::default();
    idx.ingest(
        "users.xml",
        br#"<users>
                <user id="1"><username>a</username></user>
                <user id="2"><username>b</username></user>
            </users>"#,
    );
    assert!(idx.users.contains(&1));
    assert!(idx.users.contains(&2));
    assert!(idx.present.contains("users.xml"));
}

#[test]
fn ingest_groups_picks_up_both_group_and_grouping() {
    let mut idx = ReferenceIndex::default();
    idx.ingest(
        "groups.xml",
        br#"<groups_and_groupings>
                <groups>
                    <group id="10"><name>g1</name></group>
                </groups>
                <groupings>
                    <grouping id="20"><name>gg1</name></grouping>
                </groupings>
            </groups_and_groupings>"#,
    );
    assert!(idx.groups.contains(&10));
    assert!(idx.groupings.contains(&20));
}

#[test]
fn missing_user_in_inforef_is_reported() {
    let mut idx = ReferenceIndex::default();
    idx.ingest(
        "users.xml",
        br#"<users><user id="1"><username>a</username></user></users>"#,
    );
    let inforef = br#"<inforef>
            <userref>
                <user><id>1</id></user>
                <user><id>99</id></user>
            </userref>
        </inforef>"#;
    let issues = check_inforef("activities/assign_5/inforef.xml", inforef, &idx);
    assert_eq!(issues.len(), 1);
    assert_eq!(issues[0].code, codes::XREF_MISSING_USER);
    assert!(issues[0].message.contains("99"));
    assert!(!issues[0].message.contains("1,") && !issues[0].message.ends_with(": 1"));
}

#[test]
fn missing_source_xml_suppresses_inforef_reports() {
    let idx = ReferenceIndex::default();
    let inforef = br#"<inforef><userref><user><id>1</id></user></userref></inforef>"#;
    let issues = check_inforef("activities/assign_5/inforef.xml", inforef, &idx);
    assert!(issues.is_empty(), "got: {:?}", issues);
}

#[test]
fn file_ref_missing_is_reported() {
    let mut idx = ReferenceIndex::default();
    idx.ingest(
        "files.xml",
        br#"<files><file id="1"><filename>x</filename></file></files>"#,
    );
    let inforef = br#"<inforef><fileref><file><id>7</id></file></fileref></inforef>"#;
    let issues = check_inforef("activities/assign_5/inforef.xml", inforef, &idx);
    assert_eq!(issues.len(), 1);
    assert_eq!(issues[0].code, codes::XREF_MISSING_FILE);
}

#[test]
fn happy_path_inforef_yields_no_issues() {
    let mut idx = ReferenceIndex::default();
    idx.ingest(
        "users.xml",
        br#"<users><user id="5"><username>a</username></user></users>"#,
    );
    idx.ingest(
        "files.xml",
        br#"<files><file id="33"><filename>x</filename></file></files>"#,
    );
    let inforef = br#"<inforef>
            <userref><user><id>5</id></user></userref>
            <fileref><file><id>33</id></file></fileref>
        </inforef>"#;
    let issues = check_inforef("activities/assign_5/inforef.xml", inforef, &idx);
    assert!(issues.is_empty(), "got: {:?}", issues);
}

#[test]
fn many_misses_cap_with_summary() {
    let mut idx = ReferenceIndex::default();
    idx.ingest("users.xml", br#"<users></users>"#);
    let mut body = String::from("<inforef><userref>");
    for i in 1..=10u64 {
        body.push_str(&format!("<user><id>{}</id></user>", i));
    }
    body.push_str("</userref></inforef>");
    let issues = check_inforef("activities/assign_5/inforef.xml", body.as_bytes(), &idx);
    assert_eq!(issues.len(), 1);
    assert!(issues[0].message.contains("and 5 more"));
}

#[test]
fn nested_id_outside_inforef_wrapper_is_ignored() {
    let idx = ReferenceIndex::default();
    let xml = br#"<inforef><foo><id>123</id></foo></inforef>"#;
    let issues = check_inforef("activities/assign_5/inforef.xml", xml, &idx);
    assert!(issues.is_empty());
}

#[test]
fn activity_grades_count_as_gradebook() {
    let mut idx = ReferenceIndex::default();
    ingest_activity_grades(
        &mut idx,
        br#"<activity_gradebook><grade_items><grade_item id="7"/></grade_items></activity_gradebook>"#,
    );
    assert!(idx.grade_items.contains(&7));
    assert!(idx.present.contains("gradebook.xml"));
    let inforef = br#"<inforef><grade_itemref><grade_item><id>7</id></grade_item><grade_item><id>8</id></grade_item></grade_itemref></inforef>"#;
    let issues = check_inforef("activities/quiz_1/inforef.xml", inforef, &idx);
    assert_eq!(issues.len(), 1);
    assert_eq!(issues[0].code, codes::XREF_MISSING_GRADE_ITEM);
    assert!(issues[0].message.ends_with(": 8"));
}

#[test]
fn inforef_names_are_recognised() {
    assert!(is_inforef("inforef.xml"));
    assert!(is_inforef("sections/section_3/inforef.xml"));
    assert!(!is_inforef("activities/x/myinforef.xml"));
    assert!(!is_inforef("inforef.xml.bak"));
}

#[test]
fn every_kind_reports_in_kind_order_with_exact_text() {
    let mut idx = ReferenceIndex::default();
    idx.ingest(
        "groups.xml",
        br#"<groups_and_groupings><groups><group id="1"/></groups><groupings><grouping id="2"/></groupings></groups_and_groupings>"#,
    );
    idx.ingest("roles.xml", br#"<roles><role id="3"/></roles>"#);
    idx.ingest("scales.xml", br#"<scales_definition><scale id="4"/></scales_definition>"#);
    idx.ingest("outcomes.xml", br#"<outcomes_definition><outcome id="5"/></outcomes_definition>"#);
    idx.ingest(
        "questions.xml",
        br#"<question_categories><question_category id="6"/></question_categories>"#,
    );
    let inforef = br#"<inforef>
            <question_categoryref><question_category><id>60</id></question_category></question_categoryref>
            <outcomeref><outcome><id>50</id></outcome></outcomeref>
            <scaleref><scale><id>40</id></scale><scale><id>4</id></scale></scaleref>
            <groupingref><grouping><id>20</id></grouping></groupingref>
            <groupref><group><id>10</id></group><group><id>11</id></group></groupref>
            <roleref><role><id>30</id></role></roleref>
        </inforef>"#;
    let issues = check_inforef("course/inforef.xml", inforef, &idx);
    let codes_seen: Vec<&str> = issues.iter().map(|i| i.code).collect();
    assert_eq!(
        codes_seen,
        vec![
            codes::XREF_MISSING_ROLE,
            codes::XREF_MISSING_GROUP,
            codes::XREF_MISSING_GROUPING,
            codes::XREF_MISSING_SCALE,
            codes::XREF_MISSING_OUTCOME,
            codes::XREF_MISSING_QUESTION_CATEGORY,
        ]
    );
    assert_eq!(issues[1].message, "inforef references 2 group id(s) absent from groups.xml: 10, 11");
    assert_eq!(issues[1].location, "/inforef/groupref");
    assert_eq!(issues[2].message, "inforef references 1 grouping id(s) absent from groups.xml: 20");
    assert_eq!(issues[3].message, "inforef references 1 scale id(s) absent from scales.xml: 40");
    assert_eq!(issues[4].location, "/inforef/outcomeref");
    assert_eq!(
        issues[5].message,
        "inforef references 1 question_category id(s) absent from questions.xml: 60"
    );
    assert_eq!(issues[5].location, "/inforef/question_categoryref");
    assert!(issues.iter().all(|i| i.xml_file == "course/inforef.xml"));
    assert!(issues.iter().all(|i| i.severity == Severity::Error));
}

#[test]
fn non_numeric_ids_are_skipped() {
    let mut idx = ReferenceIndex::default();
    idx.ingest("users.xml", br#"<users></users>"#);
    let inforef = br#"<inforef><userref><user><id>abc</id></user><user><id> 7 </id></user></userref></inforef>"#;
    let issues = check_inforef("inforef.xml", inforef, &idx);
    assert_eq!(issues.len(), 1);
    assert_eq!(issues[0].message, "inforef references 1 user id(s) absent from users.xml: 7");
}

#[test]
fn ingest_of_unknown_entry_changes_nothing_and_known_entry_marks_itself() {
    let mut idx = ReferenceIndex::default();
    idx.ingest("course/course.xml", br#"<users><user id="1"/></users>"#);
    assert!(idx.users.is_empty());
    assert!(!idx.present.contains("course/course.xml"));
    assert!(!idx.present.contains("users.xml"));
    idx.ingest("groups.xml", br#"<groups><group id="4"/></groups><groupings><grouping id="5"/></groupings>"#);
    assert!(idx.groups.contains(&4) && idx.groupings.contains(&5));
    assert!(idx.present.contains("groups.xml"));
    assert!(!idx.present.contains("users.xml"));
    assert!(idx.users.is_empty() && idx.files.is_empty());
}
