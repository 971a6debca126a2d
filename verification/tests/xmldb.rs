use backup_scan_tool::xmldb_shared::{parse_install_xml, FieldType, LoadOutcome, Schema, Table};

const SAMPLE: &str = r#"<?xml version="1.0" encoding="UTF-8" ?>
<XMLDB PATH="mod/sample/db">
  <TABLES>
    <TABLE NAME="sample" COMMENT="x">
      <FIELDS>
        <FIELD NAME="id" TYPE="int" LENGTH="10" NOTNULL="true" SEQUENCE="true"/>
        <FIELD NAME="name" TYPE="char" LENGTH="255" NOTNULL="true" SEQUENCE="false"/>
        <FIELD NAME="grade" TYPE="number" LENGTH="10" DECIMALS="5" NOTNULL="false" SEQUENCE="false"/>
        <FIELD NAME="intro" TYPE="text" NOTNULL="false" SEQUENCE="false" DEFAULT="ignored-on-text"/>
        <FIELD NAME="status" TYPE="int" LENGTH="2" NOTNULL="true" DEFAULT="0" SEQUENCE="false"/>
        <FIELD NAME="weight" TYPE="float" LENGTH="20" NOTNULL="false" SEQUENCE="false"/>
        <FIELD NAME="data" TYPE="binary" NOTNULL="false" SEQUENCE="false"/>
      </FIELDS>
    </TABLE>
  </TABLES>
</XMLDB>"#;

fn field<'a>(t: &'a Table, name: &str) -> &'a backup_scan_tool::xmldb_shared::Field {
    t.fields
        .iter()
        .find(|f| f.name.to_ascii_lowercase() == name)
        .expect("field present")
}

#[test]
fn parses_all_field_types() {
    let tables = parse_install_xml(SAMPLE.as_bytes()).unwrap();
    assert_eq!(tables.len(), 1);
    let t = &tables[0];
    assert_eq!(t.name, "sample");
    assert_eq!(t.fields.len(), 7);

    let id = field(t, "id");
    assert_eq!(id.ty, FieldType::Int);
    assert_eq!(id.length, Some(10));
    assert!(id.notnull);
    assert!(id.sequence);

    let name = field(t, "name");
    assert_eq!(name.ty, FieldType::Char);
    assert_eq!(name.length, Some(255));

    let grade = field(t, "grade");
    assert_eq!(grade.ty, FieldType::Number);
    assert_eq!(grade.length, Some(10));
    assert_eq!(grade.decimals, Some(5));
    assert!(!grade.notnull);

    let intro = field(t, "intro");
    assert_eq!(intro.ty, FieldType::Text);
    assert!(intro.length.is_none());
    assert!(intro.default.is_none());

    let status = field(t, "status");
    assert_eq!(status.default.as_deref(), Some("0"));

    let weight = field(t, "weight");
    assert_eq!(weight.ty, FieldType::Float);
    assert_eq!(weight.length, Some(20));

    let data = field(t, "data");
    assert_eq!(data.ty, FieldType::Binary);
    assert!(data.length.is_none());
}

#[test]
fn install_xml_parse_error_is_reported() {
    let err = parse_install_xml(b"<XMLDB><TABLES></XMLDB>").unwrap_err();
    assert!(err.starts_with("xml error at position "), "got: {}", err);
}

#[test]
fn duplicate_field_replaces_and_unnamed_table_is_dropped() {
    let xml = br#"<XMLDB><TABLES>
        <TABLE NAME="t"><FIELDS>
            <FIELD NAME="a" TYPE="int" LENGTH="4"/>
            <FIELD NAME="A" TYPE="char" LENGTH="+7" NOTNULL="TRUE"/>
            <FIELD NAME="b" TYPE="bogus"/>
            <FIELD TYPE="int"/>
        </FIELDS></TABLE>
        <TABLE><FIELDS><FIELD NAME="x" TYPE="int"/></FIELDS></TABLE>
    </TABLES></XMLDB>"#;
    let tables = parse_install_xml(xml).unwrap();
    assert_eq!(tables.len(), 1);
    assert_eq!(tables[0].fields.len(), 1);
    let a = &tables[0].fields[0];
    assert_eq!(a.name, "A");
    assert_eq!(a.ty, FieldType::Char);
    assert_eq!(a.length, Some(7));
    assert!(a.notnull);
    assert!(!a.sequence);
}

#[test]
fn merge_keeps_first_definition() {
    let mut schema = Schema::default();
    let first = parse_install_xml(br#"<XMLDB><TABLES><TABLE NAME="Course"><FIELDS><FIELD NAME="id" TYPE="int"/></FIELDS></TABLE></TABLES></XMLDB>"#).unwrap();
    let outcomes = schema.merge_tables(first, "lib");
    assert!(matches!(outcomes[0], LoadOutcome::Inserted));
    let second = parse_install_xml(br#"<XMLDB><TABLES><TABLE NAME="course"/><TABLE NAME="other"><FIELDS></FIELDS></TABLE></TABLES></XMLDB>"#).unwrap();
    assert_eq!(second.len(), 1);
    let second = parse_install_xml(br#"<XMLDB><TABLES><TABLE NAME="course"></TABLE><TABLE NAME="other"></TABLE></TABLES></XMLDB>"#).unwrap();
    let outcomes = schema.merge_tables(second, "mod/x");
    match &outcomes[0] {
        LoadOutcome::Conflict { existing_plugin } => assert_eq!(existing_plugin, "lib"),
        other => panic!("unexpected {:?}", other),
    }
    assert!(matches!(outcomes[1], LoadOutcome::Inserted));
    assert_eq!(schema.tables.len(), 2);
    let course = schema.table("COURSE").expect("course");
    assert_eq!(course.plugin_path, "lib");
    assert_eq!(course.fields.len(), 1);
    assert_eq!(schema.table("other").unwrap().plugin_path, "mod/x");
}

#[test]
fn field_type_names_ignore_case() {
    assert_eq!(FieldType::from_xmldb("INT"), Some(FieldType::Int));
    assert_eq!(FieldType::from_xmldb("Timestamp"), Some(FieldType::Timestamp));
    assert_eq!(FieldType::from_xmldb("integer"), None);
}

#[test]
fn merge_install_xml_parses_and_merges_or_reports() {
    let mut schema = Schema::default();
    let outcomes = schema
        .merge_install_xml(
            br#"<XMLDB><TABLES><TABLE NAME="forum"><FIELDS><FIELD NAME="id" TYPE="int"/></FIELDS></TABLE></TABLES></XMLDB>"#,
            "/moodle/mod/forum/db/install.xml",
            "mod/forum",
        )
        .unwrap();
    assert_eq!(outcomes.len(), 1);
    assert!(matches!(outcomes[0], LoadOutcome::Inserted));
    assert_eq!(schema.table("forum").unwrap().plugin_path, "mod/forum");

    let err = schema
        .merge_install_xml(b"<XMLDB><TABLES></XMLDB>", "/moodle/bad/db/install.xml", "bad")
        .unwrap_err();
    assert!(err.starts_with("parse /moodle/bad/db/install.xml: xml error at position "), "{}", err);
    assert_eq!(schema.tables.len(), 1);
}

#[test]
fn repeated_field_names_keep_one_column_per_key() {
    let tables = parse_install_xml(
        br#"<XMLDB><TABLES><TABLE NAME="t"><FIELDS>
            <FIELD NAME="ID" TYPE="int"/>
            <FIELD NAME="name" TYPE="char" LENGTH="5"/>
            <FIELD NAME="id" TYPE="char" LENGTH="9"/>
        </FIELDS></TABLE></TABLES></XMLDB>"#,
    )
    .unwrap();
    assert_eq!(tables[0].fields.len(), 2);
    assert_eq!(tables[0].fields[0].name, "id");
    assert_eq!(tables[0].fields[0].ty, FieldType::Char);
    assert_eq!(tables[0].fields[0].length, Some(9));
}
