use backup_scan_tool::validate::structure::{check, StructureOptions};
use backup_scan_tool::validate::{Issue, Severity};
use backup_scan_tool::xmldb_shared::{Field, FieldType, Schema, Table};

fn field(name: &str, ty: FieldType, length: Option<u32>, decimals: Option<u32>, notnull: bool, sequence: bool) -> Field {
    Field {
        name: name.to_string(),
        ty,
        length,
        decimals,
        notnull,
        sequence,
        default: None,
    }
}

fn sample_schema() -> Schema {
    let fields = vec![
        field("id", FieldType::Int, Some(10), None, true, true),
        field("name", FieldType::Char, Some(10), None, true, false),
        field("grade", FieldType::Number, Some(5), Some(2), false, false),
        field("count", FieldType::Int, Some(10), None, true, false),
        field("intro", FieldType::Text, None, None, false, false),
    ];
    Schema {
        tables: vec![Table {
            name: "widget".to_string(),
            fields,
            plugin_path: "mod/widget".to_string(),
            aliases: Vec::new(),
        }],
    }
}

fn run(xml: &str) -> Vec<Issue> {
    let s = sample_schema();
    check("test.xml", xml.as_bytes(), &s, &StructureOptions::default())
}

#[test]
fn happy_path_no_issues() {
    let xml = r#"<activity><widget id="1">
            <name>hi</name>
            <count>3</count>
            <grade>12.34</grade>
            <intro>anything goes</intro>
        </widget></activity>"#;
    assert!(run(xml).is_empty());
}

#[test]
fn char_too_long_reports_error() {
    let xml = r#"<widget id="1">
            <name>this-is-definitely-too-long</name>
        </widget>"#;
    let issues = run(xml);
    assert!(issues
        .iter()
        .any(|i| { i.severity == Severity::Error && i.message.contains("char field <name>") }));
}

#[test]
fn int_non_numeric_errors() {
    let xml = r#"<widget id="1"><count>abc</count></widget>"#;
    let issues = run(xml);
    assert!(issues.iter().any(|i| i.message.contains("non-integer value")));
}

#[test]
fn null_sentinel_on_notnull_errors() {
    let xml = r#"<widget id="1"><name>$@NULL@$</name></widget>"#;
    let issues = run(xml);
    assert!(issues.iter().any(|i| i.message.contains("$@NULL@$ sentinel")));
}

#[test]
fn unknown_leaf_warns() {
    let xml = r#"<widget id="1"><whatsthis>oops</whatsthis></widget>"#;
    let issues = run(xml);
    assert!(issues
        .iter()
        .any(|i| i.severity == Severity::Warning && i.message.contains("<whatsthis>")));
}

#[test]
fn wrapper_element_with_same_name_as_field_is_silent() {
    let xml = r#"<widget id="1">
            <intro><note>nested</note></intro>
        </widget>"#;
    let issues = run(xml);
    assert!(issues.is_empty(), "unexpected: {:?}", issues);
}

#[test]
fn element_without_id_is_not_a_row() {
    let xml = r#"<widget>
            <name>x</name>
            <foo>123</foo>
        </widget>"#;
    let issues = run(xml);
    assert!(issues.is_empty(), "no-id element shouldn't be validated: {:?}", issues);
}

#[test]
fn nested_table_reference_is_silent() {
    let xml = r#"<widget id="1">
            <name>x</name>
            <count><deeplything>1</deeplything></count>
        </widget>"#;
    let issues = run(xml);
    assert!(issues.is_empty(), "unexpected: {:?}", issues);
}

#[test]
fn number_precision_check() {
    let xml = r#"<widget id="1"><grade>123.456</grade></widget>"#;
    let issues = run(xml);
    assert!(issues.iter().any(|i| i.message.contains("precision 6")));
    assert!(issues.iter().any(|i| i.message.contains("fractional digits 3")));
}

#[test]
fn alias_resolves_to_field_and_validates() {
    let mut s = sample_schema();
    s.tables[0]
        .aliases
        .push(("count_alias".to_string(), "count".to_string()));

    let xml = r#"<widget id="1"><count_alias>abc</count_alias></widget>"#;
    let issues = check("t.xml", xml.as_bytes(), &s, &StructureOptions::default());
    assert!(
        issues
            .iter()
            .any(|i| i.severity == Severity::Error && i.message.contains("non-integer value")),
        "expected int-validation error via alias, got: {:?}",
        issues
    );
    assert!(
        !issues.iter().any(|i| i.message.contains("unknown leaf")),
        "should not emit unknown-leaf when alias resolves: {:?}",
        issues
    );
}

#[test]
fn cross_table_allowlist_silences_known_emissions() {
    let s = Schema {
        tables: vec![Table {
            name: "course".to_string(),
            fields: vec![
                field("id", FieldType::Int, Some(10), None, true, true),
                field("fullname", FieldType::Char, Some(254), None, true, false),
            ],
            plugin_path: "lib".to_string(),
            aliases: Vec::new(),
        }],
    };
    let xml = r#"<course id="1"><numsections>5</numsections></course>"#;
    let issues = check("test.xml", xml.as_bytes(), &s, &StructureOptions::default());
    assert!(
        !issues.iter().any(|i| i.message.contains("numsections")),
        "numsections should be silenced by allowlist: {:?}",
        issues
    );
}

#[test]
fn missing_notnull_field_is_silent() {
    let xml = r#"<widget id="1"><intro>x</intro></widget>"#;
    assert!(run(xml).is_empty());
}

#[test]
fn strict_mode_promotes_unknown_leaf() {
    let s = sample_schema();
    let xml = r#"<widget id="1"><whatsthis>oops</whatsthis></widget>"#;
    let issues = check("test.xml", xml.as_bytes(), &s, &StructureOptions { strict: true });
    assert_eq!(issues.len(), 1);
    assert_eq!(issues[0].severity, Severity::Error);
    assert_eq!(issues[0].xml_file, "test.xml");
}

#[test]
fn rows_without_id_attributes_yield_nothing() {
    let xml = r#"<widget><count>abc</count><name>this-is-definitely-too-long</name></widget>"#;
    assert!(run(xml).is_empty());
}

#[test]
fn strict_check_equals_lenient_check_with_unknown_leaves_raised() {
    let s = sample_schema();
    let xml = r#"<widget id="1"><count>x</count><mystery>a</mystery><name>this-is-too-long</name><other>b</other></widget>"#;
    let lenient = check("t.xml", xml.as_bytes(), &s, &StructureOptions { strict: false });
    let strict = check("t.xml", xml.as_bytes(), &s, &StructureOptions { strict: true });
    assert_eq!(lenient.len(), 4);
    assert_eq!(strict.len(), lenient.len());
    for (a, b) in strict.iter().zip(lenient.iter()) {
        assert_eq!(a.code, b.code);
        assert_eq!(a.location, b.location);
        assert_eq!(a.message, b.message);
        assert_eq!(a.severity, Severity::Error);
    }
    assert_eq!(lenient.iter().filter(|i| i.severity == Severity::Warning).count(), 2);
}
