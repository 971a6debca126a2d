use backup_scan_tool::validate::codes;
use backup_scan_tool::validate::well_formed::check;

#[test]
fn well_formed_returns_none() {
    let xml = br#"<?xml version="1.0"?><a><b>x</b></a>"#;
    assert!(check("t.xml", xml).is_none());
}

#[test]
fn unclosed_tag_returns_error() {
    let xml = br#"<?xml version="1.0"?><a><b>x</a>"#;
    let issue = check("t.xml", xml).expect("expected error");
    assert!(issue.message.contains("XML parse error"));
}

#[test]
fn parse_error_names_file_and_byte_position() {
    let xml = br#"<a></b>"#;
    let issue = check("dir/t.xml", xml).expect("expected error");
    assert_eq!(issue.code, codes::XML_PARSE);
    assert_eq!(issue.xml_file, "dir/t.xml");
    assert!(issue.location.starts_with("byte "));
    assert!(issue.location["byte ".len()..].parse::<u64>().is_ok());
}
