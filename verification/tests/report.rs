use backup_scan_tool::report::{collect_rule_ids, MbzResult, Report};
use backup_scan_tool::validate::{codes, Issue};

fn err(code: &'static str, file: &str, loc: &str, msg: &str) -> Issue {
    Issue::error(code, file.to_string(), loc.to_string(), msg.to_string())
}

fn warn(code: &'static str, file: &str, loc: &str, msg: &str) -> Issue {
    Issue::warning(code, file.to_string(), loc.to_string(), msg.to_string())
}

#[test]
fn many_char_overflows_cap_in_text_output() {
    let issues: Vec<Issue> = (0..200)
        .map(|i| {
            Issue::error(
                codes::STRUCT_CHAR_OVERFLOW,
                "course/course.xml".to_string(),
                format!("/course/row[{}]/fullname", i),
                format!("char field <fullname> length 300 exceeds LENGTH=\"254\" (row {})", i),
            )
        })
        .collect();
    let r = Report {
        results: vec![MbzResult {
            path: "/tmp/big.mbz".to_string(),
            xml_count: 1,
            fatal: None,
            issues,
        }],
    };
    let s = r.print_text(false, false, 5);
    let verbatim = s
        .matches("[ERROR] [MBZ-STRUCT-CHAR-OVERFLOW] course/course.xml:/course/row[")
        .count();
    assert_eq!(verbatim, 5, "expected 5 verbatim lines, got {} in:\n{}", verbatim, s);
    assert!(
        s.contains("and 195 more issue(s) with this code"),
        "expected summary line, got:\n{}",
        s
    );
}

fn sample_report() -> Report {
    Report {
        results: vec![
            MbzResult {
                path: "/tmp/x.mbz".to_string(),
                xml_count: 3,
                fatal: None,
                issues: vec![
                    err(codes::XML_PARSE, "b.xml", "byte 3", "m1"),
                    warn(codes::STRUCT_UNKNOWN_LEAF, "a.xml", "/a", "m2"),
                    err(codes::XML_PARSE, "b.xml", "byte 9", "m3"),
                    err(codes::XML_PARSE, "a.xml", "byte 1", "m4"),
                    warn(codes::STRUCT_UNKNOWN_LEAF, "a.xml", "/b", "m5"),
                    err(codes::XML_PARSE, "b.xml", "byte 12", "m6"),
                ],
            },
            MbzResult {
                path: "/tmp/y.mbz".to_string(),
                xml_count: 0,
                fatal: Some("could not open archive".to_string()),
                issues: Vec::new(),
            },
        ],
    }
}

#[test]
fn text_report_exact_rendering() {
    let r = sample_report();
    assert_eq!(r.total_errors(), 4);
    assert_eq!(r.total_warnings(), 2);
    assert_eq!(r.fatal_count(), 1);
    let s = r.print_text(false, false, 1);
    let lines = [
        "== /tmp/x.mbz ==".to_string(),
        "  scanned 3 XML file(s) \u{2014} 4 error(s), 2 warning(s)".to_string(),
        "  [ERROR] [MBZ-XML-PARSE] b.xml:byte 3 m1".to_string(),
        "  [WARN ] [MBZ-STRUCT-UNKNOWN-LEAF] a.xml:/a m2".to_string(),
        "  [ERROR] [MBZ-XML-PARSE] a.xml:byte 1 m4".to_string(),
        "  [WARN ] [MBZ-STRUCT-UNKNOWN-LEAF] a.xml: ... and 1 more issue(s) with this code".to_string(),
        "  [ERROR] [MBZ-XML-PARSE] b.xml: ... and 2 more issue(s) with this code".to_string(),
        "== /tmp/y.mbz ==".to_string(),
        "  FATAL: could not open archive".to_string(),
        "".to_string(),
        "Total: 2 MBZ file(s) scanned, 4 error(s), 2 warning(s), 1 fatal".to_string(),
        "".to_string(),
        "Top issue codes:".to_string(),
        format!("  {:<36} errors={:<6} warnings={}", "MBZ-XML-PARSE", 4, 0),
        format!("  {:<36} errors={:<6} warnings={}", "MBZ-STRUCT-UNKNOWN-LEAF", 0, 2),
    ];
    let mut expected = lines.join("\n");
    expected.push('\n');
    assert_eq!(s, expected);
}

#[test]
fn quiet_and_uncapped_rendering() {
    let r = sample_report();
    let quiet = r.print_text(false, true, 1);
    assert!(!quiet.contains("[ERROR]"));
    assert!(quiet.contains("  scanned 3 XML file(s)"));
    let all = r.print_text(false, false, 0);
    assert_eq!(all.matches("[ERROR] [MBZ-XML-PARSE]").count(), 4);
    assert!(!all.contains("more issue(s)"));
}

#[test]
fn colored_rendering_uses_ansi_codes() {
    let r = sample_report();
    let s = r.print_text(true, true, 5);
    assert!(s.starts_with("\u{1b}[1m== /tmp/x.mbz ==\u{1b}[0m\n"), "got: {:?}", s);
    assert!(s.contains("\u{1b}[31m  FATAL: could not open archive\u{1b}[39m\n"));
    assert!(s.contains("\u{1b}[1m\u{1b}[31m\nTotal: 2 MBZ file(s) scanned"));
    let clean = Report {
        results: vec![MbzResult { path: "p".to_string(), xml_count: 0, fatal: None, issues: Vec::new() }],
    };
    let c = clean.print_text(true, false, 5);
    assert!(c.ends_with("\u{1b}[32m\nTotal: 1 MBZ file(s) scanned, 0 error(s), 0 warning(s), 0 fatal\u{1b}[39m\n"), "got: {:?}", c);
    let warned = Report {
        results: vec![MbzResult {
            path: "p".to_string(),
            xml_count: 1,
            fatal: None,
            issues: vec![warn(codes::STRUCT_UNKNOWN_LEAF, "a.xml", "/a", "m")],
        }],
    };
    let w = warned.print_text(true, false, 5);
    assert!(w.contains("\u{1b}[33m  [WARN ] [MBZ-STRUCT-UNKNOWN-LEAF] a.xml:/a m\u{1b}[39m\n"), "got: {:?}", w);
    assert!(w.contains("\u{1b}[33m\nTotal: 1 MBZ file(s) scanned, 0 error(s), 1 warning(s), 0 fatal\u{1b}[39m\n"));
}

#[test]
fn capped_buckets_account_for_every_issue() {
    let issues: Vec<Issue> = (0..7)
        .map(|i| err(codes::STRUCT_INT_INVALID, "t.xml", &format!("/r[{}]", i), "bad"))
        .collect();
    let r = Report {
        results: vec![MbzResult { path: "p".to_string(), xml_count: 1, fatal: None, issues }],
    };
    let s = r.print_text(false, false, 3);
    assert_eq!(s.matches("[ERROR] [MBZ-STRUCT-INT-INVALID] t.xml:/r[").count(), 3);
    assert!(s.contains("t.xml: ... and 4 more issue(s) with this code"));
}

#[test]
fn error_and_warning_counts() {
    let r = sample_report();
    assert_eq!(r.results[0].errors(), 4);
    assert_eq!(r.results[0].warnings(), 2);
    assert_eq!(r.results[1].errors(), 0);
    assert_eq!(Report::default().fatal_count(), 0);
}

#[test]
fn rule_ids_are_sorted_and_unique() {
    let r = sample_report();
    assert_eq!(
        collect_rule_ids(&r.results[0]),
        vec![codes::STRUCT_UNKNOWN_LEAF, codes::XML_PARSE]
    );
    assert_eq!(collect_rule_ids(&r.results[1]), vec![codes::ARCHIVE_FATAL]);
}

#[test]
fn top_codes_list_at_most_ten() {
    let all = [
        codes::STRUCT_CHAR_OVERFLOW,
        codes::STRUCT_INT_INVALID,
        codes::STRUCT_INT_OVERFLOW,
        codes::STRUCT_NUMBER_INVALID,
        codes::STRUCT_NUMBER_PRECISION,
        codes::STRUCT_NUMBER_DECIMALS,
        codes::STRUCT_FLOAT_INVALID,
        codes::STRUCT_NOTNULL_VIOLATION,
        codes::STRUCT_UNKNOWN_LEAF,
        codes::XML_PARSE,
        codes::MANIFEST_MISSING_DIR,
        codes::MANIFEST_MISSING_FILE_PAYLOAD,
    ];
    let issues: Vec<Issue> = all.iter().map(|c| err(c, "f.xml", "", "m")).collect();
    let r = Report {
        results: vec![MbzResult { path: "p".to_string(), xml_count: 1, fatal: None, issues }],
    };
    let s = r.print_text(false, true, 5);
    let top = s.split("Top issue codes:\n").nth(1).expect("top codes");
    let lines: Vec<&str> = top.lines().collect();
    assert_eq!(lines.len(), 10);
    assert!(lines[0].starts_with("  MBZ-MANIFEST-MISSING-DIR "));
    assert!(lines[9].starts_with("  MBZ-STRUCT-NUMBER-PRECISION "));
}
