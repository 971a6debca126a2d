use backup_scan_tool::report::{MbzResult, Report};
use backup_scan_tool::sarif::{issue_to_sarif_result, mbz_to_sarif_run};
use backup_scan_tool::validate::{codes, Issue};

fn err(code: &'static str, file: &str, loc: &str, msg: &str) -> Issue {
    Issue::error(code, file.to_string(), loc.to_string(), msg.to_string())
}

fn warn(code: &'static str, file: &str, loc: &str, msg: &str) -> Issue {
    Issue::warning(code, file.to_string(), loc.to_string(), msg.to_string())
}

#[test]
fn sarif_runs_carry_results_and_sorted_rule_ids() {
    let r = Report {
        results: vec![MbzResult {
            path: "/tmp/x.mbz".to_string(),
            xml_count: 3,
            fatal: None,
            issues: vec![
                err(codes::STRUCT_CHAR_OVERFLOW, "course/course.xml", "/course/fullname", "too long"),
                warn(codes::STRUCT_UNKNOWN_LEAF, "course/course.xml", "", "unknown"),
                err(codes::STRUCT_CHAR_OVERFLOW, "course/course.xml", "/course/shortname", "too long"),
            ],
        }],
    };
    let runs = r.sarif_runs();
    assert_eq!(runs.len(), 1);
    let run = &runs[0];
    assert_eq!(run.mbz, "/tmp/x.mbz");
    assert_eq!(run.xml_count, 3);
    assert_eq!(run.rules, vec![codes::STRUCT_CHAR_OVERFLOW, codes::STRUCT_UNKNOWN_LEAF]);
    assert_eq!(run.results.len(), 3);
    let first = &run.results[0];
    assert_eq!(first.rule_id, codes::STRUCT_CHAR_OVERFLOW);
    assert_eq!(first.level, "error");
    assert_eq!(first.message, "too long");
    assert_eq!(first.uri, "course/course.xml");
    assert_eq!(first.region.as_deref(), Some("/course/fullname"));
    assert_eq!(first.logical.as_deref(), Some("/course/fullname"));
    assert_eq!(
        first.fingerprint,
        "MBZ-STRUCT-CHAR-OVERFLOW|/tmp/x.mbz|course/course.xml|/course/fullname"
    );
    let second = &run.results[1];
    assert_eq!(second.level, "warning");
    assert!(second.region.is_none());
    assert_eq!(second.logical.as_deref(), Some(""));
}

#[test]
fn fatal_result_comes_first_without_locations() {
    let r = MbzResult {
        path: "/tmp/broken.mbz".to_string(),
        xml_count: 0,
        fatal: Some("could not open archive".to_string()),
        issues: vec![warn(codes::ORPHAN_FILE_PAYLOAD, "files.xml", "", "orphan")],
    };
    let run = mbz_to_sarif_run(&r);
    assert_eq!(run.results.len(), 2);
    let fatal = &run.results[0];
    assert_eq!(fatal.rule_id, "MBZ-ARCHIVE-FATAL");
    assert_eq!(fatal.level, "error");
    assert_eq!(fatal.message, "could not open archive");
    assert_eq!(fatal.uri, "/tmp/broken.mbz");
    assert!(fatal.region.is_none() && fatal.logical.is_none());
    assert_eq!(fatal.fingerprint, "MBZ-ARCHIVE-FATAL:/tmp/broken.mbz");
    assert_eq!(run.rules, vec![codes::ARCHIVE_FATAL, codes::ORPHAN_FILE_PAYLOAD]);
    let single = issue_to_sarif_result("/tmp/broken.mbz", &r.issues[0]);
    assert_eq!(single.rule_id, run.results[1].rule_id);
    assert_eq!(single.fingerprint, run.results[1].fingerprint);
}
