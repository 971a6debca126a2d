use backup_scan_tool::discover::{classify, is_mbz_path, Candidate, PathFilter};
use backup_scan_tool::report::{fatal_fingerprint, sarif_fingerprint, sarif_level};
use backup_scan_tool::validate::{codes, Issue, Severity};

#[test]
fn mbz_extension_follows_path_rules() {
    assert!(is_mbz_path("backups/course.mbz"));
    assert!(is_mbz_path("x.tar.mbz"));
    assert!(!is_mbz_path("backups/.mbz"));
    assert!(!is_mbz_path("backups/course.MBZ"));
    assert!(!is_mbz_path("course.mbz.bak"));
    assert!(!is_mbz_path("dir.mbz/course"));
    assert!(!is_mbz_path("mbz"));
}

#[test]
fn filters_decide_candidates() {
    let none = PathFilter::new(&Vec::new()).unwrap();
    let wanted = PathFilter::new(&vec!["**/keep/*.mbz".to_string()]).unwrap();
    let unwanted = PathFilter::new(&vec!["**/old-*".to_string()]).unwrap();
    assert_eq!(classify("a/keep/x.mbz", &none, &none), Candidate::Scan);
    assert_eq!(classify("a/keep/x.txt", &none, &none), Candidate::NotMbz);
    assert_eq!(classify("a/other/x.mbz", &wanted, &none), Candidate::NotIncluded);
    assert_eq!(classify("a/keep/x.mbz", &wanted, &none), Candidate::Scan);
    assert_eq!(classify("a/keep/old-x.mbz", &wanted, &unwanted), Candidate::Excluded);
    assert!(!none.matches("anything"));
}

#[test]
fn bad_glob_is_an_error() {
    assert!(PathFilter::new(&vec!["a[".to_string()]).is_err());
}

#[test]
fn sarif_fields() {
    let i = Issue::warning(codes::STRUCT_UNKNOWN_LEAF, "a.xml".to_string(), "/x".to_string(), "m".to_string());
    assert_eq!(sarif_level(i.severity), "warning");
    assert_eq!(sarif_level(Severity::Error), "error");
    assert_eq!(sarif_fingerprint("/tmp/p.mbz", &i), "MBZ-STRUCT-UNKNOWN-LEAF|/tmp/p.mbz|a.xml|/x");
    assert_eq!(fatal_fingerprint("/tmp/p.mbz"), "MBZ-ARCHIVE-FATAL:/tmp/p.mbz");
}
