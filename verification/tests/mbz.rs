use backup_scan_tool::cli::exit_status;
use backup_scan_tool::mbz::{
    format_of, keeps_contents, tar_entry_name, ArchiveFormat, EntryRead, MbzArchive, TarGzBacked,
    ZipBacked,
};

fn tar() -> MbzArchive {
    MbzArchive::TarGz(TarGzBacked {
        path: "/tmp/t.mbz".to_string(),
        names: vec!["a.xml".to_string(), "files/aa/x".to_string(), "a.xml".to_string()],
        xml: vec![
            ("a.xml".to_string(), b"<first/>".to_vec()),
            ("a.xml".to_string(), b"<second/>".to_vec()),
        ],
    })
}

#[test]
fn tar_lookup_takes_last_capture() {
    let t = tar();
    assert_eq!(t.read_to_vec("a.xml").unwrap(), b"<second/>".to_vec());
    assert_eq!(
        t.read_to_vec("files/aa/x").unwrap_err(),
        "entry files/aa/x not found (or not XML) in /tmp/t.mbz"
    );
    assert_eq!(t.xml_names(), vec!["a.xml".to_string(), "a.xml".to_string()]);
    assert!(t.has("files/aa/x"));
    assert!(!t.has("files/aa"));
    assert_eq!(t.path(), "/tmp/t.mbz");
}

#[test]
fn zip_lookup_reports_reader_errors() {
    let z = MbzArchive::Zip(ZipBacked {
        path: "/tmp/z.mbz".to_string(),
        names: vec!["dir/".to_string(), "x.xml".to_string(), "y.XML".to_string()],
        reads: vec![EntryRead { name: "x.xml".to_string(), data: Err("boom".to_string()) }],
    });
    assert_eq!(z.read_to_vec("x.xml").unwrap_err(), "boom");
    assert_eq!(
        z.read_to_vec("q.xml").unwrap_err(),
        "entry q.xml not found in /tmp/z.mbz: specified file not found in archive"
    );
    assert_eq!(z.xml_names(), vec!["x.xml".to_string()]);
    assert_eq!(z.names().len(), 3);
}

#[test]
fn format_and_tar_names() {
    assert!(format_of(&[0x1f, 0x8b, 0, 0]) == ArchiveFormat::TarGz);
    assert!(format_of(b"PK\x03\x04") == ArchiveFormat::Zip);
    assert!(format_of(&[0x1f]) == ArchiveFormat::Zip);
    assert_eq!(tar_entry_name("./moodle_backup.xml"), "moodle_backup.xml");
    assert_eq!(tar_entry_name("files/./x"), "files/./x");
    assert!(keeps_contents("course/course.xml"));
    assert!(!keeps_contents("files/aa/aaaa"));
}

#[test]
fn exit_status_reflects_errors_and_fatals() {
    assert_eq!(exit_status(0, 0), 0);
    assert_eq!(exit_status(2, 0), 1);
    assert_eq!(exit_status(0, 1), 1);
}
