use vic2enc_core::pa_migrate::{backup_dir_name, backup_folders, csv_rows, default_target_folders, script_csv_name, PaMigrateOptions, PaMigrateReport};
use vic2enc_core::path::{FsPath, PathPart};
use vic2enc_core::{Codepage, ConvertOptions};

#[test]
fn codepage_spellings() {
    for s in ["gbk", "GB", "gb2312", "CP936", "936"] {
        assert_eq!(Codepage::parse(s), Some(Codepage::Gbk));
    }
    assert_eq!(Codepage::parse("big5"), None);
    assert_eq!(Codepage::parse(""), None);
    assert_eq!(Codepage::default(), Codepage::Gbk);
}

#[test]
fn options_from_command_line() {
    let o = ConvertOptions::from_cli("Gbk", true).unwrap();
    assert_eq!(o.codepage, Codepage::Gbk);
    assert!(o.safe_tokens);
    assert!(ConvertOptions::from_cli("utf8", false).is_none());
    assert!(!ConvertOptions::default().safe_tokens);
}

#[test]
fn migration_names_and_rows() {
    assert_eq!(default_target_folders(), vec!["events", "decisions", "common"]);
    let opts = PaMigrateOptions::default();
    assert!(opts.backup);
    assert_eq!(opts.targets(), vec!["events", "decisions", "common"]);
    let custom = PaMigrateOptions {
        target_folders: vec!["history".to_string()],
        ..PaMigrateOptions::default()
    };
    assert_eq!(custom.targets(), vec!["history"]);
    assert_eq!(
        backup_folders(&custom.targets()),
        vec!["localisation", "history"]
    );
    assert_eq!(backup_dir_name(1700000000), "_pa_backup_1700000000");
    assert_eq!(
        csv_rows(&vec![("Beijing".to_string(), "北京".to_string())]),
        "Beijing;北京;x\n"
    );
    let script = FsPath::from_parts(vec![
        PathPart::Root,
        PathPart::Name(b"events".to_vec()),
        PathPart::Name(b"e.txt".to_vec()),
    ]);
    assert_eq!(script_csv_name(&script), "e.csv");
    let odd = FsPath::from_parts(vec![PathPart::Name(vec![0xFF, b'.', b't'])]);
    assert_eq!(script_csv_name(&odd), "extracted.csv");
}

#[test]
fn report_counts() {
    let mut r = PaMigrateReport::default();
    r.record_localisation_file();
    r.record_script_scanned();
    r.record_script_scanned();
    r.record_script_modified(3, true);
    r.record_script_modified(2, false);
    assert_eq!(r.localisation_files, 1);
    assert_eq!(r.scripts_scanned, 2);
    assert_eq!(r.scripts_modified, 2);
    assert_eq!(r.entries_extracted, 5);
    assert_eq!(r.csv_files_written, 1);
    assert!(r.backup_dir.is_none());
}
