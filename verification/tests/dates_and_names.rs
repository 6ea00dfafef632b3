use entries::calendar::{chrono_now_ms, days_to_ymd, format_date, millis_to_i64};
use entries::import::{
    copy_error_message, decide_write, entity_key, folder_name, folders_query, import_query, index_folders,
    note_file_names, note_preview, preview_query, sanitize_filename, trash_clause, write_failure_message,
    EntityRow, FolderRow, ImportTally, NoteContent, WriteDecision,
};
use entries::library::{select_dir_entries, select_notebook_dirs, select_notebooks, version_gt, SubdirListing};
use entries::update::{
    releases_url, repo_is_configured, unconfigured_update_result, update_check_from_response,
    update_check_result,
};

fn strings(v: &[&str]) -> Vec<String> {
    v.iter().map(|s| s.to_string()).collect()
}

#[test]
fn epoch_day_is_first_of_january_1970() {
    assert_eq!(days_to_ymd(0), (1970, 1, 1));
}

#[test]
fn days_before_epoch() {
    assert_eq!(days_to_ymd(-1), (1969, 12, 31));
    assert_eq!(days_to_ymd(-719468), (0, 3, 1));
}

#[test]
fn leap_day_and_new_year() {
    assert_eq!(days_to_ymd(11016), (2000, 2, 29));
    assert_eq!(days_to_ymd(19723), (2024, 1, 1));
    assert_eq!(days_to_ymd(19782), (2024, 2, 29));
    assert_eq!(days_to_ymd(19783), (2024, 3, 1));
}

#[test]
fn day_numbers_round_trip_over_many_years() {
    // Consecutive day numbers give consecutive dates.
    let mut prev = days_to_ymd(-800);
    for d in -799..30000i64 {
        let cur = days_to_ymd(d);
        let next_in_month = (prev.0, prev.1, prev.2 + 1);
        let next_month = if prev.1 == 12 { (prev.0 + 1, 1, 1) } else { (prev.0, prev.1 + 1, 1) };
        assert!(cur == next_in_month || cur == next_month, "day {} gave {:?} after {:?}", d, cur, prev);
        prev = cur;
    }
}

#[test]
fn format_date_examples() {
    assert_eq!(format_date(0, "YYYY-MM-DD"), "1970-01-01");
    assert_eq!(format_date(1_700_000_000_000, "YYYY-MM-DD"), "2023-11-14");
    assert_eq!(format_date(1_700_000_000_000, "DD/MM/YYYY"), "14/11/2023");
    assert_eq!(format_date(1_700_000_000_000, "no placeholders"), "no placeholders");
    assert_eq!(format_date(1_700_000_000_000, "YYYY YYYY"), "2023 2023");
}

#[test]
fn format_date_before_1970_takes_the_earlier_day() {
    assert_eq!(format_date(-1, "YYYY-MM-DD"), "1969-12-31");
    assert_eq!(format_date(-1000, "YYYY-MM-DD"), "1969-12-31");
    assert_eq!(format_date(-86_400_000, "YYYY-MM-DD"), "1969-12-31");
    assert_eq!(format_date(-86_400_001, "YYYY-MM-DD"), "1969-12-30");
    assert_eq!(format_date(86_399_999, "YYYY-MM-DD"), "1970-01-01");
}

#[test]
fn millis_keep_low_bits() {
    assert_eq!(millis_to_i64(1_700_000_000_000), 1_700_000_000_000);
    assert_eq!(millis_to_i64(u128::from(u64::MAX)), -1);
}

#[test]
fn clock_reads_after_2020() {
    let now = chrono_now_ms().expect("clock after the epoch");
    assert!(now > 1_577_836_800_000);
}

#[test]
fn sanitize_replaces_forbidden_characters() {
    assert_eq!(sanitize_filename("a/b\\c:d*e?f\"g<h>i|j"), "a-b-c-d-e-f-g-h-i-j");
    assert_eq!(sanitize_filename("  Shopping list \n"), "Shopping list");
    assert_eq!(sanitize_filename(""), "");
    assert_eq!(sanitize_filename("Café ☕"), "Café ☕");
}

#[test]
fn sanitize_is_idempotent() {
    for s in ["  a/b  ", "x:y", " ", "plain", "\t/\t"] {
        let once = sanitize_filename(s);
        assert_eq!(sanitize_filename(&once), once);
    }
}

#[test]
fn version_comparison() {
    assert!(version_gt("1.10", "1.9"));
    assert!(!version_gt("1.9", "1.10"));
    assert!(version_gt("2.0.0", "1.99.99"));
    assert!(!version_gt("1.2", "1.2.0"));
    assert!(!version_gt("1.2.0", "1.2"));
    assert!(version_gt("1.2.1", "1.2"));
    assert!(!version_gt("1.2.3", "1.2.3"));
    // Pieces that are not numbers are left out.
    assert!(version_gt("1.x.5", "1.4"));
    // A leading '+' is read as `str::parse` reads it; trailing text that is
    // no suffix makes the piece no number.
    assert!(version_gt("+3", "2"));
    assert!(version_gt("+1-beta.1", "0.9"));
    assert!(!version_gt("1.2x", "1.1"));
    assert!(!version_gt("1.-1", "1.0"));
    // Pre-release and build suffixes keep the number they start with.
    assert!(version_gt("1.0.1-beta", "1.0.0"));
    assert!(!version_gt("1.0.0", "1.0.1-beta"));
    assert!(!version_gt("1.0.0-beta", "1.0.0"));
    assert!(version_gt("2.0.0+build.5", "1.9.9"));
    assert!(!version_gt("", "0"));
    // A piece beyond u32 does not parse.
    assert!(!version_gt("4294967296", "0"));
    assert!(version_gt("4294967295", "0"));
}

#[test]
fn notebooks_are_sorted_markdown_files() {
    let names = strings(&["b.md", "SCHEMA.md", "a.md", "notes.txt", "SYSTEM.md", "C.md", ".md"]);
    assert_eq!(select_notebooks(names), strings(&[".md", "C.md", "a.md", "b.md"]));
}

#[test]
fn dir_entries_keep_schema_files() {
    let names = strings(&["z.md", "SCHEMA.md", "x.markdown", "é.md", "e.md"]);
    assert_eq!(select_dir_entries(names), strings(&["SCHEMA.md", "e.md", "z.md", "é.md"]));
}

#[test]
fn notebook_dirs_need_markdown_and_no_dot() {
    let dirs = vec![
        SubdirListing { name: "zeta".to_string(), files: Some(strings(&["a.md"])) },
        SubdirListing { name: ".hidden".to_string(), files: Some(strings(&["a.md"])) },
        SubdirListing { name: "empty".to_string(), files: Some(vec![]) },
        SubdirListing { name: "unreadable".to_string(), files: None },
        SubdirListing { name: "alpha".to_string(), files: Some(strings(&["x.txt", "y.md"])) },
    ];
    assert_eq!(select_notebook_dirs(dirs), strings(&["alpha", "zeta"]));
}

#[test]
fn folder_index_and_previews() {
    let rows = vec![
        FolderRow { pk: Some(1), title: Some("Notes".to_string()), folder_type: Some(0) },
        FolderRow { pk: Some(2), title: None, folder_type: Some(1) },
        FolderRow { pk: Some(3), title: Some("Work".to_string()), folder_type: None },
        FolderRow { pk: Some(3), title: Some("Work 2".to_string()), folder_type: Some(1) },
    ];
    let index = index_folders(&rows, "(untitled)");
    assert_eq!(index.ids, vec![1, 2, 3, 3]);
    assert_eq!(index.titles, strings(&["Notes", "(untitled)", "Work", "Work 2"]));
    assert_eq!(index.trash, vec![2, 3]);
    assert_eq!(folder_name(&index, 3, "Notes"), "Work 2");
    assert_eq!(folder_name(&index, 9, "Notes"), "Notes");

    let p = note_preview(Some("Hello".to_string()), Some(2), 0, &index);
    assert_eq!(p.title, "Hello");
    assert_eq!(p.folder, "(untitled)");
    assert_eq!(p.creation_date, "1970-01-01");
    assert!(p.trashed);

    let q = note_preview(None, None, 1_700_000_000_000, &index);
    assert_eq!(q.title, "(untitled)");
    assert_eq!(q.folder, "Notes");
    assert_eq!(q.creation_date, "2023-11-14");
    assert!(!q.trashed);
}

#[test]
fn queries_and_trash_clause() {
    assert_eq!(trash_clause(false, &vec![4, 17]), " AND zfolder NOT IN (4,17)");
    assert_eq!(trash_clause(true, &vec![4, 17]), "");
    assert_eq!(trash_clause(false, &vec![]), "");
    assert_eq!(trash_clause(false, &vec![-3]), " AND zfolder NOT IN (-3)");
    assert_eq!(
        folders_query(12),
        "SELECT z_pk, ztitle2, zfoldertype FROM ziccloudsyncingobject WHERE z_ent = 12"
    );
    assert_eq!(
        preview_query(9, " AND zfolder NOT IN (4)"),
        "SELECT z_pk, ztitle1, zfolder, COALESCE(zcreationdate3, zcreationdate2, zcreationdate1, 0) as creation_ts FROM ziccloudsyncingobject WHERE z_ent = 9 AND ztitle1 IS NOT NULL AND zfolder NOT IN (4)"
    );
    assert_eq!(
        import_query(9, ""),
        "SELECT nd.z_pk, hex(nd.zdata) as zhexdata, zcso.ztitle1, zcso.zfolder, COALESCE(zcso.zcreationdate3, zcso.zcreationdate2, zcso.zcreationdate1, 0) as creation_ts, COALESCE(zcso.zmodificationdate1, 0) as mod_ts FROM zicnotedata AS nd INNER JOIN ziccloudsyncingobject AS zcso ON zcso.z_pk = nd.znote WHERE zcso.z_ent = 9 AND zcso.ztitle1 IS NOT NULL"
    );
}

#[test]
fn entity_keys_last_row_wins() {
    let rows = vec![
        EntityRow { name: Some("ICNote".to_string()), ent: Some(9) },
        EntityRow { name: Some("ICFolder".to_string()), ent: Some(14) },
        EntityRow { name: Some("ICNote".to_string()), ent: None },
        EntityRow { name: Some("ICNote".to_string()), ent: Some(11) },
    ];
    assert_eq!(entity_key(&rows, "ICNote"), Some(11));
    assert_eq!(entity_key(&rows, "ICFolder"), Some(14));
    assert_eq!(entity_key(&rows, "ICAccount"), None);
}

#[test]
fn file_names_with_and_without_date() {
    let n = note_file_names("YYYY-MM-DD", 1_700_000_000_000, " Trip: Day 1 ");
    assert_eq!(n.file_name, "2023-11-14 Trip- Day 1.md");
    assert_eq!(n.backup_name, "2023-11-14 Trip- Day 1.backup.md");
    let m = note_file_names("", 0, "a/b");
    assert_eq!(m.file_name, "a-b.md");
    assert_eq!(m.backup_name, "a-b.backup.md");
}

#[test]
fn write_decisions() {
    assert_eq!(decide_write(5, None), WriteDecision::Create);
    assert_eq!(decide_write(5, Some(4)), WriteDecision::Overwrite);
    assert_eq!(decide_write(5, Some(5)), WriteDecision::Unchanged);
    assert_eq!(decide_write(5, Some(6)), WriteDecision::Unchanged);
}

#[test]
fn failure_messages() {
    assert_eq!(write_failure_message("a.md", "disk full"), "Failed to write a.md: disk full");
    assert_eq!(copy_error_message(Some(2), "No such file"), "Failed to copy database: No such file");
    assert_eq!(copy_error_message(None, "x"), "Failed to copy database: x");
    assert!(copy_error_message(Some(1), "Operation not permitted").starts_with("Full Disk Access is required"));
}

#[test]
fn tally_summary_lists_positive_counts() {
    let mut t = ImportTally::new();
    t.record_written(false);
    t.record_written(false);
    t.record_written(true);
    t.record_unchanged();
    t.record_skipped();
    let r = t.finish("Apple Notes".to_string());
    assert!(r.success);
    assert_eq!(r.message, "2 imported, 1 updated, 1 unchanged, 1 empty");
    assert_eq!((r.imported, r.updated, r.duplicates, r.skipped, r.failed), (2, 1, 1, 1, 0));
    assert_eq!(r.notebook_name, "Apple Notes");
}

#[test]
fn tally_keeps_first_error() {
    let mut t = ImportTally::new();
    t.record_failure("first".to_string());
    t.record_failure("second".to_string());
    let r = t.finish("n".to_string());
    assert!(!r.success);
    assert_eq!(r.failed, 2);
    assert_eq!(r.message, "2 failed. Detail: first");
}

#[test]
fn empty_tally_reports_no_notes() {
    let r = ImportTally::new().finish("n".to_string());
    assert!(r.success);
    assert_eq!(r.message, "No notes found.");
}

#[test]
fn repository_configuration() {
    assert!(!repo_is_configured(&None));
    assert!(!repo_is_configured(&Some(String::new())));
    assert!(!repo_is_configured(&Some("OWNER/REPO".to_string())));
    assert!(repo_is_configured(&Some("me/entries".to_string())));
    assert_eq!(releases_url("me/entries"), "https://api.github.com/repos/me/entries/releases/latest");
    let r = unconfigured_update_result("0.1.0");
    assert!(!r.update_available);
    assert_eq!(r.current_version, "0.1.0");
    assert_eq!(r.message, "GitHub repository not configured. Set it in the app config.");
    assert_eq!(r.latest_version, "");
}

#[test]
fn update_reports() {
    let beta = update_check_result("1.0.0", Some("v1.0.1-beta".to_string()), None, None);
    assert!(beta.update_available);
    assert_eq!(beta.message, "Version 1.0.1-beta is available (you have 1.0.0).");
    let r = update_check_result("0.1.0", Some("vv0.2.0".to_string()), Some("http://x".to_string()), None);
    assert!(r.update_available);
    assert_eq!(r.latest_version, "0.2.0");
    assert_eq!(r.release_url, "http://x");
    assert_eq!(r.release_notes, "");
    assert_eq!(r.message, "Version 0.2.0 is available (you have 0.1.0).");

    let same = update_check_result("0.1.0", Some("v0.1.0".to_string()), None, Some("notes".to_string()));
    assert!(!same.update_available);
    assert_eq!(same.release_notes, "notes");
    assert_eq!(same.message, "You're on the latest version (0.1.0).");

    let none = update_check_result("0.1.0", None, None, None);
    assert!(!none.update_available);
    assert_eq!(none.message, "Could not determine latest version.");
}

#[test]
fn update_from_json_reply() {
    let r = update_check_from_response(
        "1.0.0",
        r#"{"tag_name": "v1.2.0", "html_url": "https://example.com/r", "body": "Fixes"}"#,
    )
    .unwrap();
    assert!(r.update_available);
    assert_eq!(r.latest_version, "1.2.0");
    assert_eq!(r.release_url, "https://example.com/r");
    assert_eq!(r.release_notes, "Fixes");

    let missing = update_check_from_response("1.0.0", r#"{"message": "Not Found"}"#).unwrap();
    assert_eq!(missing.message, "Could not determine latest version.");

    let err = update_check_from_response("1.0.0", "not json").unwrap_err();
    assert!(err.starts_with("Invalid API response: "), "{}", err);
}

#[test]
fn import_steps_count_each_note_once() {
    let mut t = ImportTally::new();
    // A row without data is an empty note.
    assert!(t.begin_note("", "YYYY-MM-DD", 0, "x").is_none());
    // A row with data gets file names.
    let names = t.begin_note("00", "YYYY-MM-DD", 0, "Day: one").unwrap();
    assert_eq!(names.file_name, "1970-01-01 Day- one.md");
    assert_eq!(names.backup_name, "1970-01-01 Day- one.backup.md");
    // Up-to-date file: unchanged.
    assert_eq!(t.check_file(10, Some(10)), WriteDecision::Unchanged);
    // Newer note: overwrite, nothing counted yet.
    assert_eq!(t.check_file(11, Some(10)), WriteDecision::Overwrite);
    assert_eq!(t.check_file(11, None), WriteDecision::Create);
    // Blank content: empty; Markdown: handed back; undecodable: failed.
    assert_eq!(t.record_content(NoteContent::Blank), None);
    assert_eq!(t.record_content(NoteContent::Markdown("# A".to_string())), Some("# A".to_string()));
    assert_eq!(t.record_content(NoteContent::Undecodable("bad".to_string())), None);
    // Writes: one update, one new file, one failure.
    assert_eq!(t.record_write(true, "a.md", None), None);
    assert_eq!(t.record_write(false, "b.md", None), None);
    assert_eq!(
        t.record_write(false, "c.md", Some("denied".to_string())),
        Some("Failed to write c.md: denied".to_string())
    );
    let r = t.finish("nb".to_string());
    assert!(!r.success);
    assert_eq!((r.imported, r.updated, r.duplicates, r.skipped, r.failed), (1, 1, 1, 2, 2));
    assert_eq!(r.message, "1 imported, 1 updated, 1 unchanged, 2 empty, 2 failed. Detail: bad");
}
