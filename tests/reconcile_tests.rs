use reverse_checksum_renamer::file_verification::{
    ChecksumCatalog, ChecksumEntry, SourceTypes, STATE_FILE_FOUND,
};
use reverse_checksum_renamer::reconcile::{
    catalog_file_new_name, catalog_has_missing_files, get_repair_recommendations,
    update_catalog_file_status, update_file_status,
};

fn file(path: &str, crc: Option<u32>, md5: Option<[u8; 16]>) -> ChecksumEntry {
    ChecksumEntry {
        filename: path.rsplit('/').next().unwrap().to_string(),
        path: path.to_string(),
        checksum_crc32: crc,
        checksum_md5: md5,
        valid: true,
        state: 0,
    }
}

fn wanted(name: &str, crc: Option<u32>, md5: Option<[u8; 16]>) -> ChecksumEntry {
    ChecksumEntry {
        filename: name.to_string(),
        path: String::new(),
        checksum_crc32: crc,
        checksum_md5: md5,
        valid: true,
        state: 0,
    }
}

fn catalog(entries: Vec<ChecksumEntry>) -> ChecksumCatalog {
    ChecksumCatalog {
        entries,
        valid: true,
        complete: false,
        source_type: SourceTypes::SFV,
        source_file: "set.sfv".to_string(),
        state: 0,
    }
}

#[test]
fn match_on_crc_once_then_nothing_more() {
    let mut existing = vec![file("d/x1", Some(0xDEADBEEF), None)];
    let mut targets = vec![wanted("right.bin", Some(0xDEADBEEF), None)];
    let recs = get_repair_recommendations(&mut existing, &mut targets);
    assert_eq!(recs.len(), 1);
    assert_eq!(recs[0].source_file, "d/x1");
    assert_eq!(recs[0].target_name, "right.bin");
    assert!(existing[0].has_state(STATE_FILE_FOUND));
    assert!(targets[0].has_state(STATE_FILE_FOUND));
    let again = get_repair_recommendations(&mut existing, &mut targets);
    assert_eq!(again.len(), 0);
}

#[test]
fn match_on_md5_and_first_catalog_entry_wins() {
    let mut existing = vec![file("d/a", None, Some([1; 16])), file("d/b", None, Some([1; 16]))];
    let mut targets = vec![
        wanted("first.bin", None, Some([1; 16])),
        wanted("second.bin", None, Some([1; 16])),
    ];
    let recs = get_repair_recommendations(&mut existing, &mut targets);
    assert_eq!(recs.len(), 2);
    assert_eq!((recs[0].source_file.as_str(), recs[0].target_name.as_str()), ("d/a", "first.bin"));
    assert_eq!((recs[1].source_file.as_str(), recs[1].target_name.as_str()), ("d/b", "second.bin"));
}

#[test]
fn no_match_on_invalid_or_different_or_absent_checksums() {
    let mut invalid = wanted("bad.bin", Some(5), None);
    invalid.valid = false;
    let mut existing = vec![file("d/a", Some(5), None), file("d/b", None, None)];
    let mut targets = vec![invalid, wanted("other.bin", Some(6), None), wanted("none.bin", None, None)];
    let recs = get_repair_recommendations(&mut existing, &mut targets);
    assert!(recs.is_empty());
    assert!(!existing[0].has_state(STATE_FILE_FOUND));
    assert!(!targets[0].has_state(STATE_FILE_FOUND));
}

#[test]
fn either_checksum_kind_is_enough() {
    let mut existing = vec![file("d/a", Some(1), Some([9; 16]))];
    let mut targets = vec![wanted("t.bin", Some(2), Some([9; 16]))];
    assert_eq!(get_repair_recommendations(&mut existing, &mut targets).len(), 1);
}

#[test]
fn found_files_are_not_matched_again() {
    let mut existing = vec![file("d/a", Some(1), None)];
    existing[0].set_state(STATE_FILE_FOUND);
    let mut targets = vec![wanted("t.bin", Some(1), None)];
    assert!(get_repair_recommendations(&mut existing, &mut targets).is_empty());
}

#[test]
fn missing_files_ignore_auxiliary_extensions() {
    let mut c = catalog(vec![
        wanted("a.bin", Some(1), None),
        wanted("info.nfo", Some(2), None),
        wanted("notes.txt", Some(3), None),
        wanted("x.srr", None, None),
        wanted("y.sfv", None, None),
        wanted("z.par2", None, None),
    ]);
    assert!(catalog_has_missing_files(&c));
    update_catalog_file_status(&mut c, &vec![true, false, false, false, false, false]);
    assert!(c.entries[0].has_state(STATE_FILE_FOUND));
    assert!(!c.entries[1].has_state(STATE_FILE_FOUND));
    assert!(!catalog_has_missing_files(&c));
    assert_eq!(c.source_file, "set.sfv");
}

#[test]
fn empty_catalog_is_complete() {
    assert!(!catalog_has_missing_files(&catalog(vec![])));
}

#[test]
fn file_status_follows_presence() {
    let mut es = vec![wanted("a", None, None), wanted("b", None, None)];
    update_file_status(&mut es, &vec![false, true]);
    assert!(!es[0].has_state(STATE_FILE_FOUND));
    assert!(es[1].has_state(STATE_FILE_FOUND));
    assert_eq!(es[1].filename, "b");
}

#[test]
fn catalog_names_are_fixed_by_content() {
    let p = |s: &str| s.to_string();
    assert_eq!(catalog_file_new_name(&p("d/set"), true, false), Some(p("d/set.sfv")));
    assert_eq!(catalog_file_new_name(&p("d/set.sfv"), true, false), None);
    assert_eq!(catalog_file_new_name(&p("d/set"), false, true), Some(p("d/set.par2")));
    assert_eq!(catalog_file_new_name(&p("d/set.par2"), false, true), None);
    assert_eq!(catalog_file_new_name(&p("d/fake.sfv"), false, false), Some(p("d/fake.sfv_not")));
    assert_eq!(catalog_file_new_name(&p("d/fake.par2"), false, false), Some(p("d/fake.par2_not")));
    assert_eq!(catalog_file_new_name(&p("d/plain.bin"), false, false), None);
}
