use reverse_checksum_renamer::file_verification::SourceTypes;
use reverse_checksum_renamer::sfv_reader::{is_sfv, parse_sfv_line, read_sfv};

#[test]
fn sfv_line_with_name_and_crc() {
    let e = parse_sfv_line(&"readme.txt 89D5B1E3".to_string()).unwrap();
    assert_eq!(e.filename, "readme.txt");
    assert_eq!(e.checksum_crc32, Some(0x89D5B1E3));
    assert!(e.valid);
    assert_eq!(e.checksum_md5, None);
    assert_eq!(e.path, "");
}

#[test]
fn sfv_line_with_bad_digits_is_kept_invalid() {
    let e = parse_sfv_line(&"bad.txt ZZZZZZZZ".to_string()).unwrap();
    assert!(!e.valid);
    assert_eq!(e.checksum_crc32, None);
}

#[test]
fn sfv_comment_line_gives_nothing() {
    assert!(parse_sfv_line(&"; generated by some tool".to_string()).is_none());
    assert!(parse_sfv_line(&";readme.txt 89D5B1E3".to_string()).is_none());
}

#[test]
fn sfv_blank_line_gives_nothing() {
    assert!(parse_sfv_line(&"".to_string()).is_none());
    assert!(parse_sfv_line(&" \t \r".to_string()).is_none());
}

#[test]
fn sfv_name_keeps_inner_blanks_and_drops_the_separator_run() {
    let e = parse_sfv_line(&"  my file name.bin \t 0a1B2c3D \r".to_string()).unwrap();
    assert_eq!(e.filename, "my file name.bin");
    assert_eq!(e.checksum_crc32, Some(0x0a1b2c3d));
    assert!(e.valid);
}

#[test]
fn sfv_wrong_digit_count_is_invalid() {
    assert!(!parse_sfv_line(&"a.bin 1234567".to_string()).unwrap().valid);
    assert!(!parse_sfv_line(&"a.bin 123456789".to_string()).unwrap().valid);
    assert!(!parse_sfv_line(&"89D5B1E3".to_string()).unwrap().valid);
}

#[test]
fn sfv_catalog_of_several_lines() {
    let text = "; header\r\nreadme.txt 89D5B1E3\r\n\r\nbad.txt ZZZZZZZZ\nlast.bin 00000001".to_string();
    let c = read_sfv(&"set.sfv".to_string(), &text);
    assert!(c.valid);
    assert!(!c.complete);
    assert_eq!(c.source_type, SourceTypes::SFV);
    assert_eq!(c.source_file, "set.sfv");
    assert_eq!(c.entries.len(), 3);
    assert_eq!(c.entries[0].filename, "readme.txt");
    assert_eq!(c.entries[0].checksum_crc32, Some(0x89D5B1E3));
    assert!(!c.entries[1].valid);
    assert_eq!(c.entries[2].filename, "last.bin");
    assert_eq!(c.entries[2].checksum_crc32, Some(1));
}

#[test]
fn sfv_probe_looks_at_the_first_record() {
    assert!(is_sfv(&"; c\nreadme.txt 89D5B1E3\nbad".to_string()));
    assert!(!is_sfv(&"bad.txt ZZZZZZZZ\nreadme.txt 89D5B1E3".to_string()));
    assert!(!is_sfv(&"; only a comment\n".to_string()));
    assert!(!is_sfv(&"".to_string()));
}
