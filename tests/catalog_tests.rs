use reverse_checksum_renamer::file_verification::{
    get_source_type_by_filename, ChecksumEntry, SourceTypes, STATE_FILE_FOUND,
};

fn entry(md5: Option<[u8; 16]>) -> ChecksumEntry {
    ChecksumEntry {
        filename: "a.bin".to_string(),
        path: String::new(),
        checksum_crc32: None,
        checksum_md5: md5,
        valid: true,
        state: 0,
    }
}

#[test]
fn state_bits_set_test_and_reset() {
    let mut e = entry(None);
    assert!(!e.has_state(STATE_FILE_FOUND));
    e.set_state(STATE_FILE_FOUND);
    assert!(e.has_state(STATE_FILE_FOUND));
    assert_eq!(e.state, 1);
    e.set_state(5);
    assert_eq!(e.state, 0b100001);
    assert!(e.has_state(5));
    e.reset_state(STATE_FILE_FOUND);
    assert!(!e.has_state(STATE_FILE_FOUND));
    assert_eq!(e.state, 0b100000);
    e.set_state(63);
    assert!(e.has_state(63));
    assert_eq!(e.filename, "a.bin");
}

#[test]
fn md5_text_is_hex_or_empty() {
    let mut m = [0u8; 16];
    m[0] = 0xab;
    m[15] = 0x01;
    assert_eq!(entry(Some(m)).checksum_md5_as_str(), "ab000000000000000000000000000001");
    assert_eq!(entry(None).checksum_md5_as_str(), "");
}

#[test]
fn source_type_follows_extension() {
    assert_eq!(get_source_type_by_filename(&"set.sfv".to_string()), Some(SourceTypes::SFV));
    assert_eq!(get_source_type_by_filename(&"dir/set.vol01.par2".to_string()), Some(SourceTypes::PAR2));
    assert_eq!(get_source_type_by_filename(&"set.sfv.bak".to_string()), None);
    assert_eq!(get_source_type_by_filename(&"sfv".to_string()), None);
    assert_eq!(get_source_type_by_filename(&"".to_string()), None);
}
