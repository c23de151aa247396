use reverse_checksum_renamer::utils::{
    byte_array_to_hex, printable_string_from, slice_u8_to_u32, slice_u8_to_u64,
};

#[test]
fn printable_keeps_ascii_and_blanks_the_rest() {
    let bytes = [b'P', b'A', b'R', b'2', 0u8, b'P', b'K', b'T', 200u8, 31u8, 126u8, 32u8];
    assert_eq!(printable_string_from(&bytes), "PAR2 PKT  ~ ");
}

#[test]
fn printable_of_nothing_is_empty() {
    assert_eq!(printable_string_from(&[]), "");
}

#[test]
fn hex_is_lower_case_two_digits_per_byte() {
    assert_eq!(byte_array_to_hex(&[0x00, 0x0f, 0xa0, 0xff, 0x12]), "000fa0ff12");
    assert_eq!(byte_array_to_hex(&[]), "");
}

#[test]
fn u64_reads_all_eight_bytes_little_endian() {
    let b = [0x01u8, 0x02, 0x03, 0x04, 0x05, 0x06, 0x07, 0x08, 0xff];
    assert_eq!(slice_u8_to_u64(&b), 0x0807060504030201);
    assert_eq!(slice_u8_to_u64(&[0xff; 8]), u64::MAX);
}

#[test]
fn u32_reads_all_four_bytes_little_endian() {
    assert_eq!(slice_u8_to_u32(&[0x78, 0x56, 0x34, 0x12]), 0x12345678);
    assert_eq!(slice_u8_to_u32(&[0xff, 0xff, 0xff, 0xff, 0x00]), u32::MAX);
}
