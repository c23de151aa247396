use reverse_checksum_renamer::file_verification::SourceTypes;
use reverse_checksum_renamer::par2_reader::{
    is_par2, parse_par2_packet_body, parse_par2_packet_head, read_par2, Par2PacketTypes,
};

const MAGIC: &[u8; 8] = b"PAR2\0PKT";
const FILE_DESC: &[u8; 16] = b"PAR 2.0\0FileDesc";
const MAIN: &[u8; 16] = b"PAR 2.0\0Main\0\0\0\0";
const CREATOR: &[u8; 16] = b"PAR 2.0\0Creator\0";
const IFSC: &[u8; 16] = b"PAR 2.0\0IFSC\0\0\0\0";

fn packet(ty: &[u8; 16], body: &[u8]) -> Vec<u8> {
    let mut p = Vec::new();
    p.extend_from_slice(MAGIC);
    p.extend_from_slice(&((64 + body.len()) as u64).to_le_bytes());
    p.extend_from_slice(&[0x11u8; 16]);
    p.extend_from_slice(&[0x22u8; 16]);
    p.extend_from_slice(ty);
    p.extend_from_slice(body);
    p
}

fn file_desc(id: u8, md5: u8, name: &str) -> Vec<u8> {
    let mut body = Vec::new();
    body.extend_from_slice(&[id; 16]);
    body.extend_from_slice(&[md5; 16]);
    body.extend_from_slice(&[0x33u8; 16]);
    body.extend_from_slice(&1234u64.to_le_bytes());
    body.extend_from_slice(name.as_bytes());
    while body.len() % 4 != 0 {
        body.push(0);
    }
    packet(FILE_DESC, &body)
}

#[test]
fn par2_round_trip_of_distinct_files() {
    let mut data = Vec::new();
    let names = ["a.bin", "second file.dat", "c.txt", "dddd"];
    for (i, n) in names.iter().enumerate() {
        data.extend(file_desc(i as u8 + 1, 0xa0 + i as u8, n));
    }
    let c = read_par2(&"set.par2".to_string(), &data);
    assert!(c.valid);
    assert!(!c.complete);
    assert_eq!(c.source_type, SourceTypes::PAR2);
    assert_eq!(c.source_file, "set.par2");
    assert_eq!(c.entries.len(), names.len());
    for (i, n) in names.iter().enumerate() {
        assert_eq!(c.entries[i].filename, *n);
        assert_eq!(c.entries[i].checksum_md5, Some([0xa0 + i as u8; 16]));
        assert_eq!(c.entries[i].checksum_crc32, None);
        assert!(c.entries[i].valid);
        assert_eq!(c.entries[i].state, 0);
    }
}

#[test]
fn par2_same_file_id_kept_once_first_wins() {
    let mut data = file_desc(7, 0x01, "first.bin");
    data.extend(file_desc(7, 0x02, "second.bin"));
    data.extend(file_desc(8, 0x03, "other.bin"));
    let c = read_par2(&"x.par2".to_string(), &data);
    assert!(c.valid);
    assert_eq!(c.entries.len(), 2);
    assert_eq!(c.entries[0].filename, "first.bin");
    assert_eq!(c.entries[0].checksum_md5, Some([0x01; 16]));
    assert_eq!(c.entries[1].filename, "other.bin");
}

#[test]
fn par2_other_packets_are_read_past() {
    let mut data = packet(MAIN, &[0u8; 12]);
    data.extend(packet(CREATOR, b"some client"));
    data.extend(packet(b"PAR 2.0\0RecvSlic", &[9u8; 40]));
    data.extend(packet(IFSC, &[5u8; 36]));
    data.extend(file_desc(1, 2, "only.bin"));
    let c = read_par2(&"x.par2".to_string(), &data);
    assert!(c.valid);
    assert_eq!(c.entries.len(), 1);
    assert_eq!(c.entries[0].filename, "only.bin");
}

#[test]
fn par2_name_without_padding_keeps_its_last_character() {
    let data = file_desc(1, 2, "abcd");
    let c = read_par2(&"x.par2".to_string(), &data);
    assert_eq!(c.entries[0].filename, "abcd");
}

#[test]
fn par2_bad_magic_is_invalid() {
    let mut data = file_desc(1, 2, "a.bin");
    data[0] = b'X';
    let c = read_par2(&"x.par2".to_string(), &data);
    assert!(!c.valid);
    assert_eq!(c.entries.len(), 0);
}

#[test]
fn par2_truncated_header_after_packets_is_invalid_but_keeps_entries() {
    let mut data = file_desc(1, 2, "a.bin");
    data.extend_from_slice(&MAGIC[..]);
    let c = read_par2(&"x.par2".to_string(), &data);
    assert!(!c.valid);
    assert_eq!(c.entries.len(), 1);
}

#[test]
fn par2_length_past_the_end_is_invalid() {
    let mut data = file_desc(1, 2, "a.bin");
    let len = data.len() as u64 + 100;
    data[8..16].copy_from_slice(&len.to_le_bytes());
    let c = read_par2(&"x.par2".to_string(), &data);
    assert!(!c.valid);
    assert_eq!(c.entries.len(), 0);
}

#[test]
fn par2_short_file_descriptor_is_invalid() {
    let data = packet(FILE_DESC, &[0u8; 40]);
    let c = read_par2(&"x.par2".to_string(), &data);
    assert!(!c.valid);
}

#[test]
fn par2_empty_data_has_no_entries() {
    let c = read_par2(&"x.par2".to_string(), &[]);
    assert!(c.valid);
    assert!(c.entries.is_empty());
}

#[test]
fn par2_probe_checks_first_header_only() {
    let mut data = file_desc(1, 2, "a.bin");
    assert!(is_par2(&data));
    data.truncate(70);
    assert!(is_par2(&data));
    assert!(!is_par2(&data[..63]));
    assert!(!is_par2(&[]));
    data[3] = b'3';
    assert!(!is_par2(&data));
}

#[test]
fn par2_head_fields() {
    let data = file_desc(1, 2, "a.bin");
    let h = parse_par2_packet_head(&data).unwrap();
    assert_eq!(&h.magic, MAGIC);
    assert_eq!(h.len, data.len() as u64);
    assert_eq!(h.packet_hash, [0x11; 16]);
    assert_eq!(h.recovery_set_id, [0x22; 16]);
    assert_eq!(&h.packet_type, FILE_DESC);
    assert!(parse_par2_packet_head(&data[..63]).is_none());
}

#[test]
fn par2_body_by_type() {
    let mut main_body = Vec::new();
    main_body.extend_from_slice(&65536u64.to_le_bytes());
    main_body.extend_from_slice(&3u32.to_le_bytes());
    let main = packet(MAIN, &main_body);
    let h = parse_par2_packet_head(&main).unwrap();
    match parse_par2_packet_body(&h, &main[64..]) {
        Some(Par2PacketTypes::Main(m)) => {
            assert_eq!(m.slice_size, 65536);
            assert_eq!(m.number_of_files, 3);
        }
        _ => panic!("expected a main packet"),
    }
    assert!(parse_par2_packet_body(&h, &main[64..70]).is_none());

    let creator = packet(CREATOR, b"par2cmdline");
    let h = parse_par2_packet_head(&creator).unwrap();
    match parse_par2_packet_body(&h, &creator[64..]) {
        Some(Par2PacketTypes::Creator(c)) => assert_eq!(c.client_identifier, "par2cmdline"),
        _ => panic!("expected a creator packet"),
    }

    let fd = file_desc(4, 5, "name.ext");
    let h = parse_par2_packet_head(&fd).unwrap();
    match parse_par2_packet_body(&h, &fd[64..]) {
        Some(Par2PacketTypes::FileDescriptor(f)) => {
            assert_eq!(f.file_id, [4; 16]);
            assert_eq!(f.entire_file_md5, [5; 16]);
            assert_eq!(f.first_16k_md5, [0x33; 16]);
            assert_eq!(f.length_of_file, 1234);
            assert_eq!(f.name_of_file, "name.ext");
        }
        _ => panic!("expected a file descriptor packet"),
    }

    let ifsc = packet(IFSC, &[6u8; 20]);
    let h = parse_par2_packet_head(&ifsc).unwrap();
    match parse_par2_packet_body(&h, &ifsc[64..]) {
        Some(Par2PacketTypes::InputFileSliceChecksum(p)) => assert_eq!(p.file_id, [6; 16]),
        _ => panic!("expected a slice checksum packet"),
    }

    let other = packet(b"PAR 2.0\0Unknown!", &[1u8; 8]);
    let h = parse_par2_packet_head(&other).unwrap();
    assert!(matches!(parse_par2_packet_body(&h, &other[64..]), Some(Par2PacketTypes::Unknown)));
}

#[test]
fn par2_file_name_must_be_utf8() {
    let mut body = vec![1u8; 56];
    body.extend_from_slice(&[0xff, 0xfe, 0x00, 0x00]);
    let data = packet(FILE_DESC, &body);
    let c = read_par2(&"x.par2".to_string(), &data);
    assert!(!c.valid);
}
