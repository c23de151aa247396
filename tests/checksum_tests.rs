use reverse_checksum_renamer::checksum::{
    checksum_entry, file_name_of, merge_worker_results, progress_marks, ChecksumAccumulator,
};
use reverse_checksum_renamer::file_verification::ChecksumEntry;
use reverse_checksum_renamer::utils::byte_array_to_hex;

fn digest_in_chunks(data: &[u8], chunk: usize) -> (u32, [u8; 16]) {
    let mut acc = ChecksumAccumulator::new();
    for c in data.chunks(chunk) {
        acc.consume(c);
    }
    acc.finish()
}

#[test]
fn known_digests_of_abc() {
    let (crc, md5) = digest_in_chunks(b"abc", 3);
    assert_eq!(crc, 0x352441c2);
    assert_eq!(byte_array_to_hex(&md5), "900150983cd24fb0d6963f7d28e17f72");
}

#[test]
fn known_digests_of_nothing() {
    let (crc, md5) = ChecksumAccumulator::new().finish();
    assert_eq!(crc, 0);
    assert_eq!(byte_array_to_hex(&md5), "d41d8cd98f00b204e9800998ecf8427e");
}

#[test]
fn chunking_does_not_change_the_digests() {
    let data: Vec<u8> = (0..5000u32).map(|i| (i * 7 % 251) as u8).collect();
    let whole = digest_in_chunks(&data, data.len());
    assert_eq!(digest_in_chunks(&data, 1), whole);
    assert_eq!(digest_in_chunks(&data, 64), whole);
    assert_eq!(digest_in_chunks(&data, 1000), whole);
    let (crc, _) = digest_in_chunks(b"123456789", 4);
    assert_eq!(crc, 0xcbf43926);
}

#[test]
fn entry_for_a_file() {
    let mut acc = ChecksumAccumulator::new();
    acc.consume(b"abc");
    let e = checksum_entry(&"some/dir/file.bin".to_string(), acc);
    assert_eq!(e.filename, "file.bin");
    assert_eq!(e.path, "some/dir/file.bin");
    assert_eq!(e.checksum_crc32, Some(0x352441c2));
    assert_eq!(e.checksum_md5_as_str(), "900150983cd24fb0d6963f7d28e17f72");
    assert!(e.valid);
    assert_eq!(e.state, 0);
}

#[test]
fn file_names_of_paths() {
    assert_eq!(file_name_of(&"a/b/c.txt".to_string()), "c.txt");
    assert_eq!(file_name_of(&"c.txt".to_string()), "c.txt");
    assert_eq!(file_name_of(&"a/".to_string()), "");
}

#[test]
fn progress_marks_scale_to_width() {
    assert_eq!(progress_marks(0, 100, 50), 0);
    assert_eq!(progress_marks(50, 100, 50), 25);
    assert_eq!(progress_marks(99, 100, 50), 49);
    assert_eq!(progress_marks(100, 100, 50), 50);
    assert_eq!(progress_marks(0, 0, 50), 50);
    assert_eq!(progress_marks(u64::MAX, u64::MAX, 50), 50);
}

fn digest_set(files: &[(&str, Vec<u8>)], workers: usize) -> Vec<(String, Option<u32>, String)> {
    let mut partial: Vec<Vec<ChecksumEntry>> = (0..workers).map(|_| Vec::new()).collect();
    for (i, (path, data)) in files.iter().enumerate().rev() {
        let mut acc = ChecksumAccumulator::new();
        acc.consume(data);
        partial[i % workers].push(checksum_entry(&path.to_string(), acc));
    }
    let mut all: Vec<(String, Option<u32>, String)> = merge_worker_results(partial)
        .into_iter()
        .map(|e| (e.path.clone(), e.checksum_crc32, e.checksum_md5_as_str()))
        .collect();
    all.sort();
    all
}

#[test]
fn results_do_not_depend_on_worker_count() {
    let files: Vec<(&str, Vec<u8>)> = vec![
        ("d/a", b"alpha".to_vec()),
        ("d/b", b"beta".to_vec()),
        ("d/c", vec![0u8; 3000]),
        ("d/e", Vec::new()),
        ("d/f", b"alpha".to_vec()),
    ];
    let one = digest_set(&files, 1);
    assert_eq!(one.len(), files.len());
    for w in 2..=6 {
        assert_eq!(digest_set(&files, w), one);
    }
}

#[test]
fn merged_results_keep_list_order() {
    let mk = |p: &str| {
        let mut acc = ChecksumAccumulator::new();
        acc.consume(p.as_bytes());
        checksum_entry(&p.to_string(), acc)
    };
    let parts = vec![vec![mk("a"), mk("b")], vec![], vec![mk("c")]];
    let merged = merge_worker_results(parts);
    let ps: Vec<&str> = merged.iter().map(|e| e.path.as_str()).collect();
    assert_eq!(ps, vec!["a", "b", "c"]);
    assert!(merge_worker_results(vec![]).is_empty());
}
