//! Reader of PAR2 recovery catalogs: a sequence of packets, each with a
//! 64-byte header and a body whose meaning depends on the packet type.

use vstd::prelude::*;
use vstd::slice::slice_subrange;
use vstd::utf8::{decode_utf8, valid_utf8};
use crate::file_verification::{ChecksumCatalog, ChecksumEntry, SourceTypes};
use crate::utils::{le_u32_value, le_u64_value, slice_u8_to_u32, slice_u8_to_u64};

verus! {

pub const EXTENSION: &'static str = "par2";

/// Length of a packet header.
pub const HEAD_LEN: usize = 64;

/// `PAR2\0PKT`, the first eight bytes of every packet.
pub open spec fn par2_magic() -> Seq<u8> {
    seq![0x50u8, 0x41, 0x52, 0x32, 0x00, 0x50, 0x4b, 0x54]
}

/// `PAR 2.0\0Main\0\0\0\0`
pub open spec fn tag_main() -> Seq<u8> {
    seq![0x50u8, 0x41, 0x52, 0x20, 0x32, 0x2e, 0x30, 0x00, 0x4d, 0x61, 0x69, 0x6e, 0, 0, 0, 0]
}

/// `PAR 2.0\0Creator\0`
pub open spec fn tag_creator() -> Seq<u8> {
    seq![0x50u8, 0x41, 0x52, 0x20, 0x32, 0x2e, 0x30, 0x00, 0x43, 0x72, 0x65, 0x61, 0x74, 0x6f, 0x72, 0]
}

/// `PAR 2.0\0FileDesc`
pub open spec fn tag_file_desc() -> Seq<u8> {
    seq![0x50u8, 0x41, 0x52, 0x20, 0x32, 0x2e, 0x30, 0x00, 0x46, 0x69, 0x6c, 0x65, 0x44, 0x65, 0x73, 0x63]
}

/// `PAR 2.0\0IFSC\0\0\0\0`
pub open spec fn tag_ifsc() -> Seq<u8> {
    seq![0x50u8, 0x41, 0x52, 0x20, 0x32, 0x2e, 0x30, 0x00, 0x49, 0x46, 0x53, 0x43, 0, 0, 0, 0]
}

/// The bytes without their trailing NUL bytes.
pub open spec fn trim_trailing_nul(b: Seq<u8>) -> Seq<u8>
    decreases b.len(),
{
    if b.len() > 0 && b.last() == 0 {
        trim_trailing_nul(b.drop_last())
    } else {
        b
    }
}

/// What a FileDescriptor packet contributes to a catalog.
pub struct Par2FileRecord {
    pub file_id: Seq<u8>,
    pub md5: Seq<u8>,
    pub name: Seq<char>,
}

/// The record that a FileDescriptor body describes, if it is well formed: file id at 0,
/// whole-file MD5 at 16, and from 56 to the end a NUL-padded UTF-8 name.
pub open spec fn file_record_of(body: Seq<u8>) -> Option<Par2FileRecord> {
    if body.len() >= 56 && valid_utf8(trim_trailing_nul(body.subrange(56, body.len() as int))) {
        Some(
            Par2FileRecord {
                file_id: body.subrange(0, 16),
                md5: body.subrange(16, 32),
                name: decode_utf8(trim_trailing_nul(body.subrange(56, body.len() as int))),
            },
        )
    } else {
        None
    }
}

/// Whether a body of the given packet type is too short or otherwise unreadable.
pub open spec fn body_malformed(ty: Seq<u8>, body: Seq<u8>) -> bool {
    if ty == tag_main() {
        body.len() < 12
    } else if ty == tag_ifsc() {
        body.len() < 16
    } else if ty == tag_file_desc() {
        file_record_of(body) is None
    } else {
        false
    }
}

/// Outcome of scanning packets from a position: whether the catalog stays valid,
/// and the FileDescriptor records met on the way, in order.
pub struct Par2Scan {
    pub valid: bool,
    pub files: Seq<Par2FileRecord>,
}

/// Total length that the header at `pos` declares for its packet.
pub open spec fn packet_len_at(data: Seq<u8>, pos: int) -> int {
    le_u64_value(data.subrange(pos + 8, pos + 16))
}

/// Scans the packets of `data` from `pos` on. The scan ends cleanly at the end of the
/// data, and marks the catalog invalid at a partial header, a wrong magic, a declared
/// length that is shorter than a header or runs past the data, or a malformed body.
pub open spec fn scan_packets(data: Seq<u8>, pos: int) -> Par2Scan
    decreases data.len() - pos,
{
    if pos < 0 || pos >= data.len() {
        Par2Scan { valid: true, files: Seq::empty() }
    } else if data.len() - pos < 64 || data.subrange(pos, pos + 8) != par2_magic() {
        Par2Scan { valid: false, files: Seq::empty() }
    } else {
        let len = packet_len_at(data, pos);
        let ty = data.subrange(pos + 48, pos + 64);
        let body = data.subrange(pos + 64, pos + len);
        if len < 64 || len > data.len() - pos || body_malformed(ty, body) {
            Par2Scan { valid: false, files: Seq::empty() }
        } else {
            let rest = scan_packets(data, pos + len);
            if ty == tag_file_desc() {
                Par2Scan { valid: rest.valid, files: seq![file_record_of(body)->0] + rest.files }
            } else {
                rest
            }
        }
    }
}

/// Whether some record before index `n` has this file id.
pub open spec fn id_seen_before(files: Seq<Par2FileRecord>, n: int, id: Seq<u8>) -> bool {
    exists|k: int| 0 <= k < n && #[trigger] files[k].file_id == id
}

/// The records in order, each file id kept at its first occurrence only.
pub open spec fn dedup_by_id(files: Seq<Par2FileRecord>) -> Seq<Par2FileRecord>
    decreases files.len(),
{
    if files.len() == 0 {
        Seq::empty()
    } else {
        let prev = dedup_by_id(files.drop_last());
        if id_seen_before(files, files.len() - 1, files.last().file_id) {
            prev
        } else {
            prev.push(files.last())
        }
    }
}

/// The catalog entry made from a FileDescriptor record.
pub open spec fn entry_matches_record(e: ChecksumEntry, r: Par2FileRecord) -> bool {
    &&& e.filename@ == r.name
    &&& e.path@ == Seq::<char>::empty()
    &&& e.checksum_crc32 is None
    &&& e.checksum_md5 is Some
    &&& e.checksum_md5->0@ == r.md5
    &&& e.valid
    &&& e.state == 0
}

/// Whether the entries are, one for one, those of the records.
pub open spec fn entries_match_records(es: Seq<ChecksumEntry>, rs: Seq<Par2FileRecord>) -> bool {
    &&& es.len() == rs.len()
    &&& forall|i: int| 0 <= i < es.len() ==> entry_matches_record(#[trigger] es[i], rs[i])
}

/// Whether the data starts with a full header that carries the PAR2 magic.
pub open spec fn starts_as_par2(data: Seq<u8>) -> bool {
    data.len() >= 64 && data.subrange(0, 8) == par2_magic()
}

#[derive(Debug)]
pub struct Par2PacketHead {
    pub magic: [u8; 8],
    pub len: u64,
    pub packet_hash: [u8; 16],
    pub recovery_set_id: [u8; 16],
    pub packet_type: [u8; 16],
}

#[derive(Debug)]
pub struct Par2MainPacket {
    pub slice_size: u64,
    pub number_of_files: u32,
}

#[derive(Debug)]
pub struct Par2CreatorPacket {
    pub client_identifier: String,
}

#[derive(Debug)]
pub struct Par2FileDescriptorPacket {
    pub file_id: [u8; 16],
    pub entire_file_md5: [u8; 16],
    pub first_16k_md5: [u8; 16],
    pub length_of_file: u64,
    pub name_of_file: String,
}

impl Par2FileDescriptorPacket {
    pub open spec fn record(&self) -> Par2FileRecord {
        Par2FileRecord {
            file_id: self.file_id@,
            md5: self.entire_file_md5@,
            name: self.name_of_file@,
        }
    }
}

#[derive(Debug)]
pub struct Par2InputFileSliceChecksumPacket {
    pub file_id: [u8; 16],
}

/// A packet body, by packet type; `Unknown` bodies are skipped unread.
#[derive(Debug)]
pub enum Par2PacketTypes {
    Unknown,
    Main(Par2MainPacket),
    Creator(Par2CreatorPacket),
    FileDescriptor(Par2FileDescriptorPacket),
    InputFileSliceChecksum(Par2InputFileSliceChecksumPacket),
}

/// Relies on `String::from_utf8`: it succeeds exactly on valid UTF-8 and then holds the
/// decoded characters.
#[verifier::external_body]
fn utf8_to_string(bytes: &[u8]) -> (r: Option<String>)
    ensures
        r is Some <==> valid_utf8(bytes@),
        r is Some ==> r->0@ == decode_utf8(bytes@),
{
    String::from_utf8(bytes.to_vec()).ok()
}

fn copy8(b: &[u8], off: usize) -> (r: [u8; 8])
    requires
        off + 8 <= b@.len(),
    ensures
        r@ == b@.subrange(off as int, off + 8),
{
    let mut a: [u8; 8] = [0u8; 8];
    let mut k: usize = 0;
    let n: usize = b.len();
    while k < 8
        invariant
            n == b@.len(),
            off + 8 <= b@.len(),
            k <= 8,
            forall|j: int| 0 <= j < k ==> a@[j] == b@[off + j],
        decreases 8 - k,
    {
        a.set(k, b[off + k]);
        k = k + 1;
    }
    assert(a@ =~= b@.subrange(off as int, off + 8));
    a
}

fn copy16(b: &[u8], off: usize) -> (r: [u8; 16])
    requires
        off + 16 <= b@.len(),
    ensures
        r@ == b@.subrange(off as int, off + 16),
{
    let mut a: [u8; 16] = [0u8; 16];
    let mut k: usize = 0;
    let n: usize = b.len();
    while k < 16
        invariant
            n == b@.len(),
            off + 16 <= b@.len(),
            k <= 16,
            forall|j: int| 0 <= j < k ==> a@[j] == b@[off + j],
        decreases 16 - k,
    {
        a.set(k, b[off + k]);
        k = k + 1;
    }
    assert(a@ =~= b@.subrange(off as int, off + 16));
    a
}

/// Whether `data` holds `expected` at `off`.
fn bytes_at(data: &[u8], off: usize, expected: &[u8]) -> (r: bool)
    requires
        off + expected@.len() <= data@.len(),
    ensures
        r == (data@.subrange(off as int, off + expected@.len()) == expected@),
{
    let mut k: usize = 0;
    let n: usize = data.len();
    while k < expected.len()
        invariant
            n == data@.len(),
            off + expected@.len() <= data@.len(),
            k <= expected@.len(),
            forall|j: int| 0 <= j < k ==> data@[off + j] == expected@[j],
        decreases expected@.len() - k,
    {
        if data[off + k] != expected[k] {
            assert(data@.subrange(off as int, off + expected@.len())[k as int] != expected@[k as int]);
            return false;
        }
        k = k + 1;
    }
    assert(data@.subrange(off as int, off + expected@.len()) =~= expected@);
    true
}

fn magic_bytes() -> (r: Vec<u8>)
    ensures
        r@ == par2_magic(),
{
    let r: Vec<u8> = vec![0x50u8, 0x41, 0x52, 0x32, 0x00, 0x50, 0x4b, 0x54];
    assert(r@ =~= par2_magic());
    r
}

fn tag_main_bytes() -> (r: Vec<u8>)
    ensures
        r@ == tag_main(),
{
    let r: Vec<u8> = vec![0x50u8, 0x41, 0x52, 0x20, 0x32, 0x2e, 0x30, 0x00, 0x4d, 0x61, 0x69, 0x6e, 0, 0, 0, 0];
    assert(r@ =~= tag_main());
    r
}

fn tag_creator_bytes() -> (r: Vec<u8>)
    ensures
        r@ == tag_creator(),
{
    let r: Vec<u8> = vec![0x50u8, 0x41, 0x52, 0x20, 0x32, 0x2e, 0x30, 0x00, 0x43, 0x72, 0x65, 0x61, 0x74, 0x6f, 0x72, 0];
    assert(r@ =~= tag_creator());
    r
}

fn tag_file_desc_bytes() -> (r: Vec<u8>)
    ensures
        r@ == tag_file_desc(),
{
    let r: Vec<u8> = vec![0x50u8, 0x41, 0x52, 0x20, 0x32, 0x2e, 0x30, 0x00, 0x46, 0x69, 0x6c, 0x65, 0x44, 0x65, 0x73, 0x63];
    assert(r@ =~= tag_file_desc());
    r
}

fn tag_ifsc_bytes() -> (r: Vec<u8>)
    ensures
        r@ == tag_ifsc(),
{
    let r: Vec<u8> = vec![0x50u8, 0x41, 0x52, 0x20, 0x32, 0x2e, 0x30, 0x00, 0x49, 0x46, 0x53, 0x43, 0, 0, 0, 0];
    assert(r@ =~= tag_ifsc());
    r
}

/// Length of the bytes once their trailing NUL bytes are dropped.
fn trimmed_len(b: &[u8]) -> (n: usize)
    ensures
        n <= b@.len(),
        b@.subrange(0, n as int) == trim_trailing_nul(b@),
{
    let mut n: usize = b.len();
    assert(b@.subrange(0, n as int) =~= b@);
    while n > 0 && b[n - 1] == 0
        invariant
            n <= b@.len(),
            trim_trailing_nul(b@.subrange(0, n as int)) == trim_trailing_nul(b@),
        decreases n,
    {
        assert(b@.subrange(0, n as int).drop_last() =~= b@.subrange(0, n - 1));
        n = n - 1;
    }
    n
}

/// Reads the fields of a packet header; `None` when fewer than 64 bytes are given.
pub fn parse_par2_packet_head(buffer: &[u8]) -> (r: Option<Par2PacketHead>)
    ensures
        r is Some <==> buffer@.len() >= 64,
        r matches Some(h) ==> {
            &&& h.magic@ == buffer@.subrange(0, 8)
            &&& h.len as int == le_u64_value(buffer@.subrange(8, 16))
            &&& h.packet_hash@ == buffer@.subrange(16, 32)
            &&& h.recovery_set_id@ == buffer@.subrange(32, 48)
            &&& h.packet_type@ == buffer@.subrange(48, 64)
        },
{
    if buffer.len() < HEAD_LEN {
        return None;
    }
    let len = slice_u8_to_u64(slice_subrange(buffer, 8, 16));
    Some(
        Par2PacketHead {
            magic: copy8(buffer, 0),
            len,
            packet_hash: copy16(buffer, 16),
            recovery_set_id: copy16(buffer, 32),
            packet_type: copy16(buffer, 48),
        },
    )
}

/// Reads a packet body by the type in its header. `None` when the body is malformed for
/// its type; any unrecognised type gives `Unknown`.
pub fn parse_par2_packet_body(head: &Par2PacketHead, body: &[u8]) -> (r: Option<Par2PacketTypes>)
    ensures
        r is None <==> body_malformed(head.packet_type@, body@),
        r matches Some(p) ==> match p {
            Par2PacketTypes::Unknown => {
                &&& head.packet_type@ != tag_main()
                &&& head.packet_type@ != tag_creator()
                &&& head.packet_type@ != tag_file_desc()
                &&& head.packet_type@ != tag_ifsc()
            },
            Par2PacketTypes::Main(m) => {
                &&& head.packet_type@ == tag_main()
                &&& m.slice_size as int == le_u64_value(body@)
                &&& m.number_of_files as int == le_u32_value(body@.subrange(8, 12))
            },
            Par2PacketTypes::Creator(c) => {
                &&& head.packet_type@ == tag_creator()
                &&& c.client_identifier@ == if valid_utf8(body@) {
                    decode_utf8(body@)
                } else {
                    Seq::empty()
                }
            },
            Par2PacketTypes::FileDescriptor(f) => {
                &&& head.packet_type@ == tag_file_desc()
                &&& file_record_of(body@) == Some(f.record())
                &&& f.first_16k_md5@ == body@.subrange(32, 48)
                &&& f.length_of_file as int == le_u64_value(body@.subrange(48, 56))
            },
            Par2PacketTypes::InputFileSliceChecksum(p) => {
                &&& head.packet_type@ == tag_ifsc()
                &&& p.file_id@ == body@.subrange(0, 16)
            },
        },
{
    let ty = head.packet_type.as_slice();
    let t_main = tag_main_bytes();
    let t_creator = tag_creator_bytes();
    let t_file_desc = tag_file_desc_bytes();
    let t_ifsc = tag_ifsc_bytes();
    assert(ty@.len() == 16);
    if bytes_at(ty, 0, t_creator.as_slice()) {
        assert(ty@.subrange(0, 16) =~= ty@);
        let client = match utf8_to_string(body) {
            Some(s) => s,
            None => String::new(),
        };
        assert(tag_creator() != tag_main()) by {
            assert(tag_creator()[8] != tag_main()[8]);
        }
        assert(tag_creator() != tag_ifsc()) by {
            assert(tag_creator()[8] != tag_ifsc()[8]);
        }
        assert(tag_creator() != tag_file_desc()) by {
            assert(tag_creator()[8] != tag_file_desc()[8]);
        }
        Some(Par2PacketTypes::Creator(Par2CreatorPacket { client_identifier: client }))
    } else if bytes_at(ty, 0, t_main.as_slice()) {
        assert(ty@.subrange(0, 16) =~= ty@);
        assert(tag_main() != tag_ifsc()) by {
            assert(tag_main()[8] != tag_ifsc()[8]);
        }
        assert(tag_main() != tag_file_desc()) by {
            assert(tag_main()[8] != tag_file_desc()[8]);
        }
        if body.len() < 12 {
            return None;
        }
        let slice_size = slice_u8_to_u64(body);
        let number_of_files = slice_u8_to_u32(slice_subrange(body, 8, 12));
        Some(Par2PacketTypes::Main(Par2MainPacket { slice_size, number_of_files }))
    } else if bytes_at(ty, 0, t_ifsc.as_slice()) {
        assert(ty@.subrange(0, 16) =~= ty@);
        assert(tag_ifsc() != tag_file_desc()) by {
            assert(tag_ifsc()[8] != tag_file_desc()[8]);
        }
        if body.len() < 16 {
            return None;
        }
        Some(
            Par2PacketTypes::InputFileSliceChecksum(
                Par2InputFileSliceChecksumPacket { file_id: copy16(body, 0) },
            ),
        )
    } else if bytes_at(ty, 0, t_file_desc.as_slice()) {
        assert(ty@.subrange(0, 16) =~= ty@);
        if body.len() < 56 {
            return None;
        }
        let name_bytes = slice_subrange(body, 56, body.len());
        let n = trimmed_len(name_bytes);
        let name = match utf8_to_string(slice_subrange(name_bytes, 0, n)) {
            Some(s) => s,
            None => {
                return None;
            },
        };
        let f = Par2FileDescriptorPacket {
            file_id: copy16(body, 0),
            entire_file_md5: copy16(body, 16),
            first_16k_md5: copy16(body, 32),
            length_of_file: slice_u8_to_u64(slice_subrange(body, 48, 56)),
            name_of_file: name,
        };
        assert(file_record_of(body@) == Some(f.record()));
        Some(Par2PacketTypes::FileDescriptor(f))
    } else {
        assert(ty@.subrange(0, 16) =~= ty@);
        Some(Par2PacketTypes::Unknown)
    }
}

/// A file id occurs among the records exactly when it occurs among the de-duplicated ones.
proof fn lemma_dedup_keeps_ids(files: Seq<Par2FileRecord>, id: Seq<u8>)
    ensures
        id_seen_before(files, files.len() as int, id) <==> exists|j: int|
            0 <= j < dedup_by_id(files).len() && #[trigger] dedup_by_id(files)[j].file_id == id,
    decreases files.len(),
{
    if files.len() > 0 {
        let prev = files.drop_last();
        lemma_dedup_keeps_ids(prev, id);
        let d = dedup_by_id(files);
        let dp = dedup_by_id(prev);
        if id_seen_before(files, files.len() as int, id) {
            let k = choose|k: int| 0 <= k < files.len() && #[trigger] files[k].file_id == id;
            if k < files.len() - 1 {
                assert(prev[k].file_id == id);
                assert(id_seen_before(prev, prev.len() as int, id));
                let j = choose|j: int| 0 <= j < dp.len() && #[trigger] dp[j].file_id == id;
                assert(d[j].file_id == id);
            } else if id_seen_before(files, files.len() - 1, files.last().file_id) {
                let k2 = choose|k2: int| 0 <= k2 < files.len() - 1 && #[trigger] files[k2].file_id
                    == files.last().file_id;
                assert(prev[k2].file_id == id);
                assert(id_seen_before(prev, prev.len() as int, id));
                let j = choose|j: int| 0 <= j < dp.len() && #[trigger] dp[j].file_id == id;
                assert(d[j].file_id == id);
            } else {
                assert(d[dp.len() as int].file_id == id);
            }
        }
        if exists|j: int| 0 <= j < d.len() && #[trigger] d[j].file_id == id {
            let j = choose|j: int| 0 <= j < d.len() && #[trigger] d[j].file_id == id;
            if j < dp.len() {
                assert(dp[j].file_id == id);
                let k = choose|k: int| 0 <= k < prev.len() && #[trigger] prev[k].file_id == id;
                assert(files[k].file_id == id);
            } else {
                assert(files[files.len() - 1].file_id == id);
            }
        }
    }
}

/// Whether `id` is one of `ids`.
fn contains_id(ids: &Vec<[u8; 16]>, id: &[u8; 16]) -> (r: bool)
    ensures
        r == exists|k: int| 0 <= k < ids@.len() && #[trigger] ids@[k]@ == id@,
{
    let mut k: usize = 0;
    while k < ids.len()
        invariant
            k <= ids@.len(),
            forall|j: int| 0 <= j < k ==> #[trigger] ids@[j]@ != id@,
        decreases ids@.len() - k,
    {
        let cand: &[u8; 16] = &ids[k];
        if bytes_at(cand.as_slice(), 0, id.as_slice()) {
            assert(cand@.subrange(0, 16) =~= cand@);
            return true;
        }
        assert(cand@.subrange(0, 16) =~= cand@);
        k = k + 1;
    }
    false
}

/// Parses the packets of a PAR2 catalog. With `check_only` it stops after the first header,
/// valid exactly when that header carries the magic.
fn read_par2_packets(filepath: &String, data: &[u8], check_only: bool) -> (r: ChecksumCatalog)
    ensures
        r.source_type == SourceTypes::PAR2,
        r.source_file@ == filepath@,
        !r.complete,
        r.state == 0,
        check_only ==> r.valid == (data@.len() == 0 || starts_as_par2(data@)),
        check_only ==> r.entries@.len() == 0,
        !check_only ==> r.valid == scan_packets(data@, 0).valid,
        !check_only ==> entries_match_records(
            r.entries@,
            dedup_by_id(scan_packets(data@, 0).files),
        ),
{
    let magic = magic_bytes();
    let mut entries: Vec<ChecksumEntry> = Vec::new();
    let mut file_ids: Vec<[u8; 16]> = Vec::new();
    let mut pos: usize = 0;
    let mut stopped = false;
    let mut valid = true;
    let ghost mut seen: Seq<Par2FileRecord> = Seq::empty();
    let n: usize = data.len();
    while pos < n
        invariant
            n == data@.len(),
            pos <= n,
            magic@ == par2_magic(),
            stopped ==> pos == n,
            !check_only ==> valid == !stopped,
            check_only && !stopped ==> valid,
            stopped ==> n > 0,
            !check_only ==> scan_packets(data@, 0).valid == (!stopped && scan_packets(
                data@,
                pos as int,
            ).valid),
            !check_only ==> scan_packets(data@, 0).files == seen + if stopped {
                Seq::<Par2FileRecord>::empty()
            } else {
                scan_packets(data@, pos as int).files
            },
            check_only ==> pos == 0 || stopped,
            check_only ==> entries@.len() == 0,
            check_only && stopped ==> (valid <==> starts_as_par2(data@)),
            entries_match_records(entries@, dedup_by_id(seen)),
            file_ids@.len() == dedup_by_id(seen).len(),
            forall|i: int| 0 <= i < file_ids@.len() ==> #[trigger] file_ids@[i]@ == dedup_by_id(
                seen,
            )[i].file_id,
        decreases n - pos,
    {
        if n - pos < HEAD_LEN {
            stopped = true;
            valid = false;
            pos = n;
        } else {
            let head = match parse_par2_packet_head(slice_subrange(data, pos, pos + HEAD_LEN)) {
                Some(h) => h,
                None => {
                    // a slice of HEAD_LEN bytes always holds a header
                    return ChecksumCatalog {
                        entries,
                        valid: false,
                        complete: false,
                        source_type: SourceTypes::PAR2,
                        source_file: filepath.clone(),
                        state: 0,
                    };
                },
            };
            let ghost hd = data@.subrange(pos as int, pos + 64);
            assert(hd.subrange(0, 8) =~= data@.subrange(pos as int, pos + 8));
            assert(hd.subrange(8, 16) =~= data@.subrange(pos + 8, pos + 16));
            assert(hd.subrange(48, 64) =~= data@.subrange(pos + 48, pos + 64));
            let magic_ok = bytes_at(head.magic.as_slice(), 0, magic.as_slice());
            assert(head.magic@.subrange(0, 8) =~= head.magic@);
            if !magic_ok {
                stopped = true;
                valid = false;
                pos = n;
            } else if check_only {
                stopped = true;
                pos = n;
            } else {
                let len = head.len;
                if len < 64 || len > (n - pos) as u64 {
                    stopped = true;
                    valid = false;
                    pos = n;
                } else {
                    let end: usize = pos + len as usize;
                    let body = slice_subrange(data, pos + HEAD_LEN, end);
                    let parsed = parse_par2_packet_body(&head, body);
                    match parsed {
                        None => {
                            stopped = true;
                            valid = false;
                            pos = n;
                        },
                        Some(Par2PacketTypes::FileDescriptor(f)) => {
                            let ghost rec = f.record();
                            let ghost old_seen = seen;
                            proof {
                                lemma_dedup_keeps_ids(seen, rec.file_id);
                                seen = seen.push(rec);
                                assert(seen.drop_last() =~= old_seen);
                                assert(id_seen_before(seen, seen.len() - 1, rec.file_id)
                                    == id_seen_before(old_seen, old_seen.len() as int, rec.file_id))
                                    by {
                                    if id_seen_before(seen, seen.len() - 1, rec.file_id) {
                                        let k = choose|k: int| 0 <= k < seen.len() - 1
                                            && #[trigger] seen[k].file_id == rec.file_id;
                                        assert(old_seen[k].file_id == rec.file_id);
                                    }
                                    if id_seen_before(old_seen, old_seen.len() as int, rec.file_id) {
                                        let k = choose|k: int| 0 <= k < old_seen.len()
                                            && #[trigger] old_seen[k].file_id == rec.file_id;
                                        assert(seen[k].file_id == rec.file_id);
                                    }
                                }
                            }
                            if !contains_id(&file_ids, &f.file_id) {
                                proof {
                                    if exists|j: int| 0 <= j < dedup_by_id(old_seen).len()
                                        && #[trigger] dedup_by_id(old_seen)[j].file_id == rec.file_id {
                                        let j = choose|j: int| 0 <= j < dedup_by_id(old_seen).len()
                                            && #[trigger] dedup_by_id(old_seen)[j].file_id == rec.file_id;
                                        assert(file_ids@[j]@ == f.file_id@);
                                    }
                                }
                                file_ids.push(f.file_id);
                                entries.push(
                                    ChecksumEntry {
                                        filename: f.name_of_file,
                                        path: String::new(),
                                        checksum_crc32: None,
                                        checksum_md5: Some(f.entire_file_md5),
                                        valid: true,
                                        state: 0,
                                    },
                                );
                            } else {
                                proof {
                                    let k = choose|k: int| 0 <= k < file_ids@.len()
                                        && #[trigger] file_ids@[k]@ == f.file_id@;
                                    assert(dedup_by_id(old_seen)[k].file_id == rec.file_id);
                                }
                            }
                            proof {
                                assert(seen + scan_packets(data@, end as int).files =~= old_seen
                                    + scan_packets(data@, pos as int).files);
                            }
                            pos = end;
                        },
                        Some(_) => {
                            pos = end;
                        },
                    }
                }
            }
        }
    }
    ChecksumCatalog {
        entries,
        valid,
        complete: false,
        source_type: SourceTypes::PAR2,
        source_file: filepath.clone(),
        state: 0,
    }
}

/// Parses a PAR2 catalog held in `data`, read from `filepath`: one entry per distinct file
/// id of its FileDescriptor packets, in order of first occurrence, and whether it was valid.
pub fn read_par2(filepath: &String, data: &[u8]) -> (r: ChecksumCatalog)
    ensures
        r.source_type == SourceTypes::PAR2,
        r.source_file@ == filepath@,
        !r.complete,
        r.state == 0,
        r.valid == scan_packets(data@, 0).valid,
        entries_match_records(r.entries@, dedup_by_id(scan_packets(data@, 0).files)),
{
    read_par2_packets(filepath, data, false)
}

/// Whether `data` begins as a PAR2 catalog: a full first header carrying the magic.
pub fn is_par2(data: &[u8]) -> (r: bool)
    ensures
        r == starts_as_par2(data@),
{
    if data.len() == 0 {
        return false;
    }
    let probe = read_par2_packets(&String::new(), data, true);
    probe.valid
}

/// Whether `p` is one well-formed FileDescriptor packet, whose length field gives its own
/// length, and which describes `rec`.
pub open spec fn is_file_desc_packet(p: Seq<u8>, rec: Par2FileRecord) -> bool {
    &&& p.len() >= 120
    &&& p.subrange(0, 8) == par2_magic()
    &&& packet_len_at(p, 0) == p.len()
    &&& p.subrange(48, 64) == tag_file_desc()
    &&& file_record_of(p.subrange(64, p.len() as int)) == Some(rec)
}

/// The packets written one after another.
pub open spec fn concat_packets(ps: Seq<Seq<u8>>) -> Seq<u8>
    decreases ps.len(),
{
    if ps.len() == 0 {
        Seq::empty()
    } else {
        ps[0] + concat_packets(ps.drop_first())
    }
}

/// Scanning data placed after a prefix is scanning the data alone.
proof fn lemma_scan_shift(a: Seq<u8>, b: Seq<u8>, p: int)
    requires
        0 <= p,
    ensures
        scan_packets(a + b, a.len() + p) == scan_packets(b, p),
    decreases b.len() - p,
{
    let d = a + b;
    let pos = a.len() + p;
    if p < b.len() {
        if b.len() - p >= 64 {
            assert(d.subrange(pos, pos + 8) =~= b.subrange(p, p + 8));
            assert(d.subrange(pos + 8, pos + 16) =~= b.subrange(p + 8, p + 16));
            assert(d.subrange(pos + 48, pos + 64) =~= b.subrange(p + 48, p + 64));
            let len = packet_len_at(b, p);
            if len >= 64 && len <= b.len() - p {
                assert(d.subrange(pos + 64, pos + len) =~= b.subrange(p + 64, p + len));
                lemma_scan_shift(a, b, p + len);
            }
        }
    }
}

/// A packet followed by more data: its record comes first, then those of the rest.
proof fn lemma_scan_file_desc_first(p: Seq<u8>, rec: Par2FileRecord, rest: Seq<u8>)
    requires
        is_file_desc_packet(p, rec),
    ensures
        scan_packets(p + rest, 0) == (Par2Scan {
            valid: scan_packets(rest, 0).valid,
            files: seq![rec] + scan_packets(rest, 0).files,
        }),
{
    let d = p + rest;
    assert(d.subrange(0, 8) =~= p.subrange(0, 8));
    assert(d.subrange(8, 16) =~= p.subrange(8, 16));
    assert(d.subrange(48, 64) =~= p.subrange(48, 64));
    assert(d.subrange(64, p.len() as int) =~= p.subrange(64, p.len() as int));
    lemma_scan_shift(p, rest, 0);
}

/// Packets in order give their records in order, and the catalog stays valid.
proof fn lemma_scan_packets(packets: Seq<Seq<u8>>, records: Seq<Par2FileRecord>)
    requires
        packets.len() == records.len(),
        forall|i: int| 0 <= i < packets.len() ==> is_file_desc_packet(#[trigger] packets[i], records[i]),
    ensures
        scan_packets(concat_packets(packets), 0) == (Par2Scan { valid: true, files: records }),
    decreases packets.len(),
{
    if packets.len() == 0 {
        assert(records =~= Seq::<Par2FileRecord>::empty());
    } else {
        let tail = packets.drop_first();
        let rtail = records.drop_first();
        assert forall|i: int| 0 <= i < tail.len() implies is_file_desc_packet(
            #[trigger] tail[i],
            rtail[i],
        ) by {
            assert(is_file_desc_packet(packets[i + 1], records[i + 1]));
        }
        lemma_scan_packets(tail, rtail);
        assert(is_file_desc_packet(packets[0], records[0]));
        lemma_scan_file_desc_first(packets[0], records[0], concat_packets(tail));
        assert(seq![records[0]] + rtail =~= records);
    }
}

/// Records whose file ids are pairwise distinct are kept as they are.
proof fn lemma_dedup_distinct(files: Seq<Par2FileRecord>)
    requires
        forall|i: int, j: int|
            0 <= i < j < files.len() ==> #[trigger] files[i].file_id != #[trigger] files[j].file_id,
    ensures
        dedup_by_id(files) == files,
    decreases files.len(),
{
    if files.len() > 0 {
        let prev = files.drop_last();
        lemma_dedup_distinct(prev);
        if id_seen_before(files, files.len() - 1, files.last().file_id) {
            let k = choose|k: int| 0 <= k < files.len() - 1 && #[trigger] files[k].file_id
                == files.last().file_id;
            assert(files[k].file_id != files[files.len() - 1].file_id);
        }
        assert(prev.push(files.last()) =~= files);
    }
}

/// A catalog made of well-formed FileDescriptor packets with distinct file ids parses as
/// valid, to one entry per packet in order, with the packet's name and MD5.
pub proof fn lemma_par2_round_trip(packets: Seq<Seq<u8>>, records: Seq<Par2FileRecord>)
    requires
        packets.len() == records.len(),
        forall|i: int| 0 <= i < packets.len() ==> is_file_desc_packet(#[trigger] packets[i], records[i]),
        forall|i: int, j: int|
            0 <= i < j < records.len() ==> #[trigger] records[i].file_id != #[trigger] records[j].file_id,
    ensures
        scan_packets(concat_packets(packets), 0).valid,
        dedup_by_id(scan_packets(concat_packets(packets), 0).files) == records,
{
    lemma_scan_packets(packets, records);
    lemma_dedup_distinct(records);
}

/// Two FileDescriptor packets with the same file id give one entry: the first one's.
pub proof fn lemma_par2_duplicate_id_kept_once(
    first: Seq<u8>,
    rec1: Par2FileRecord,
    second: Seq<u8>,
    rec2: Par2FileRecord,
)
    requires
        is_file_desc_packet(first, rec1),
        is_file_desc_packet(second, rec2),
        rec1.file_id == rec2.file_id,
    ensures
        scan_packets(first + second, 0).valid,
        dedup_by_id(scan_packets(first + second, 0).files) == seq![rec1],
{
    let ps = seq![first, second];
    let rs = seq![rec1, rec2];
    assert(concat_packets(ps.drop_first().drop_first()) =~= Seq::<u8>::empty());
    assert(concat_packets(ps.drop_first()) =~= second);
    assert(concat_packets(ps) =~= first + second);
    lemma_scan_packets(ps, rs);
    let files = scan_packets(first + second, 0).files;
    assert(files == rs);
    assert(files.drop_last() =~= seq![rec1]);
    assert(seq![rec1].drop_last() =~= Seq::<Par2FileRecord>::empty());
    assert(id_seen_before(files, 1, rec2.file_id)) by {
        assert(files[0].file_id == rec2.file_id);
    }
    assert(dedup_by_id(seq![rec1]) =~= seq![rec1]) by {
        assert(dedup_by_id(Seq::<Par2FileRecord>::empty()) == Seq::<Par2FileRecord>::empty());
        assert(!id_seen_before(seq![rec1], 0, rec1.file_id));
        assert(Seq::<Par2FileRecord>::empty().push(rec1) =~= seq![rec1]);
    }
}

} // verus!
