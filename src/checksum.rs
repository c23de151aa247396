//! The checksum engine: CRC-32 (IEEE) and MD5 of a byte stream, fed in chunks.

use vstd::prelude::*;
use crate::file_verification::ChecksumEntry;
use vstd::slice::slice_subrange;
use crate::utils::{chars_of, string_from_chars};

verus! {

#[verifier::external_type_specification]
#[verifier::external_body]
pub struct ExMd5Context(md5::Context);

/// The bytes that an MD5 context has consumed since it was created.
pub uninterp spec fn md5_consumed(c: md5::Context) -> Seq<u8>;

/// The MD5 digest of the bytes.
pub uninterp spec fn md5_of(data: Seq<u8>) -> Seq<u8>;

/// The CRC-32 (IEEE) value after folding the bytes into the value `crc`.
pub uninterp spec fn crc32_update_of(crc: u32, data: Seq<u8>) -> u32;

/// The CRC-32 (IEEE) checksum of the bytes.
pub open spec fn crc32_of(data: Seq<u8>) -> u32 {
    crc32_update_of(0, data)
}

/// Relies on `md5::Context::new`: a fresh context has consumed nothing.
#[verifier::external_body]
fn md5_new() -> (c: md5::Context)
    ensures
        md5_consumed(c) == Seq::<u8>::empty(),
{
    md5::Context::new()
}

/// Relies on `md5::Context::consume`: the data is added after what the context consumed.
#[verifier::external_body]
fn md5_consume(c: &mut md5::Context, data: &[u8])
    ensures
        md5_consumed(*final(c)) == md5_consumed(*old(c)) + data@,
{
    c.consume(data)
}

/// Relies on `md5::Context::compute`: the MD5 digest of everything the context consumed.
#[verifier::external_body]
fn md5_compute(c: md5::Context) -> (r: [u8; 16])
    ensures
        r@ == md5_of(md5_consumed(c)),
{
    c.compute().0
}

/// Relies on `crc::crc32::update` with `crc::crc32::IEEE_TABLE`: it folds the bytes into the
/// running value, complementing it before and after, so folding more bytes into the
/// result is folding the joined bytes into the value given.
#[verifier::external_body]
fn crc32_update(crc: u32, data: &[u8]) -> (r: u32)
    ensures
        r == crc32_update_of(crc, data@),
        forall|more: Seq<u8>| #[trigger]
            crc32_update_of(r, more) == crc32_update_of(crc, data@ + more),
{
    crc::crc32::update(crc, &crc::crc32::IEEE_TABLE, data)
}

/// Accumulates the CRC-32 and the MD5 of a stream of chunks in one pass.
pub struct ChecksumAccumulator {
    crc: u32,
    md5: md5::Context,
    consumed: Ghost<Seq<u8>>,
}

impl ChecksumAccumulator {
    /// The bytes fed so far.
    pub closed spec fn consumed(&self) -> Seq<u8> {
        self.consumed@
    }

    pub closed spec fn wf(&self) -> bool {
        &&& md5_consumed(self.md5) == self.consumed@
        &&& self.crc == crc32_update_of(0, self.consumed@)
        &&& forall|more: Seq<u8>| #[trigger]
            crc32_update_of(self.crc, more) == crc32_update_of(0, self.consumed@ + more)
    }

    pub fn new() -> (r: Self)
        ensures
            r.wf(),
            r.consumed() == Seq::<u8>::empty(),
    {
        let nothing: Vec<u8> = Vec::new();
        let crc = crc32_update(0, nothing.as_slice());
        let r = ChecksumAccumulator { crc, md5: md5_new(), consumed: Ghost(Seq::empty()) };
        assert forall|more: Seq<u8>| #[trigger]
            crc32_update_of(r.crc, more) == crc32_update_of(0, r.consumed@ + more) by {
            assert(r.consumed@ + more =~= more);
            assert(nothing@ + more =~= more);
        }
        assert(nothing@ =~= r.consumed@);
        r
    }

    /// Feeds the next chunk of the stream.
    pub fn consume(&mut self, chunk: &[u8])
        requires
            old(self).wf(),
        ensures
            final(self).wf(),
            final(self).consumed() == old(self).consumed() + chunk@,
    {
        let ghost before = self.consumed@;
        let ghost crc0 = self.crc;
        let next = crc32_update(self.crc, chunk);
        md5_consume(&mut self.md5, chunk);
        self.crc = next;
        self.consumed = Ghost(before + chunk@);
        assert forall|more: Seq<u8>| #[trigger]
            crc32_update_of(self.crc, more) == crc32_update_of(0, self.consumed@ + more) by {
            assert(crc32_update_of(next, more) == crc32_update_of(crc0, chunk@ + more));
            assert(crc32_update_of(crc0, chunk@ + more) == crc32_update_of(
                0,
                before + (chunk@ + more),
            ));
            assert(before + (chunk@ + more) =~= (before + chunk@) + more);
        }
    }

    /// The CRC-32 and the MD5 of everything fed.
    pub fn finish(self) -> (r: (u32, [u8; 16]))
        requires
            self.wf(),
        ensures
            r.0 == crc32_of(self.consumed()),
            r.1@ == md5_of(self.consumed()),
    {
        (self.crc, md5_compute(self.md5))
    }
}

/// The part of a path after its last `/`.
pub open spec fn last_component(path: Seq<char>) -> Seq<char>
    decreases path.len(),
{
    if path.len() == 0 || path.last() == '/' {
        Seq::empty()
    } else {
        last_component(path.drop_last()).push(path.last())
    }
}

/// The file name of a path: what follows its last `/`.
pub fn file_name_of(path: &String) -> (r: String)
    ensures
        r@ == last_component(path@),
{
    let cs = chars_of(path.as_str());
    let n: usize = cs.len();
    let mut start: usize = n;
    assert(cs@.subrange(0, n as int) =~= cs@);
    assert(last_component(cs@) + cs@.subrange(n as int, n as int) =~= last_component(cs@));
    while start > 0 && cs[start - 1] != '/'
        invariant
            start <= n,
            n == cs@.len(),
            last_component(cs@) == last_component(cs@.subrange(0, start as int)) + cs@.subrange(
                start as int,
                n as int,
            ),
        decreases start,
    {
        let ghost pre = cs@.subrange(0, start as int);
        assert(pre.drop_last() =~= cs@.subrange(0, start - 1));
        assert(cs@.subrange(start - 1, n as int) =~= seq![pre.last()] + cs@.subrange(
            start as int,
            n as int,
        ));
        assert(last_component(pre.drop_last()).push(pre.last()) + cs@.subrange(start as int, n as int)
            =~= last_component(pre.drop_last()) + cs@.subrange(start - 1, n as int));
        start = start - 1;
    }
    assert(last_component(cs@.subrange(0, start as int)) =~= Seq::<char>::empty());
    assert(Seq::<char>::empty() + cs@.subrange(start as int, n as int) =~= cs@.subrange(
        start as int,
        n as int,
    ));
    string_from_chars(slice_subrange(cs.as_slice(), start, n))
}

/// The entry for the file at `path` whose bytes were fed to `acc`.
pub fn checksum_entry(path: &String, acc: ChecksumAccumulator) -> (r: ChecksumEntry)
    requires
        acc.wf(),
    ensures
        r.filename@ == last_component(path@),
        r.path@ == path@,
        r.checksum_crc32 == Some(crc32_of(acc.consumed())),
        r.checksum_md5 is Some,
        r.checksum_md5->0@ == md5_of(acc.consumed()),
        r.valid,
        r.state == 0,
{
    let (crc, md5) = acc.finish();
    ChecksumEntry {
        filename: file_name_of(path),
        path: path.clone(),
        checksum_crc32: Some(crc),
        checksum_md5: Some(md5),
        valid: true,
        state: 0,
    }
}

/// Marks of a progress bar of `width` marks after `read` of `total` bytes; a full bar
/// when there is nothing to read.
pub fn progress_marks(read: u64, total: u64, width: u64) -> (r: u64)
    requires
        read <= total,
    ensures
        total == 0 ==> r == width,
        total > 0 ==> r as int == (width as int * read as int) / total as int,
        r <= width,
{
    if total == 0 {
        return width;
    }
    assert(width as int * read as int <= 0xffff_ffff_ffff_ffff * 0xffff_ffff_ffff_ffff) by (nonlinear_arith)
        requires
            width <= 0xffff_ffff_ffff_ffffu64,
            read <= 0xffff_ffff_ffff_ffffu64,
    ;
    let prod: u128 = width as u128 * read as u128;
    let q: u128 = prod / total as u128;
    assert(q <= width as u128) by (nonlinear_arith)
        requires
            prod == width as u128 * read as u128,
            q == prod / total as u128,
            read <= total,
            total > 0,
    {
        assert(width as int * read as int <= width as int * total as int);
        assert((width as int * total as int) / total as int == width as int);
    }
    q as u64
}

/// The contents of each list.
pub open spec fn contents_of(parts: Seq<Vec<ChecksumEntry>>) -> Seq<Seq<ChecksumEntry>> {
    parts.map_values(|p: Vec<ChecksumEntry>| p@)
}

/// The entries of the workers' lists, list after list, in order.
pub fn merge_worker_results(parts: Vec<Vec<ChecksumEntry>>) -> (r: Vec<ChecksumEntry>)
    ensures
        r@ == contents_of(parts@).flatten(),
{
    let ghost all = contents_of(parts@);
    let mut parts = parts;
    let mut out: Vec<ChecksumEntry> = Vec::new();
    let ghost mut done: int = 0;
    assert(all.subrange(0, 0) =~= Seq::<Seq<ChecksumEntry>>::empty());
    assert(contents_of(parts@) =~= all.subrange(0, all.len() as int));
    while parts.len() > 0
        invariant
            0 <= done <= all.len(),
            parts@.len() == all.len() - done,
            contents_of(parts@) == all.subrange(done, all.len() as int),
            out@ == all.subrange(0, done).flatten(),
        decreases parts@.len(),
    {
        let ghost before = parts@;
        let mut part = parts.remove(0);
        assert(part@ == all[done]) by {
            assert(contents_of(before)[0] == part@);
        }
        out.append(&mut part);
        proof {
            vstd::seq_lib::lemma_flatten_concat(all.subrange(0, done), seq![all[done]]);
            assert(all.subrange(0, done) + seq![all[done]] =~= all.subrange(0, done + 1));
            seq![all[done]].lemma_flatten_one_element();
            assert forall|i: int| 0 <= i < parts@.len() implies #[trigger] contents_of(parts@)[i]
                == all[done + 1 + i] by {
                assert(parts@[i] == before[i + 1]);
                assert(contents_of(before)[i + 1] == all[done + 1 + i]);
            }
            done = done + 1;
            assert(contents_of(parts@) =~= all.subrange(done, all.len() as int));
        }
    }
    assert(all.subrange(0, all.len() as int) =~= all);
    out
}

/// What the engine reports for one file: its path and the checksums of its bytes.
pub struct DigestRecord {
    pub path: Seq<char>,
    pub crc32: u32,
    pub md5: Seq<u8>,
}

/// The record of a file given by its path and its bytes.
pub open spec fn digest_record(file: (Seq<char>, Seq<u8>)) -> DigestRecord {
    DigestRecord { path: file.0, crc32: crc32_of(file.1), md5: md5_of(file.1) }
}

/// The merged results of workers, each of which digested the files at the indices of its
/// list, in that order.
pub open spec fn worker_results(files: Seq<(Seq<char>, Seq<u8>)>, split: Seq<Seq<int>>) -> Seq<
    DigestRecord,
> {
    split.map_values(|w: Seq<int>| w.map_values(|i: int| digest_record(files[i]))).flatten()
}

proof fn lemma_flatten_map<A, B>(s: Seq<Seq<A>>, g: spec_fn(A) -> B)
    ensures
        s.map_values(|w: Seq<A>| w.map_values(g)).flatten() == s.flatten().map_values(g),
    decreases s.len(),
{
    if s.len() > 0 {
        lemma_flatten_map(s.drop_first(), g);
        let m = s.map_values(|w: Seq<A>| w.map_values(g));
        assert(m.drop_first() =~= s.drop_first().map_values(|w: Seq<A>| w.map_values(g)));
        assert((s.first() + s.drop_first().flatten()).map_values(g) =~= s.first().map_values(g)
            + s.drop_first().flatten().map_values(g));
    } else {
        assert(s.map_values(|w: Seq<A>| w.map_values(g)).flatten() =~= s.flatten().map_values(g));
    }
}

proof fn lemma_map_keeps_multiset<A, B>(s: Seq<A>, t: Seq<A>, g: spec_fn(A) -> B)
    requires
        s.to_multiset() == t.to_multiset(),
    ensures
        s.map_values(g).to_multiset() == t.map_values(g).to_multiset(),
    decreases s.len(),
{
    broadcast use vstd::seq_lib::group_to_multiset_ensures, vstd::multiset::group_multiset_axioms;

    vstd::seq_lib::to_multiset_len(s);
    vstd::seq_lib::to_multiset_len(t);
    if s.len() == 0 {
        assert(t.len() == 0);
        assert(s.map_values(g) =~= Seq::<B>::empty());
        assert(t.map_values(g) =~= Seq::<B>::empty());
    } else {
        let x = s.last();
        let s1 = s.drop_last();
        assert(s1.push(x) =~= s);
        vstd::seq_lib::to_multiset_build(s1, x);
        assert(t.to_multiset().count(x) > 0);
        assert(t.contains(x));
        let k = choose|k: int| 0 <= k < t.len() && t[k] == x;
        let t1 = t.remove(k);
        vstd::seq_lib::to_multiset_remove(t, k);
        assert(t1.to_multiset() =~= s1.to_multiset());
        lemma_map_keeps_multiset(s1, t1, g);
        assert(s1.map_values(g).push(g(x)) =~= s.map_values(g));
        vstd::seq_lib::to_multiset_build(s1.map_values(g), g(x));
        assert(t.map_values(g).remove(k) =~= t1.map_values(g));
        vstd::seq_lib::to_multiset_remove(t.map_values(g), k);
        assert(t.map_values(g).to_multiset() =~= t1.map_values(g).to_multiset().insert(g(x)));
    }
}

/// However the files are split over workers, provided each file goes to exactly one
/// worker, the merged results hold the same records: one per file, with the checksums of
/// its bytes.
pub proof fn lemma_worker_split_irrelevant(files: Seq<(Seq<char>, Seq<u8>)>, split: Seq<Seq<int>>)
    requires
        split.flatten().to_multiset() == Seq::new(files.len(), |i: int| i).to_multiset(),
    ensures
        worker_results(files, split).to_multiset() == files.map_values(
            |f: (Seq<char>, Seq<u8>)| digest_record(f),
        ).to_multiset(),
{
    let g = |i: int| digest_record(files[i]);
    lemma_flatten_map(split, g);
    assert(split.map_values(|w: Seq<int>| w.map_values(|i: int| digest_record(files[i])))
        =~= split.map_values(|w: Seq<int>| w.map_values(g)));
    let all = Seq::new(files.len(), |i: int| i);
    lemma_map_keeps_multiset(split.flatten(), all, g);
    assert(all.map_values(g) =~= files.map_values(|f: (Seq<char>, Seq<u8>)| digest_record(f)));
}

} // verus!
