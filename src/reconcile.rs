//! Matching of files found on disk against catalog entries by checksum, and the
//! bookkeeping of which catalog entries were found.

use vstd::prelude::*;
use crate::file_verification::{
    chars_end_with, ends_with, par2_suffix, sfv_suffix, state_has, ChecksumCatalog, ChecksumEntry,
    STATE_FILE_FOUND,
};
use crate::utils::{chars_of, string_from_chars};

verus! {

/// A proposed rename: the file at `source_file` should be called `target_name`.
#[derive(Clone, Debug)]
pub struct RenamingRecommendation {
    pub source_file: String,
    pub target_name: String,
}

/// A recommendation as plain text.
pub struct RecommendationView {
    pub source: Seq<char>,
    pub target: Seq<char>,
}

impl RenamingRecommendation {
    pub open spec fn view(&self) -> RecommendationView {
        RecommendationView { source: self.source_file@, target: self.target_name@ }
    }
}

/// Whether the entry has been matched.
pub open spec fn is_found(e: ChecksumEntry) -> bool {
    state_has(e.state, STATE_FILE_FOUND)
}

/// The entry with its found bit set.
pub open spec fn mark_found(e: ChecksumEntry) -> ChecksumEntry {
    e.with_state(e.state | (1u64 << STATE_FILE_FOUND))
}

/// Both entries carry a CRC-32 and the two agree, or both carry an MD5 and the two agree.
pub open spec fn checksums_agree(e: ChecksumEntry, c: ChecksumEntry) -> bool {
    (e.checksum_crc32 is Some && c.checksum_crc32 is Some && e.checksum_crc32 == c.checksum_crc32)
        || (e.checksum_md5 is Some && c.checksum_md5 is Some && e.checksum_md5->0@
        == c.checksum_md5->0@)
}

/// Whether file `e` may be matched with catalog entry `c`.
pub open spec fn can_match(e: ChecksumEntry, c: ChecksumEntry) -> bool {
    c.valid && !is_found(e) && !is_found(c) && checksums_agree(e, c)
}

/// The first of the first `n` catalog entries that `e` may be matched with.
pub open spec fn first_match_upto(e: ChecksumEntry, cat: Seq<ChecksumEntry>, n: int) -> Option<int>
    decreases n,
{
    if n <= 0 || n > cat.len() {
        None
    } else {
        match first_match_upto(e, cat, n - 1) {
            Some(j) => Some(j),
            None => if can_match(e, cat[n - 1]) {
                Some(n - 1)
            } else {
                None
            },
        }
    }
}

/// The first catalog entry that `e` may be matched with.
pub open spec fn first_match(e: ChecksumEntry, cat: Seq<ChecksumEntry>) -> Option<int> {
    first_match_upto(e, cat, cat.len() as int)
}

/// Files, catalog entries and recommendations after matching.
pub struct Reconciled {
    pub existing: Seq<ChecksumEntry>,
    pub catalog: Seq<ChecksumEntry>,
    pub recommendations: Seq<RecommendationView>,
}

/// Takes the files in order; each unmatched file is matched with the first catalog entry
/// that it may be matched with, if any, and both are marked found.
pub open spec fn reconcile(existing: Seq<ChecksumEntry>, catalog: Seq<ChecksumEntry>) -> Reconciled
    decreases existing.len(),
{
    if existing.len() == 0 {
        Reconciled { existing: Seq::empty(), catalog, recommendations: Seq::empty() }
    } else {
        let p = reconcile(existing.drop_last(), catalog);
        let e = existing.last();
        match first_match(e, p.catalog) {
            None => Reconciled {
                existing: p.existing.push(e),
                catalog: p.catalog,
                recommendations: p.recommendations,
            },
            Some(j) => Reconciled {
                existing: p.existing.push(mark_found(e)),
                catalog: p.catalog.update(j, mark_found(p.catalog[j])),
                recommendations: p.recommendations.push(
                    RecommendationView { source: e.path@, target: p.catalog[j].filename@ },
                ),
            },
        }
    }
}

pub open spec fn views_of(rs: Seq<RenamingRecommendation>) -> Seq<RecommendationView> {
    rs.map_values(|r: RenamingRecommendation| r.view())
}

proof fn lemma_mark_found_is_found(e: ChecksumEntry)
    ensures
        is_found(mark_found(e)),
{
    let s = e.state;
    assert((s | (1u64 << 0u8)) & (1u64 << 0u8) == (1u64 << 0u8)) by (bit_vector);
}

fn md5_equal(a: &[u8; 16], b: &[u8; 16]) -> (r: bool)
    ensures
        r == (a@ == b@),
{
    let mut k: usize = 0;
    while k < 16
        invariant
            a@.len() == 16,
            b@.len() == 16,
            k <= 16,
            forall|j: int| 0 <= j < k ==> a@[j] == b@[j],
        decreases 16 - k,
    {
        if a[k] != b[k] {
            return false;
        }
        k = k + 1;
    }
    assert(a@ =~= b@);
    true
}

fn checksums_agree_exec(e: &ChecksumEntry, c: &ChecksumEntry) -> (r: bool)
    ensures
        r == checksums_agree(*e, *c),
{
    let crc_matches = match (e.checksum_crc32, c.checksum_crc32) {
        (Some(x), Some(y)) => x == y,
        _ => false,
    };
    let md5_matches = match (&e.checksum_md5, &c.checksum_md5) {
        (Some(x), Some(y)) => md5_equal(x, y),
        _ => false,
    };
    crc_matches || md5_matches
}

/// Matches files on disk with catalog entries by checksum and proposes one rename per
/// match. Matched files and entries get their found bit set, so neither is matched again.
pub fn get_repair_recommendations(
    existing_checksums: &mut Vec<ChecksumEntry>,
    target_checksums: &mut Vec<ChecksumEntry>,
) -> (r: Vec<RenamingRecommendation>)
    ensures
        final(existing_checksums)@ == reconcile(old(existing_checksums)@, old(target_checksums)@).existing,
        final(target_checksums)@ == reconcile(old(existing_checksums)@, old(target_checksums)@).catalog,
        views_of(r@) == reconcile(old(existing_checksums)@, old(target_checksums)@).recommendations,
{
    let ghost ex0 = existing_checksums@;
    let ghost tg0 = target_checksums@;
    let mut recommendations: Vec<RenamingRecommendation> = Vec::new();
    let n: usize = existing_checksums.len();
    let m: usize = target_checksums.len();
    let mut i: usize = 0;
    assert(ex0.subrange(0, 0) =~= Seq::<ChecksumEntry>::empty());
    assert(existing_checksums@.subrange(0, 0) =~= Seq::<ChecksumEntry>::empty());
    assert(views_of(recommendations@) =~= Seq::<RecommendationView>::empty());
    while i < n
        invariant
            n == ex0.len(),
            n == existing_checksums@.len(),
            m == target_checksums@.len(),
            m == tg0.len(),
            i <= n,
            reconcile(ex0.subrange(0, i as int), tg0).existing == existing_checksums@.subrange(
                0,
                i as int,
            ),
            reconcile(ex0.subrange(0, i as int), tg0).catalog == target_checksums@,
            reconcile(ex0.subrange(0, i as int), tg0).recommendations == views_of(
                recommendations@,
            ),
            forall|k: int| i <= k < n ==> existing_checksums@[k] == ex0[k],
        decreases n - i,
    {
        let ghost tg1 = target_checksums@;
        let ghost ex1 = existing_checksums@;
        let ghost recs1 = recommendations@;
        let ghost e = ex0[i as int];
        let mut j: usize = 0;
        while j < m
            invariant
                n == existing_checksums@.len(),
                m == target_checksums@.len(),
                m == tg1.len(),
                i < n,
                j <= m,
                e == ex0[i as int],
                forall|k: int| 0 <= k < n && k != i ==> existing_checksums@[k] == ex1[k],
                match first_match_upto(e, tg1, j as int) {
                    None => {
                        &&& target_checksums@ == tg1
                        &&& existing_checksums@[i as int] == e
                        &&& recommendations@ == recs1
                    },
                    Some(jj) => {
                        &&& 0 <= jj < m
                        &&& target_checksums@ == tg1.update(jj, mark_found(tg1[jj]))
                        &&& existing_checksums@[i as int] == mark_found(e)
                        &&& views_of(recommendations@) == views_of(recs1).push(
                            RecommendationView { source: e.path@, target: tg1[jj].filename@ },
                        )
                    },
                },
            decreases m - j,
        {
            proof {
                lemma_mark_found_is_found(e);
            }
            let ghost before = first_match_upto(e, tg1, j as int);
            let eligible = target_checksums[j].valid && !existing_checksums[i].has_state(
                STATE_FILE_FOUND,
            ) && !target_checksums[j].has_state(STATE_FILE_FOUND) && checksums_agree_exec(
                &existing_checksums[i],
                &target_checksums[j],
            );
            proof {
                if before is None {
                    assert(eligible == can_match(e, tg1[j as int]));
                } else {
                    assert(!eligible);
                }
            }
            if eligible {
                let rec = RenamingRecommendation {
                    source_file: existing_checksums[i].path.clone(),
                    target_name: target_checksums[j].filename.clone(),
                };
                recommendations.push(rec);
                existing_checksums[i].set_state(STATE_FILE_FOUND);
                target_checksums[j].set_state(STATE_FILE_FOUND);
                proof {
                    assert(views_of(recommendations@) =~= views_of(recs1).push(
                        RecommendationView { source: e.path@, target: tg1[j as int].filename@ },
                    ));
                }
            }
            j = j + 1;
        }
        proof {
            let pre = ex0.subrange(0, i as int + 1);
            assert(pre.drop_last() =~= ex0.subrange(0, i as int));
            assert(pre.last() == e);
            match first_match_upto(e, tg1, m as int) {
                None => {
                    assert(existing_checksums@.subrange(0, i as int + 1) =~= ex1.subrange(
                        0,
                        i as int,
                    ).push(e));
                },
                Some(jj) => {
                    assert(existing_checksums@.subrange(0, i as int + 1) =~= ex1.subrange(
                        0,
                        i as int,
                    ).push(mark_found(e)));
                },
            }
        }
        i = i + 1;
    }
    assert(ex0.subrange(0, n as int) =~= ex0);
    assert(existing_checksums@.subrange(0, n as int) =~= existing_checksums@);
    recommendations
}

/// Extensions of auxiliary files that a catalog may list but that need not be present.
pub open spec fn ignored_suffixes() -> Seq<Seq<char>> {
    seq![
        seq!['.', 'n', 'f', 'o'],
        seq!['.', 't', 'x', 't'],
        seq!['.', 's', 'r', 'r'],
        sfv_suffix(),
        par2_suffix(),
    ]
}

/// Whether a file name ends in an auxiliary extension.
pub open spec fn is_ignorable(name: Seq<char>) -> bool {
    exists|k: int| 0 <= k < 5 && ends_with(name, #[trigger] ignored_suffixes()[k])
}

/// Whether some entry that is not an auxiliary file has not been found.
pub open spec fn has_missing(entries: Seq<ChecksumEntry>) -> bool {
    exists|i: int|
        0 <= i < entries.len() && !is_ignorable(#[trigger] entries[i].filename@) && !is_found(
            entries[i],
        )
}

fn ignored_suffix(k: usize) -> (r: Vec<char>)
    requires
        k < 5,
    ensures
        r@ == ignored_suffixes()[k as int],
{
    let r: Vec<char> = if k == 0 {
        vec!['.', 'n', 'f', 'o']
    } else if k == 1 {
        vec!['.', 't', 'x', 't']
    } else if k == 2 {
        vec!['.', 's', 'r', 'r']
    } else if k == 3 {
        vec!['.', 's', 'f', 'v']
    } else {
        vec!['.', 'p', 'a', 'r', '2']
    };
    assert(r@ =~= ignored_suffixes()[k as int]);
    r
}

fn is_ignorable_exec(name: &String) -> (r: bool)
    ensures
        r == is_ignorable(name@),
{
    let cs = chars_of(name.as_str());
    let mut k: usize = 0;
    while k < 5
        invariant
            k <= 5,
            cs@ == name@,
            forall|j: int| 0 <= j < k ==> !ends_with(name@, #[trigger] ignored_suffixes()[j]),
        decreases 5 - k,
    {
        let suffix = ignored_suffix(k);
        if chars_end_with(cs.as_slice(), suffix.as_slice()) {
            return true;
        }
        k = k + 1;
    }
    false
}

/// Whether the catalog lists a file, other than an auxiliary one, that was not found.
pub fn catalog_has_missing_files(catalog: &ChecksumCatalog) -> (r: bool)
    ensures
        r == has_missing(catalog.entries@),
{
    let n: usize = catalog.entries.len();
    let mut i: usize = 0;
    while i < n
        invariant
            n == catalog.entries@.len(),
            i <= n,
            forall|k: int|
                0 <= k < i ==> is_ignorable(#[trigger] catalog.entries@[k].filename@) || is_found(
                    catalog.entries@[k],
                ),
        decreases n - i,
    {
        let entry = &catalog.entries[i];
        if !is_ignorable_exec(&entry.filename) && !entry.has_state(STATE_FILE_FOUND) {
            return true;
        }
        i = i + 1;
    }
    false
}

/// Marks found each entry whose file is present, by the flag at the same index.
pub fn update_file_status(entries: &mut Vec<ChecksumEntry>, present: &Vec<bool>)
    requires
        old(entries)@.len() == present@.len(),
    ensures
        final(entries)@.len() == old(entries)@.len(),
        forall|i: int|
            0 <= i < present@.len() ==> #[trigger] final(entries)@[i] == if present@[i] {
                mark_found(old(entries)@[i])
            } else {
                old(entries)@[i]
            },
{
    let ghost e0 = entries@;
    let n: usize = entries.len();
    let mut i: usize = 0;
    while i < n
        invariant
            n == entries@.len(),
            n == present@.len(),
            n == e0.len(),
            i <= n,
            forall|k: int|
                0 <= k < i ==> #[trigger] entries@[k] == if present@[k] {
                    mark_found(e0[k])
                } else {
                    e0[k]
                },
            forall|k: int| i <= k < n ==> #[trigger] entries@[k] == e0[k],
        decreases n - i,
    {
        if present[i] {
            entries[i].set_state(STATE_FILE_FOUND);
        }
        i = i + 1;
    }
}

/// Marks found each entry of the catalog whose file is present, by the flag at the same index.
pub fn update_catalog_file_status(catalog: &mut ChecksumCatalog, present: &Vec<bool>)
    requires
        old(catalog).entries@.len() == present@.len(),
    ensures
        final(catalog).entries@.len() == old(catalog).entries@.len(),
        forall|i: int|
            0 <= i < present@.len() ==> #[trigger] final(catalog).entries@[i] == if present@[i] {
                mark_found(old(catalog).entries@[i])
            } else {
                old(catalog).entries@[i]
            },
        final(catalog).valid == old(catalog).valid,
        final(catalog).complete == old(catalog).complete,
        final(catalog).source_type == old(catalog).source_type,
        final(catalog).source_file == old(catalog).source_file,
        final(catalog).state == old(catalog).state,
{
    update_file_status(&mut catalog.entries, present);
}

/// The name a file should get given what its contents look like: a catalog gets its
/// format's extension when it lacks it, and a file that carries a catalog extension
/// without being one gets `_not` appended. `None` when the name is right.
pub open spec fn fixed_catalog_name(path: Seq<char>, looks_sfv: bool, looks_par2: bool) -> Option<
    Seq<char>,
> {
    if looks_sfv {
        if ends_with(path, sfv_suffix()) {
            None
        } else {
            Some(path + sfv_suffix())
        }
    } else if looks_par2 {
        if ends_with(path, par2_suffix()) {
            None
        } else {
            Some(path + par2_suffix())
        }
    } else if ends_with(path, sfv_suffix()) || ends_with(path, par2_suffix()) {
        Some(path + seq!['_', 'n', 'o', 't'])
    } else {
        None
    }
}

fn append_chars(a: &Vec<char>, b: &Vec<char>) -> (r: Vec<char>)
    ensures
        r@ == a@ + b@,
{
    let mut r: Vec<char> = Vec::new();
    let mut i: usize = 0;
    while i < a.len()
        invariant
            i <= a@.len(),
            r@ == a@.subrange(0, i as int),
        decreases a@.len() - i,
    {
        r.push(a[i]);
        i = i + 1;
        assert(r@ =~= a@.subrange(0, i as int));
    }
    let mut j: usize = 0;
    while j < b.len()
        invariant
            j <= b@.len(),
            r@ == a@ + b@.subrange(0, j as int),
        decreases b@.len() - j,
    {
        r.push(b[j]);
        j = j + 1;
        assert(r@ =~= a@ + b@.subrange(0, j as int));
    }
    assert(b@.subrange(0, b@.len() as int) =~= b@);
    r
}

/// The new name for a file whose contents were probed as SFV (`looks_sfv`) or PAR2
/// (`looks_par2`), or `None` when its name already fits what it holds.
pub fn catalog_file_new_name(path: &String, looks_sfv: bool, looks_par2: bool) -> (r: Option<String>)
    ensures
        match fixed_catalog_name(path@, looks_sfv, looks_par2) {
            None => r is None,
            Some(p) => r matches Some(s) && s@ == p,
        },
{
    let cs = chars_of(path.as_str());
    let sfv_extension: Vec<char> = vec!['.', 's', 'f', 'v'];
    let par2_extension: Vec<char> = vec!['.', 'p', 'a', 'r', '2'];
    let not_suffix: Vec<char> = vec!['_', 'n', 'o', 't'];
    assert(sfv_extension@ =~= sfv_suffix());
    assert(par2_extension@ =~= par2_suffix());
    assert(not_suffix@ =~= seq!['_', 'n', 'o', 't']);
    let is_sfv_name = chars_end_with(cs.as_slice(), sfv_extension.as_slice());
    let is_par2_name = chars_end_with(cs.as_slice(), par2_extension.as_slice());
    let suffix = if looks_sfv {
        if is_sfv_name {
            return None;
        }
        sfv_extension
    } else if looks_par2 {
        if is_par2_name {
            return None;
        }
        par2_extension
    } else if is_sfv_name || is_par2_name {
        not_suffix
    } else {
        return None;
    };
    let joined = append_chars(&cs, &suffix);
    Some(string_from_chars(joined.as_slice()))
}

proof fn lemma_first_match_upto(e: ChecksumEntry, cat: Seq<ChecksumEntry>, n: int)
    requires
        0 <= n <= cat.len(),
    ensures
        first_match_upto(e, cat, n) is None <==> forall|j: int|
            0 <= j < n ==> !can_match(e, #[trigger] cat[j]),
        first_match_upto(e, cat, n) matches Some(j) ==> 0 <= j < n && can_match(e, cat[j]),
    decreases n,
{
    if n > 0 {
        lemma_first_match_upto(e, cat, n - 1);
    }
}

/// An unmatched file that no catalog entry may be matched with.
pub open spec fn settled(e: ChecksumEntry, cat: Seq<ChecksumEntry>) -> bool {
    is_found(e) || forall|j: int| 0 <= j < cat.len() ==> !can_match(e, #[trigger] cat[j])
}

/// After matching, each file is found or has no catalog entry left to be matched with.
proof fn lemma_reconcile_settles(existing: Seq<ChecksumEntry>, catalog: Seq<ChecksumEntry>)
    ensures
        reconcile(existing, catalog).existing.len() == existing.len(),
        reconcile(existing, catalog).catalog.len() == catalog.len(),
        forall|i: int|
            0 <= i < existing.len() ==> settled(
                #[trigger] reconcile(existing, catalog).existing[i],
                reconcile(existing, catalog).catalog,
            ),
    decreases existing.len(),
{
    if existing.len() > 0 {
        let prev = existing.drop_last();
        lemma_reconcile_settles(prev, catalog);
        let p = reconcile(prev, catalog);
        let e = existing.last();
        let r = reconcile(existing, catalog);
        lemma_first_match_upto(e, p.catalog, p.catalog.len() as int);
        match first_match(e, p.catalog) {
            None => {
                assert forall|i: int| 0 <= i < existing.len() implies settled(
                    #[trigger] r.existing[i],
                    r.catalog,
                ) by {
                    if i < prev.len() {
                        assert(r.existing[i] == p.existing[i]);
                    }
                }
            },
            Some(j) => {
                lemma_mark_found_is_found(e);
                lemma_mark_found_is_found(p.catalog[j]);
                assert forall|i: int| 0 <= i < existing.len() implies settled(
                    #[trigger] r.existing[i],
                    r.catalog,
                ) by {
                    if i < prev.len() {
                        assert(r.existing[i] == p.existing[i]);
                        if !is_found(p.existing[i]) {
                            assert forall|k: int| 0 <= k < r.catalog.len() implies !can_match(
                                r.existing[i],
                                #[trigger] r.catalog[k],
                            ) by {
                                if k != j {
                                    assert(r.catalog[k] == p.catalog[k]);
                                }
                            }
                        }
                    }
                }
            },
        }
    }
}

/// Matching settled files proposes nothing and changes nothing.
proof fn lemma_reconcile_settled(existing: Seq<ChecksumEntry>, catalog: Seq<ChecksumEntry>)
    requires
        forall|i: int| 0 <= i < existing.len() ==> settled(#[trigger] existing[i], catalog),
    ensures
        reconcile(existing, catalog).existing == existing,
        reconcile(existing, catalog).catalog == catalog,
        reconcile(existing, catalog).recommendations.len() == 0,
    decreases existing.len(),
{
    if existing.len() > 0 {
        let prev = existing.drop_last();
        assert forall|i: int| 0 <= i < prev.len() implies settled(#[trigger] prev[i], catalog) by {
            assert(settled(existing[i], catalog));
        }
        lemma_reconcile_settled(prev, catalog);
        let e = existing.last();
        assert(settled(existing[existing.len() - 1], catalog));
        lemma_first_match_upto(e, catalog, catalog.len() as int);
        if first_match(e, catalog) is Some {
            let j = first_match(e, catalog)->0;
            assert(can_match(e, catalog[j]));
        }
        assert(prev.push(e) =~= existing);
    }
}

/// Matching twice proposes nothing the second time: each file is then found or has no
/// catalog entry left that it may be matched with, and nothing changes.
pub proof fn lemma_reconcile_idempotent(existing: Seq<ChecksumEntry>, catalog: Seq<ChecksumEntry>)
    ensures
        ({
            let r = reconcile(existing, catalog);
            let again = reconcile(r.existing, r.catalog);
            &&& again.recommendations.len() == 0
            &&& again.existing == r.existing
            &&& again.catalog == r.catalog
        }),
{
    lemma_reconcile_settles(existing, catalog);
    let r = reconcile(existing, catalog);
    assert forall|i: int| 0 <= i < r.existing.len() implies settled(
        #[trigger] r.existing[i],
        r.catalog,
    ) by {
        assert(settled(reconcile(existing, catalog).existing[i], r.catalog));
    }
    lemma_reconcile_settled(r.existing, r.catalog);
}

} // verus!
