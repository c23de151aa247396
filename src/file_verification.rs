//! Catalog records and the checksums that identify a file.

use vstd::prelude::*;
use crate::utils::{byte_array_to_hex, chars_of, hex_of};

verus! {

/// The bit of an entry's state that marks it as matched.
pub const STATE_FILE_FOUND: u8 = 0;

/// The format a catalog was read from.
#[derive(PartialEq, Eq, Structural, Clone, Copy, Debug)]
pub enum SourceTypes {
    SFV,
    PAR2,
}

/// One expected file of a catalog, or one file found on disk.
#[derive(Clone, Debug)]
pub struct ChecksumEntry {
    pub filename: String,
    pub path: String,
    pub checksum_crc32: Option<u32>,
    pub checksum_md5: Option<[u8; 16]>,
    pub valid: bool,
    pub state: u64,
}

/// A parsed catalog: its entries in file order and where it came from.
#[derive(Clone, Debug)]
pub struct ChecksumCatalog {
    pub entries: Vec<ChecksumEntry>,
    pub valid: bool,
    pub complete: bool,
    pub source_type: SourceTypes,
    pub source_file: String,
    pub state: u64,
}

/// Whether `bit` is set in `state`.
pub open spec fn state_has(state: u64, bit: u8) -> bool {
    state & (1u64 << bit) == (1u64 << bit)
}

/// Whether `s` ends with `suffix`.
pub open spec fn ends_with(s: Seq<char>, suffix: Seq<char>) -> bool {
    suffix.len() <= s.len() && s.subrange(s.len() - suffix.len(), s.len() as int) == suffix
}

pub open spec fn sfv_suffix() -> Seq<char> {
    seq!['.', 's', 'f', 'v']
}

pub open spec fn par2_suffix() -> Seq<char> {
    seq!['.', 'p', 'a', 'r', '2']
}

/// The catalog format that a file name announces by its extension.
pub open spec fn source_type_of(name: Seq<char>) -> Option<SourceTypes> {
    if ends_with(name, sfv_suffix()) {
        Some(SourceTypes::SFV)
    } else if ends_with(name, par2_suffix()) {
        Some(SourceTypes::PAR2)
    } else {
        None
    }
}

impl ChecksumEntry {
    /// The same entry with another state word.
    pub open spec fn with_state(self, state: u64) -> ChecksumEntry {
        ChecksumEntry {
            filename: self.filename,
            path: self.path,
            checksum_crc32: self.checksum_crc32,
            checksum_md5: self.checksum_md5,
            valid: self.valid,
            state,
        }
    }

    /// Hexadecimal text of the MD5 checksum; empty when the entry has none.
    pub fn checksum_md5_as_str(&self) -> (r: String)
        ensures
            r@ == match self.checksum_md5 {
                Some(m) => hex_of(m@),
                None => Seq::empty(),
            },
    {
        match &self.checksum_md5 {
            Some(m) => byte_array_to_hex(m.as_slice()),
            None => String::new(),
        }
    }

    pub fn set_state(&mut self, bit: u8)
        requires
            bit < 64,
        ensures
            *final(self) == old(self).with_state(old(self).state | (1u64 << bit)),
    {
        self.state = self.state | (1u64 << bit);
    }

    pub fn reset_state(&mut self, bit: u8)
        requires
            bit < 64,
        ensures
            *final(self) == old(self).with_state(old(self).state & !(1u64 << bit)),
    {
        self.state = self.state & !(1u64 << bit);
    }

    pub fn has_state(&self, bit: u8) -> (r: bool)
        requires
            bit < 64,
        ensures
            r == state_has(self.state, bit),
    {
        (self.state & (1u64 << bit)) == (1u64 << bit)
    }
}

/// Whether the tail of `s` equals `suffix`.
pub fn chars_end_with(s: &[char], suffix: &[char]) -> (r: bool)
    ensures
        r == ends_with(s@, suffix@),
{
    if suffix.len() > s.len() {
        return false;
    }
    let n: usize = s.len();
    let off: usize = n - suffix.len();
    let mut i: usize = 0;
    while i < suffix.len()
        invariant
            suffix@.len() <= s@.len(),
            n == s@.len(),
            off == s@.len() - suffix@.len(),
            i <= suffix@.len(),
            forall|k: int| 0 <= k < i ==> s@[off + k] == suffix@[k],
        decreases suffix@.len() - i,
    {
        if s[off + i] != suffix[i] {
            assert(s@.subrange(off as int, s@.len() as int)[i as int] != suffix@[i as int]);
            return false;
        }
        i = i + 1;
    }
    assert(s@.subrange(off as int, s@.len() as int) =~= suffix@);
    true
}

/// The catalog format announced by a file name's extension (`.sfv` or `.par2`).
pub fn get_source_type_by_filename(file: &String) -> (r: Option<SourceTypes>)
    ensures
        r == source_type_of(file@),
{
    let name = chars_of(file.as_str());
    let sfv_extension: Vec<char> = vec!['.', 's', 'f', 'v'];
    let par2_extension: Vec<char> = vec!['.', 'p', 'a', 'r', '2'];
    assert(sfv_extension@ =~= sfv_suffix());
    assert(par2_extension@ =~= par2_suffix());
    if chars_end_with(name.as_slice(), sfv_extension.as_slice()) {
        Some(SourceTypes::SFV)
    } else if chars_end_with(name.as_slice(), par2_extension.as_slice()) {
        Some(SourceTypes::PAR2)
    } else {
        None
    }
}

} // verus!
