//! Reader of SFV catalogs: one `<name><blanks><8 hex digits>` record per line,
//! `;` starting a comment line.

use vstd::prelude::*;
use vstd::slice::slice_subrange;
use crate::file_verification::{ChecksumCatalog, ChecksumEntry, SourceTypes};
use crate::utils::{chars_of, string_from_chars};

verus! {

pub const EXTENSION: &'static str = "sfv";

/// The characters that separate a name from its checksum and that lines are trimmed of.
pub open spec fn is_blank(c: char) -> bool {
    c == ' ' || c == '\t' || c == '\r' || c == '\n'
}

pub open spec fn trim_end(s: Seq<char>) -> Seq<char>
    decreases s.len(),
{
    if s.len() > 0 && is_blank(s.last()) {
        trim_end(s.drop_last())
    } else {
        s
    }
}

pub open spec fn trim_start(s: Seq<char>) -> Seq<char>
    decreases s.len(),
{
    if s.len() > 0 && is_blank(s[0]) {
        trim_start(s.drop_first())
    } else {
        s
    }
}

/// The line without leading and trailing blanks.
pub open spec fn trim(s: Seq<char>) -> Seq<char> {
    trim_start(trim_end(s))
}

/// Index just after the last blank of `t`, or 0 when `t` has none.
pub open spec fn last_blank_end(t: Seq<char>) -> int
    decreases t.len(),
{
    if t.len() == 0 {
        0
    } else if is_blank(t.last()) {
        t.len() as int
    } else {
        last_blank_end(t.drop_last())
    }
}

/// Start of the run of blanks that ends at `k`.
pub open spec fn blank_run_start(t: Seq<char>, k: int) -> int
    decreases k,
{
    if k > 0 && k <= t.len() && is_blank(t[k - 1]) {
        blank_run_start(t, k - 1)
    } else {
        k
    }
}

pub open spec fn is_hex_char(c: char) -> bool {
    ('0' <= c && c <= '9') || ('a' <= c && c <= 'f') || ('A' <= c && c <= 'F')
}

pub open spec fn hex_char_value(c: char) -> int {
    if '0' <= c && c <= '9' {
        c as int - '0' as int
    } else if 'a' <= c && c <= 'f' {
        c as int - 'a' as int + 10
    } else {
        c as int - 'A' as int + 10
    }
}

/// Value of a string of hexadecimal digits, most significant first.
pub open spec fn hex_value(s: Seq<char>) -> int
    decreases s.len(),
{
    if s.len() == 0 {
        0
    } else {
        hex_value(s.drop_last()) * 16 + hex_char_value(s.last())
    }
}

pub open spec fn pow16(n: nat) -> int
    decreases n,
{
    if n == 0 {
        1
    } else {
        16 * pow16((n - 1) as nat)
    }
}

/// What one SFV line records.
pub struct SfvLine {
    pub name: Seq<char>,
    pub crc32: Option<u32>,
    pub valid: bool,
}

/// The record of one line: none for a blank or `;` line. Otherwise the trimmed line is split
/// at its last run of blanks; the record is valid when the part after it is exactly eight
/// hexadecimal digits, which then give the CRC-32, and the part before it is the name.
pub open spec fn sfv_line(line: Seq<char>) -> Option<SfvLine> {
    let t = trim(line);
    if t.len() == 0 || t[0] == ';' {
        None
    } else {
        let k = last_blank_end(t);
        let token = t.subrange(k, t.len() as int);
        let valid = k > 0 && token.len() == 8 && forall|i: int|
            0 <= i < 8 ==> #[trigger] is_hex_char(token[i]);
        Some(
            SfvLine {
                name: t.subrange(0, blank_run_start(t, k)),
                crc32: if valid {
                    Some(hex_value(token) as u32)
                } else {
                    None
                },
                valid,
            },
        )
    }
}

/// The text split at each newline; the last piece is what follows the last newline.
pub open spec fn lines_of(s: Seq<char>) -> Seq<Seq<char>>
    decreases s.len(),
{
    if s.len() == 0 {
        seq![Seq::empty()]
    } else if s.last() == '\n' {
        lines_of(s.drop_last()).push(Seq::empty())
    } else {
        let l = lines_of(s.drop_last());
        l.update(l.len() - 1, l.last().push(s.last()))
    }
}

/// The records of the lines that have one, in order.
pub open spec fn sfv_records(lines: Seq<Seq<char>>) -> Seq<SfvLine>
    decreases lines.len(),
{
    if lines.len() == 0 {
        Seq::empty()
    } else {
        let prev = sfv_records(lines.drop_last());
        match sfv_line(lines.last()) {
            Some(r) => prev.push(r),
            None => prev,
        }
    }
}

pub open spec fn entry_matches_line(e: ChecksumEntry, l: SfvLine) -> bool {
    &&& e.filename@ == l.name
    &&& e.path@ == Seq::<char>::empty()
    &&& e.checksum_crc32 == l.crc32
    &&& e.checksum_md5 is None
    &&& e.valid == l.valid
    &&& e.state == 0
}

pub open spec fn entries_match_lines(es: Seq<ChecksumEntry>, ls: Seq<SfvLine>) -> bool {
    &&& es.len() == ls.len()
    &&& forall|i: int| 0 <= i < es.len() ==> entry_matches_line(#[trigger] es[i], ls[i])
}

fn is_blank_exec(c: char) -> (r: bool)
    ensures
        r == is_blank(c),
{
    c == ' ' || c == '\t' || c == '\r' || c == '\n'
}

proof fn lemma_hex_value_bound(s: Seq<char>)
    requires
        forall|i: int| 0 <= i < s.len() ==> #[trigger] is_hex_char(s[i]),
    ensures
        0 <= hex_value(s) < pow16(s.len()),
    decreases s.len(),
{
    if s.len() > 0 {
        lemma_hex_value_bound(s.drop_last());
        assert(is_hex_char(s[s.len() - 1]));
    }
}

/// Reads eight hexadecimal digits.
fn parse_hex8(token: &[char]) -> (r: u32)
    requires
        token@.len() == 8,
        forall|i: int| 0 <= i < 8 ==> #[trigger] is_hex_char(token@[i]),
    ensures
        r == hex_value(token@) as u32,
        r as int == hex_value(token@),
{
    let mut acc: u64 = 0;
    let mut i: usize = 0;
    while i < 8
        invariant
            token@.len() == 8,
            forall|j: int| 0 <= j < 8 ==> #[trigger] is_hex_char(token@[j]),
            i <= 8,
            acc as int == hex_value(token@.subrange(0, i as int)),
            acc < pow16(i as nat),
            pow16(i as nat) <= 0x1_0000_0000,
        decreases 8 - i,
    {
        let c = token[i];
        assert(is_hex_char(token@[i as int]));
        let d: u64 = if '0' <= c && c <= '9' {
            (c as u64) - ('0' as u64)
        } else if 'a' <= c && c <= 'f' {
            (c as u64) - ('a' as u64) + 10
        } else {
            (c as u64) - ('A' as u64) + 10
        };
        assert(is_hex_char(token@[i as int]));
        assert(token@.subrange(0, i + 1).drop_last() =~= token@.subrange(0, i as int));
        proof {
            reveal_with_fuel(pow16, 9);
        }
        acc = acc * 16 + d;
        i = i + 1;
    }
    proof {
        reveal_with_fuel(pow16, 9);
        assert(token@.subrange(0, 8) =~= token@);
    }
    acc as u32
}

/// Parses a line given as characters.
fn parse_sfv_chars(line: &[char]) -> (r: Option<ChecksumEntry>)
    ensures
        match sfv_line(line@) {
            None => r is None,
            Some(l) => r matches Some(e) && entry_matches_line(e, l),
        },
{
    let n: usize = line.len();
    let mut e: usize = n;
    assert(line@.subrange(0, n as int) =~= line@);
    while e > 0 && is_blank_exec(line[e - 1])
        invariant
            e <= n,
            n == line@.len(),
            trim_end(line@.subrange(0, e as int)) == trim_end(line@),
        decreases e,
    {
        assert(line@.subrange(0, e as int).drop_last() =~= line@.subrange(0, e - 1));
        e = e - 1;
    }
    let mut s: usize = 0;
    assert(line@.subrange(0, e as int).subrange(0, e as int) =~= line@.subrange(0, e as int));
    while s < e && is_blank_exec(line[s])
        invariant
            s <= e,
            e <= n,
            n == line@.len(),
            trim_start(line@.subrange(s as int, e as int)) == trim(line@),
        decreases e - s,
    {
        assert(line@.subrange(s as int, e as int).drop_first() =~= line@.subrange(s + 1, e as int));
        s = s + 1;
    }
    let t = slice_subrange(line, s, e);
    assert(t@ == trim(line@));
    let len: usize = t.len();
    if len == 0 || t[0] == ';' {
        return None;
    }
    let mut k: usize = len;
    assert(t@.subrange(0, len as int) =~= t@);
    while k > 0 && !is_blank_exec(t[k - 1])
        invariant
            k <= len,
            len == t@.len(),
            last_blank_end(t@.subrange(0, k as int)) == last_blank_end(t@),
        decreases k,
    {
        assert(t@.subrange(0, k as int).drop_last() =~= t@.subrange(0, k - 1));
        k = k - 1;
    }
    assert(k == 0 ==> last_blank_end(t@.subrange(0, k as int)) == 0);
    assert(k > 0 ==> t@.subrange(0, k as int).last() == t@[k - 1]);
    assert(k == last_blank_end(t@));
    let mut m: usize = k;
    while m > 0 && is_blank_exec(t[m - 1])
        invariant
            m <= k,
            k <= len,
            len == t@.len(),
            blank_run_start(t@, m as int) == blank_run_start(t@, k as int),
        decreases m,
    {
        m = m - 1;
    }
    assert(m == blank_run_start(t@, m as int));
    let token = slice_subrange(t, k, len);
    let mut valid = k > 0 && len - k == 8;
    let mut i: usize = 0;
    while valid && i < 8
        invariant
            valid ==> token@.len() == 8 && k > 0,
            i <= 8,
            valid ==> forall|j: int| 0 <= j < i ==> #[trigger] is_hex_char(token@[j]),
            !valid ==> !(k > 0 && token@.len() == 8 && forall|j: int|
                0 <= j < 8 ==> #[trigger] is_hex_char(token@[j])),
        decreases 8 - i,
    {
        let c = token[i];
        if !(('0' <= c && c <= '9') || ('a' <= c && c <= 'f') || ('A' <= c && c <= 'F')) {
            assert(!is_hex_char(token@[i as int]));
            valid = false;
        }
        i = i + 1;
    }
    let crc = if valid {
        Some(parse_hex8(token))
    } else {
        None
    };
    let name = string_from_chars(slice_subrange(t, 0, m));
    Some(
        ChecksumEntry {
            filename: name,
            path: String::new(),
            checksum_crc32: crc,
            checksum_md5: None,
            valid,
            state: 0,
        },
    )
}

/// Parses one SFV line: `None` for a blank or comment line, otherwise an entry that is
/// valid exactly when the line ends in eight hexadecimal digits after a blank.
pub fn parse_sfv_line(line_par: &String) -> (r: Option<ChecksumEntry>)
    ensures
        match sfv_line(line_par@) {
            None => r is None,
            Some(l) => r matches Some(e) && entry_matches_line(e, l),
        },
{
    let cs = chars_of(line_par.as_str());
    parse_sfv_chars(cs.as_slice())
}

/// The records of all lines of the catalog text, in order.
pub open spec fn sfv_content_records(content: Seq<char>) -> Seq<SfvLine> {
    sfv_records(lines_of(content))
}

/// Parses the text of an SFV catalog read from `filepath`. Blank and comment lines give no
/// entry; every other line gives one, valid or not.
pub fn read_sfv(filepath: &String, content: &String) -> (r: ChecksumCatalog)
    ensures
        r.valid,
        !r.complete,
        r.state == 0,
        r.source_type == SourceTypes::SFV,
        r.source_file@ == filepath@,
        entries_match_lines(r.entries@, sfv_content_records(content@)),
{
    let cs = chars_of(content.as_str());
    let n: usize = cs.len();
    let mut entries: Vec<ChecksumEntry> = Vec::new();
    let mut start: usize = 0;
    let mut i: usize = 0;
    let ghost mut done: Seq<Seq<char>> = Seq::empty();
    assert(cs@.subrange(0, 0) =~= Seq::<char>::empty());
    while i < n
        invariant
            n == cs@.len(),
            start <= i,
            i <= n,
            lines_of(cs@.subrange(0, i as int)) == done.push(cs@.subrange(start as int, i as int)),
            entries_match_lines(entries@, sfv_records(done)),
        decreases n - i,
    {
        let ghost cur = cs@.subrange(start as int, i as int);
        assert(cs@.subrange(0, i + 1).drop_last() =~= cs@.subrange(0, i as int));
        if cs[i] == '\n' {
            let line = slice_subrange(cs.as_slice(), start, i);
            let parsed = parse_sfv_chars(line);
            proof {
                assert(done.push(cur).drop_last() =~= done);
            }
            match parsed {
                Some(e) => {
                    entries.push(e);
                },
                None => {},
            }
            proof {
                done = done.push(cur);
                assert(cs@.subrange(i + 1, i + 1) =~= Seq::<char>::empty());
            }
            start = i + 1;
        } else {
            assert(cur.push(cs@[i as int]) =~= cs@.subrange(start as int, i + 1));
            assert(done.push(cur).update(done.len() as int, cur.push(cs@[i as int])) =~= done.push(
                cs@.subrange(start as int, i + 1),
            ));
        }
        i = i + 1;
    }
    assert(cs@.subrange(0, n as int) =~= cs@);
    let ghost last = cs@.subrange(start as int, n as int);
    let parsed = parse_sfv_chars(slice_subrange(cs.as_slice(), start, n));
    proof {
        assert(done.push(last).drop_last() =~= done);
    }
    match parsed {
        Some(e) => {
            entries.push(e);
        },
        None => {},
    }
    ChecksumCatalog {
        entries,
        valid: true,
        complete: false,
        source_type: SourceTypes::SFV,
        source_file: filepath.clone(),
        state: 0,
    }
}

/// Whether the text reads as an SFV catalog: its first record exists and is valid.
pub fn is_sfv(content: &String) -> (r: bool)
    ensures
        r == (sfv_content_records(content@).len() > 0 && sfv_content_records(content@)[0].valid),
{
    let catalog = read_sfv(&String::new(), content);
    if catalog.entries.len() == 0 {
        false
    } else {
        catalog.entries[0].valid
    }
}

proof fn lemma_trim_end_keeps_first(s: Seq<char>)
    requires
        s.len() > 0,
        !is_blank(s[0]),
    ensures
        trim_end(s).len() > 0,
        trim_end(s)[0] == s[0],
    decreases s.len(),
{
    if is_blank(s.last()) {
        lemma_trim_end_keeps_first(s.drop_last());
    }
}

/// A line that starts with `;` is a comment and gives no record.
pub proof fn lemma_comment_line_has_no_record(line: Seq<char>)
    requires
        line.len() > 0,
        line[0] == ';',
    ensures
        sfv_line(line) is None,
{
    lemma_trim_end_keeps_first(line);
}

} // verus!
