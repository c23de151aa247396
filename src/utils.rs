//! Byte and text helpers shared by the catalog readers.

use vstd::prelude::*;
use vstd::std_specs::iter::IteratorSpec;

verus! {

/// The character that `printable_string_from` shows for one byte.
pub open spec fn printable_char(b: u8) -> char {
    if 32 <= b && b <= 126 {
        b as char
    } else {
        ' '
    }
}

/// Lower-case hexadecimal digit of a value below 16.
pub open spec fn hex_digit(v: int) -> char {
    if v < 10 {
        ((v + 48) as u8) as char
    } else {
        ((v - 10 + 97) as u8) as char
    }
}

/// Two lower-case hexadecimal digits per byte, in order.
pub open spec fn hex_of(bytes: Seq<u8>) -> Seq<char>
    decreases bytes.len(),
{
    if bytes.len() == 0 {
        Seq::empty()
    } else {
        let b = bytes.last() as int;
        hex_of(bytes.drop_last()) + seq![hex_digit(b / 16), hex_digit(b % 16)]
    }
}

/// Little-endian value of the first eight bytes.
pub open spec fn le_u64_value(b: Seq<u8>) -> int {
    b[0] as int + b[1] as int * 0x100 + b[2] as int * 0x1_0000 + b[3] as int * 0x100_0000
        + b[4] as int * 0x1_0000_0000 + b[5] as int * 0x100_0000_0000
        + b[6] as int * 0x1_0000_0000_0000 + b[7] as int * 0x100_0000_0000_0000
}

/// Little-endian value of the first four bytes.
pub open spec fn le_u32_value(b: Seq<u8>) -> int {
    b[0] as int + b[1] as int * 0x100 + b[2] as int * 0x1_0000 + b[3] as int * 0x100_0000
}

/// Relies on `FromIterator<&char> for String`: the string holds the characters in order.
#[verifier::external_body]
pub(crate) fn string_from_chars(chars: &[char]) -> (r: String)
    ensures
        r@ == chars@,
{
    chars.iter().collect()
}

/// The characters of the string, in order.
pub fn chars_of(s: &str) -> (r: Vec<char>)
    ensures
        r@ == s@,
{
    broadcast use vstd::string::axiom_spec_iter, vstd::string::next_postcondition;

    let mut it = s.chars();
    let mut out: Vec<char> = Vec::new();
    loop
        invariant
            out@ + it.remaining() == s@,
            it.decrease() is Some,
        decreases it.decrease()->0,
    {
        let ghost before = it.remaining();
        match it.next() {
            Some(c) => {
                out.push(c);
                assert(out@ + it.remaining() =~= s@) by {
                    assert(before =~= seq![c] + before.drop_first());
                }
            },
            None => {
                assert(out@ =~= s@);
                return out;
            },
        }
    }
}

/// Maps each byte to itself when it is printable ASCII (32 to 126) and to a space otherwise.
pub fn printable_string_from(buffer: &[u8]) -> (r: String)
    ensures
        r@ == Seq::new(buffer@.len(), |i: int| printable_char(buffer@[i])),
{
    let mut out: Vec<char> = Vec::new();
    let mut i: usize = 0;
    while i < buffer.len()
        invariant
            i <= buffer@.len(),
            out@ == Seq::new(i as nat, |k: int| printable_char(buffer@[k])),
        decreases buffer@.len() - i,
    {
        let c = buffer[i];
        if c >= 32u8 && c <= 126u8 {
            out.push(c as char);
        } else {
            out.push(' ');
        }
        i = i + 1;
        assert(out@ =~= Seq::new(i as nat, |k: int| printable_char(buffer@[k])));
    }
    string_from_chars(out.as_slice())
}

fn hex_digit_exec(v: u8) -> (c: char)
    requires
        v < 16,
    ensures
        c == hex_digit(v as int),
{
    if v < 10 {
        (v + 48) as char
    } else {
        (v - 10 + 97) as char
    }
}

/// Lower-case hexadecimal text of the bytes, two digits per byte.
pub fn byte_array_to_hex(bytes: &[u8]) -> (r: String)
    ensures
        r@ == hex_of(bytes@),
{
    let mut out: Vec<char> = Vec::new();
    let mut i: usize = 0;
    while i < bytes.len()
        invariant
            i <= bytes@.len(),
            out@ == hex_of(bytes@.subrange(0, i as int)),
        decreases bytes@.len() - i,
    {
        let b = bytes[i];
        out.push(hex_digit_exec(b / 16));
        out.push(hex_digit_exec(b % 16));
        proof {
            let pre = bytes@.subrange(0, i as int + 1);
            assert(pre.drop_last() =~= bytes@.subrange(0, i as int));
            assert(pre.last() == b);
        }
        i = i + 1;
    }
    assert(bytes@.subrange(0, bytes@.len() as int) =~= bytes@);
    string_from_chars(out.as_slice())
}

/// Reads a 64-bit little-endian integer from the first eight bytes.
pub fn slice_u8_to_u64(buffer: &[u8]) -> (r: u64)
    requires
        buffer@.len() >= 8,
    ensures
        r as int == le_u64_value(buffer@),
{
    buffer[0] as u64 + buffer[1] as u64 * 0x100 + buffer[2] as u64 * 0x1_0000 + buffer[3] as u64
        * 0x100_0000 + buffer[4] as u64 * 0x1_0000_0000 + buffer[5] as u64 * 0x100_0000_0000
        + buffer[6] as u64 * 0x1_0000_0000_0000 + buffer[7] as u64 * 0x100_0000_0000_0000
}

/// Reads a 32-bit little-endian integer from the first four bytes.
pub fn slice_u8_to_u32(buffer: &[u8]) -> (r: u32)
    requires
        buffer@.len() >= 4,
    ensures
        r as int == le_u32_value(buffer@),
{
    buffer[0] as u32 + buffer[1] as u32 * 0x100 + buffer[2] as u32 * 0x1_0000 + buffer[3] as u32
        * 0x100_0000
}

} // verus!
