//! Byte-level primitives shared by the record pipeline: fixed-endianness
//! integer reads, the null-terminated string form that records carry, and the
//! variable-size integer of the save-file format.

use vstd::prelude::*;
use vstd::slice::*;

verus! {

/// What the windows-1252 decoder yields for a byte sequence.
pub uninterp spec fn windows1252_of(bytes: Seq<u8>) -> Seq<char>;

/// Relies on encoding_rs's `WINDOWS_1252` decoder
/// (`decode_without_bom_handling_and_without_replacement`): windows-1252 is a
/// single-byte encoding whose table maps every byte, so the decode never
/// fails, yields exactly one character per byte, and maps ASCII bytes to
/// themselves.
#[verifier::external_body]
pub fn parse_string(data: &[u8]) -> (r: String)
    ensures
        r@ == windows1252_of(data@),
        r@.len() == data@.len(),
        forall|i: int| 0 <= i < data@.len() && data@[i] < 0x80 ==> r@[i] == data@[i] as char,
{
    encoding_rs::WINDOWS_1252.decode_without_bom_handling_and_without_replacement(data).unwrap()
        .to_string()
}

/// Index of the first zero byte in `s`, or `-1` if there is none.
pub open spec fn first_zero(s: Seq<u8>) -> int
    decreases s.len(),
{
    if s.len() == 0 {
        -1
    } else if s[0] == 0 {
        0
    } else if first_zero(s.drop_first()) == -1 {
        -1
    } else {
        1 + first_zero(s.drop_first())
    }
}

proof fn lemma_first_zero_at(s: Seq<u8>, i: int)
    requires
        0 <= i < s.len(),
        s[i] == 0,
        forall|j: int| 0 <= j < i ==> s[j] != 0,
    ensures
        first_zero(s) == i,
    decreases s.len(),
{
    if i > 0 {
        lemma_first_zero_at(s.drop_first(), i - 1);
    }
}

/// The text a null-terminated record string denotes: everything before the
/// first zero byte, decoded as windows-1252.  Data shorter than two bytes
/// denotes the empty text.
pub open spec fn zstring_text(data: Seq<u8>) -> Seq<char> {
    if data.len() < 2 {
        Seq::<char>::empty()
    } else {
        windows1252_of(data.take(first_zero(data)))
    }
}

/// Decodes a null-terminated record string.
///
/// Callers must hand in data that actually holds a terminator (or fewer than
/// two bytes, which denote the empty string).
pub fn parse_zstring(data: &[u8]) -> (r: String)
    requires
        data@.len() < 2 || exists|i: int| 0 <= i < data@.len() && data@[i] == 0,
    ensures
        r@ == zstring_text(data@),
{
    let n = data.len();
    if n < 2 {
        return String::new();
    }
    let mut i: usize = 0;
    while i < n
        invariant
            n == data@.len(),
            0 <= i <= n,
            exists|j: int| 0 <= j < n && data@[j] == 0,
            forall|j: int| 0 <= j < i ==> data@[j] != 0,
        decreases n - i,
    {
        if data[i] == 0 {
            proof {
                lemma_first_zero_at(data@, i as int);
            }
            let prefix = slice_subrange(data, 0, i);
            assert(prefix@ =~= data@.take(i as int));
            return parse_string(prefix);
        }
        i += 1;
    }
    proof {
        let j = choose|j: int| 0 <= j < n && data@[j] == 0;
        assert(false);
    }
    String::new()
}

/// Little-endian 32-bit value of the first four bytes.
pub open spec fn le_u32_of(s: Seq<u8>) -> int {
    s[0] + s[1] * 0x100 + s[2] * 0x1_0000 + s[3] * 0x100_0000
}

/// Reads a little-endian `u32` from the start of the slice.
pub fn le_slice_to_u32(input: &[u8]) -> (r: u32)
    requires
        input@.len() >= 4,
    ensures
        r == le_u32_of(input@),
{
    let b0 = input[0] as u32;
    let b1 = input[1] as u32;
    let b2 = input[2] as u32;
    let b3 = input[3] as u32;
    b0 + b1 * 0x100 + b2 * 0x1_0000 + b3 * 0x100_0000
}

/// What reading a variable-size value from the head of `s` yields: the value
/// and the number of bytes consumed, or nothing when the data is too short.
/// The two low bits of the first byte give the width; an invalid width
/// indicator yields value zero, as the save format's readers conventionally
/// treat it.
pub open spec fn vsval_spec(s: Seq<u8>) -> Option<(u32, usize)> {
    if s.len() == 0 {
        None
    } else {
        let t = s[0] & 0b0000_0011;
        if t == 0 {
            Some((((s[0] & 0b1111_1100) >> 2) as u32, 1usize))
        } else if t == 1 {
            if s.len() < 2 {
                None
            } else {
                Some((((((s[1] as u16) << 8) ^ (s[0] as u16)) >> 2) as u32, 2usize))
            }
        } else if t == 2 {
            if s.len() < 3 {
                None
            } else {
                Some(
                    ((((s[2] as u32) << 16) ^ (((s[1] as u32) << 8) ^ (s[0] as u32))) >> 2, 3usize),
                )
            }
        } else {
            Some((0u32, 1usize))
        }
    }
}

/// Reads a variable-size value from the start of the slice, returning the
/// value and how many bytes it occupied; `None` when the slice is too short.
pub fn read_vsval(input: &[u8]) -> (r: Option<(u32, usize)>)
    ensures
        r == vsval_spec(input@),
{
    if input.len() == 0 {
        return None;
    }
    let first_byte = input[0];
    let t = first_byte & 0b0000_0011;
    if t == 0 {
        Some((((first_byte & 0b1111_1100) >> 2) as u32, 1))
    } else if t == 1 {
        if input.len() < 2 {
            None
        } else {
            let second_byte = input[1];
            Some((((((second_byte as u16) << 8) ^ (first_byte as u16)) >> 2) as u32, 2))
        }
    } else if t == 2 {
        if input.len() < 3 {
            None
        } else {
            let second_byte = input[1];
            let third_byte = input[2];
            Some(
                ((((third_byte as u32) << 16) ^ (((second_byte as u32) << 8) ^ (first_byte
                    as u32))) >> 2, 3),
            )
        }
    } else {
        Some((0, 1))
    }
}

} // verus!
