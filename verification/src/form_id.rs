//! Global form identifiers: the dataset-wide addressing scheme.
//!
//! A `GlobalFormId` qualifies a record's local identifier with the index of
//! the source file that owns it in the global load order.  It round-trips
//! through a textual form `NNNN:XXXXXX` (zero-padded decimal index, colon,
//! zero-padded lowercase hexadecimal local id).

use vstd::prelude::*;
use vstd::string::*;

use crate::load_order::{LoadOrder, name_matches};

verus! {

/// Load-order-qualified record identifier.
///
/// Equality and ordering are fieldwise; the pair is the identity of a record
/// across the whole dataset.
#[derive(Clone, Copy, PartialEq, Eq, Structural, Hash, Debug, PartialOrd, Ord)]
pub struct GlobalFormId {
    pub source_index: u16,
    pub local_id: u32,
}

impl GlobalFormId {
    pub fn new(source_index: u16, local_id: u32) -> (r: GlobalFormId)
        ensures
            r.source_index == source_index,
            r.local_id == local_id,
    {
        GlobalFormId { source_index, local_id }
    }

    /// The identifier packed into a single integer, usable as a flat map key.
    pub open spec fn spec_key(self) -> int {
        self.source_index as int * 0x1_0000_0000 + self.local_id as int
    }

    pub fn key(&self) -> (r: u64)
        ensures
            r == self.spec_key(),
    {
        self.source_index as u64 * 0x1_0000_0000 + self.local_id as u64
    }

    /// Strictly-less comparison in the fieldwise (lexicographic) order.
    pub open spec fn spec_lt(self, other: GlobalFormId) -> bool {
        self.source_index < other.source_index || (self.source_index == other.source_index
            && self.local_id < other.local_id)
    }

    pub fn lt(&self, other: &GlobalFormId) -> (r: bool)
        ensures
            r == self.spec_lt(*other),
    {
        self.source_index < other.source_index || (self.source_index == other.source_index
            && self.local_id < other.local_id)
    }
}

/// Packing is injective: equal keys mean equal identifiers.
pub proof fn lemma_key_injective(a: GlobalFormId, b: GlobalFormId)
    requires
        a.spec_key() == b.spec_key(),
    ensures
        a == b,
{
    assert(a.source_index == b.source_index && a.local_id == b.local_id) by (nonlinear_arith)
        requires
            a.source_index as int * 0x1_0000_0000 + a.local_id as int == b.source_index as int
                * 0x1_0000_0000 + b.local_id as int,
            a.local_id < 0x1_0000_0000,
            b.local_id < 0x1_0000_0000,
    ;
}

/// Types that carry a global form identifier.
pub trait FormIdContainer {
    fn get_global_form_id(&self) -> GlobalFormId;
}

// ---------------------------------------------------------------------------
// Textual encoding
// ---------------------------------------------------------------------------

/// Reason a textual form identifier was rejected.
#[derive(Clone, Copy, PartialEq, Eq, Structural, Debug)]
pub enum FormIdParseError {
    /// The text holds no `:` separator.
    MissingSeparator,
    /// The part before the `:` is not a decimal number that fits the index width.
    InvalidIndex,
    /// The part after the `:` is not a hexadecimal number that fits the id width.
    InvalidId,
}

pub open spec fn is_dec_digit(c: char) -> bool {
    48 <= c as u32 && c as u32 <= 57
}

pub open spec fn dec_val(c: char) -> int {
    c as u32 - 48
}

pub open spec fn is_hex_digit(c: char) -> bool {
    is_dec_digit(c) || (97 <= c as u32 && c as u32 <= 102) || (65 <= c as u32 && c as u32 <= 70)
}

pub open spec fn hex_val(c: char) -> int {
    if is_dec_digit(c) {
        dec_val(c)
    } else if 97 <= c as u32 && c as u32 <= 102 {
        c as u32 - 87
    } else {
        c as u32 - 55
    }
}

/// The decimal digit character for `d` (0 through 9).
pub open spec fn dec_digit(d: int) -> char {
    if d == 0 { '0' }
    else if d == 1 { '1' }
    else if d == 2 { '2' }
    else if d == 3 { '3' }
    else if d == 4 { '4' }
    else if d == 5 { '5' }
    else if d == 6 { '6' }
    else if d == 7 { '7' }
    else if d == 8 { '8' }
    else { '9' }
}

/// The lowercase hexadecimal digit character for `d` (0 through 15).
pub open spec fn hex_digit(d: int) -> char {
    if d < 10 { dec_digit(d) }
    else if d == 10 { 'a' }
    else if d == 11 { 'b' }
    else if d == 12 { 'c' }
    else if d == 13 { 'd' }
    else if d == 14 { 'e' }
    else { 'f' }
}

/// Decimal digit sequence of `v`, most significant first, no leading zeros.
pub open spec fn dec_seq(v: int) -> Seq<char>
    decreases v,
{
    if v < 10 {
        seq![dec_digit(v)]
    } else {
        dec_seq(v / 10).push(dec_digit(v % 10))
    }
}

/// Lowercase hexadecimal digit sequence of `v`, most significant first.
pub open spec fn hex_seq(v: int) -> Seq<char>
    decreases v,
{
    if v < 16 {
        seq![hex_digit(v)]
    } else {
        hex_seq(v / 16).push(hex_digit(v % 16))
    }
}

pub open spec fn zeros(n: int) -> Seq<char> {
    Seq::new(n as nat, |i: int| '0')
}

/// `s` left-padded with `'0'` to width `w`.
pub open spec fn pad_left(s: Seq<char>, w: int) -> Seq<char> {
    if s.len() >= w {
        s
    } else {
        zeros(w - s.len()) + s
    }
}

/// The canonical text of an identifier: `NNNN:XXXXXX`.
pub open spec fn form_id_text(id: GlobalFormId) -> Seq<char> {
    pad_left(dec_seq(id.source_index as int), 4) + seq![':'] + pad_left(
        hex_seq(id.local_id as int),
        6,
    )
}

/// Value of a decimal digit string (most significant first).
pub open spec fn dec_value(s: Seq<char>) -> int
    decreases s.len(),
{
    if s.len() == 0 {
        0
    } else {
        dec_value(s.drop_last()) * 10 + dec_val(s.last())
    }
}

/// Value of a hexadecimal digit string (most significant first).
pub open spec fn hex_value(s: Seq<char>) -> int
    decreases s.len(),
{
    if s.len() == 0 {
        0
    } else {
        hex_value(s.drop_last()) * 16 + hex_val(s.last())
    }
}

pub open spec fn all_dec_digits(s: Seq<char>) -> bool {
    forall|i: int| 0 <= i < s.len() ==> is_dec_digit(#[trigger] s[i])
}

pub open spec fn all_hex_digits(s: Seq<char>) -> bool {
    forall|i: int| 0 <= i < s.len() ==> is_hex_digit(#[trigger] s[i])
}

/// Index of the first `:` in `s`, or `-1` if there is none.
pub open spec fn colon_pos(s: Seq<char>) -> int
    decreases s.len(),
{
    if s.len() == 0 {
        -1
    } else if s[0] == ':' {
        0
    } else if colon_pos(s.drop_first()) == -1 {
        -1
    } else {
        1 + colon_pos(s.drop_first())
    }
}

/// What parsing a textual form identifier yields, for every input.
pub open spec fn parse_form_id_text(s: Seq<char>) -> Result<GlobalFormId, FormIdParseError> {
    let cp = colon_pos(s);
    if cp == -1 {
        Err(FormIdParseError::MissingSeparator)
    } else {
        let dpart = s.take(cp);
        let hpart = s.skip(cp + 1);
        if dpart.len() == 0 || !all_dec_digits(dpart) || dec_value(dpart) > 0xFFFF {
            Err(FormIdParseError::InvalidIndex)
        } else if hpart.len() == 0 || !all_hex_digits(hpart) || hex_value(hpart) > 0xFFFFFFFF {
            Err(FormIdParseError::InvalidId)
        } else {
            Ok(GlobalFormId {
                source_index: dec_value(dpart) as u16,
                local_id: hex_value(hpart) as u32,
            })
        }
    }
}

// ---------------------------------------------------------------------------
// Executable encoding
// ---------------------------------------------------------------------------

fn push_dec_digit(s: &mut String, d: u16)
    requires
        d < 10,
    ensures
        final(s)@ == old(s)@.push(dec_digit(d as int)),
{
    match d {
        0 => {
            proof { reveal_strlit("0"); }
            s.append("0");
        },
        1 => {
            proof { reveal_strlit("1"); }
            s.append("1");
        },
        2 => {
            proof { reveal_strlit("2"); }
            s.append("2");
        },
        3 => {
            proof { reveal_strlit("3"); }
            s.append("3");
        },
        4 => {
            proof { reveal_strlit("4"); }
            s.append("4");
        },
        5 => {
            proof { reveal_strlit("5"); }
            s.append("5");
        },
        6 => {
            proof { reveal_strlit("6"); }
            s.append("6");
        },
        7 => {
            proof { reveal_strlit("7"); }
            s.append("7");
        },
        8 => {
            proof { reveal_strlit("8"); }
            s.append("8");
        },
        _ => {
            proof { reveal_strlit("9"); }
            s.append("9");
        },
    }
    assert(s@ =~= old(s)@.push(dec_digit(d as int)));
}

fn push_hex_digit(s: &mut String, d: u32)
    requires
        d < 16,
    ensures
        final(s)@ == old(s)@.push(hex_digit(d as int)),
{
    match d {
        10 => {
            proof { reveal_strlit("a"); }
            s.append("a");
        },
        11 => {
            proof { reveal_strlit("b"); }
            s.append("b");
        },
        12 => {
            proof { reveal_strlit("c"); }
            s.append("c");
        },
        13 => {
            proof { reveal_strlit("d"); }
            s.append("d");
        },
        14 => {
            proof { reveal_strlit("e"); }
            s.append("e");
        },
        15 => {
            proof { reveal_strlit("f"); }
            s.append("f");
        },
        _ => {
            push_dec_digit(s, d as u16);
        },
    }
    assert(s@ =~= old(s)@.push(hex_digit(d as int)));
}

fn push_dec(s: &mut String, v: u16)
    ensures
        final(s)@ == old(s)@ + dec_seq(v as int),
    decreases v,
{
    if v < 10 {
        push_dec_digit(s, v);
    } else {
        push_dec(s, v / 10);
        push_dec_digit(s, v % 10);
    }
    assert(s@ =~= old(s)@ + dec_seq(v as int));
}

fn push_hex(s: &mut String, v: u32)
    ensures
        final(s)@ == old(s)@ + hex_seq(v as int),
    decreases v,
{
    if v < 16 {
        push_hex_digit(s, v);
    } else {
        push_hex(s, v / 16);
        push_hex_digit(s, v % 16);
    }
    assert(s@ =~= old(s)@ + hex_seq(v as int));
}

proof fn lemma_dec_seq_len(v: int)
    requires
        0 <= v <= 0xFFFF,
    ensures
        1 <= dec_seq(v).len() <= 5,
        v < 10 ==> dec_seq(v).len() == 1,
        10 <= v < 100 ==> dec_seq(v).len() == 2,
        100 <= v < 1000 ==> dec_seq(v).len() == 3,
        1000 <= v < 10000 ==> dec_seq(v).len() == 4,
        10000 <= v ==> dec_seq(v).len() == 5,
    decreases v,
{
    if v >= 10 {
        lemma_dec_seq_len(v / 10);
    }
}

proof fn lemma_hex_seq_len(v: int)
    requires
        0 <= v <= 0xFFFFFFFF,
    ensures
        1 <= hex_seq(v).len() <= 8,
        v < 0x10 ==> hex_seq(v).len() == 1,
        0x10 <= v < 0x100 ==> hex_seq(v).len() == 2,
        0x100 <= v < 0x1000 ==> hex_seq(v).len() == 3,
        0x1000 <= v < 0x10000 ==> hex_seq(v).len() == 4,
        0x10000 <= v < 0x100000 ==> hex_seq(v).len() == 5,
        0x100000 <= v < 0x1000000 ==> hex_seq(v).len() == 6,
        0x1000000 <= v < 0x10000000 ==> hex_seq(v).len() == 7,
        0x10000000 <= v ==> hex_seq(v).len() == 8,
    decreases v,
{
    if v >= 16 {
        lemma_hex_seq_len(v / 16);
    }
}

impl GlobalFormId {
    /// Renders the identifier as `NNNN:XXXXXX`: the source index in decimal,
    /// zero-padded to four digits, then the local id in lowercase
    /// hexadecimal, zero-padded to six digits.
    pub fn to_text(&self) -> (r: String)
        ensures
            r@ == form_id_text(*self),
    {
        proof {
            lemma_dec_seq_len(self.source_index as int);
            lemma_hex_seq_len(self.local_id as int);
        }
        let mut s = String::new();
        if self.source_index < 1000 {
            push_dec_digit(&mut s, 0);
        }
        if self.source_index < 100 {
            push_dec_digit(&mut s, 0);
        }
        if self.source_index < 10 {
            push_dec_digit(&mut s, 0);
        }
        push_dec(&mut s, self.source_index);
        assert(s@ =~= pad_left(dec_seq(self.source_index as int), 4));
        proof { reveal_strlit(":"); }
        s.append(":");
        assert(s@ =~= pad_left(dec_seq(self.source_index as int), 4) + seq![':']);
        if self.local_id < 0x100000 {
            push_hex_digit(&mut s, 0);
        }
        if self.local_id < 0x10000 {
            push_hex_digit(&mut s, 0);
        }
        if self.local_id < 0x1000 {
            push_hex_digit(&mut s, 0);
        }
        if self.local_id < 0x100 {
            push_hex_digit(&mut s, 0);
        }
        if self.local_id < 0x10 {
            push_hex_digit(&mut s, 0);
        }
        push_hex(&mut s, self.local_id);
        assert(s@ =~= form_id_text(*self));
        s
    }
}

// ---------------------------------------------------------------------------
// Executable parsing
// ---------------------------------------------------------------------------

proof fn lemma_colon_pos_at(s: Seq<char>, i: int)
    requires
        0 <= i < s.len(),
        s[i] == ':',
        forall|j: int| 0 <= j < i ==> s[j] != ':',
    ensures
        colon_pos(s) == i,
    decreases s.len(),
{
    if i > 0 {
        lemma_colon_pos_at(s.drop_first(), i - 1);
    }
}

proof fn lemma_colon_pos_none(s: Seq<char>)
    requires
        forall|j: int| 0 <= j < s.len() ==> s[j] != ':',
    ensures
        colon_pos(s) == -1,
    decreases s.len(),
{
    if s.len() > 0 {
        lemma_colon_pos_none(s.drop_first());
    }
}

proof fn lemma_dec_value_nonneg(s: Seq<char>)
    requires
        all_dec_digits(s),
    ensures
        dec_value(s) >= 0,
    decreases s.len(),
{
    if s.len() > 0 {
        assert(all_dec_digits(s.drop_last()));
        lemma_dec_value_nonneg(s.drop_last());
    }
}

proof fn lemma_dec_value_prefix_mono(s: Seq<char>, i: int)
    requires
        all_dec_digits(s),
        0 <= i <= s.len(),
    ensures
        dec_value(s.take(i)) <= dec_value(s),
    decreases s.len() - i,
{
    if i < s.len() {
        lemma_dec_value_prefix_mono(s, i + 1);
        assert(s.take(i + 1).drop_last() =~= s.take(i));
        assert(all_dec_digits(s.take(i)));
        lemma_dec_value_nonneg(s.take(i));
    } else {
        assert(s.take(i) =~= s);
    }
}

proof fn lemma_hex_value_nonneg(s: Seq<char>)
    requires
        all_hex_digits(s),
    ensures
        hex_value(s) >= 0,
    decreases s.len(),
{
    if s.len() > 0 {
        assert(all_hex_digits(s.drop_last()));
        lemma_hex_value_nonneg(s.drop_last());
    }
}

proof fn lemma_hex_value_prefix_mono(s: Seq<char>, i: int)
    requires
        all_hex_digits(s),
        0 <= i <= s.len(),
    ensures
        hex_value(s.take(i)) <= hex_value(s),
    decreases s.len() - i,
{
    if i < s.len() {
        lemma_hex_value_prefix_mono(s, i + 1);
        assert(s.take(i + 1).drop_last() =~= s.take(i));
        assert(all_hex_digits(s.take(i)));
        lemma_hex_value_nonneg(s.take(i));
    } else {
        assert(s.take(i) =~= s);
    }
}

impl GlobalFormId {
    /// Parses text of the form `NNNN:XXXXXX` back into an identifier.
    ///
    /// Fails with `MissingSeparator` when no `:` is present, `InvalidIndex`
    /// when the part before the first `:` is not a decimal number that fits
    /// the index width, and `InvalidId` when the part after it is not a
    /// hexadecimal number that fits the id width.
    pub fn from_text(s: &str) -> (r: Result<GlobalFormId, FormIdParseError>)
        ensures
            r == parse_form_id_text(s@),
    {
        let n = s.unicode_len();
        let ghost view = s@;

        // Locate the first ':'.
        let mut cp: usize = 0;
        let mut found = false;
        let mut i: usize = 0;
        while i < n && !found
            invariant
                n == view.len(),
                view == s@,
                0 <= i <= n,
                forall|j: int| 0 <= j < i ==> view[j] != ':',
                found ==> i < n && view[i as int] == ':' && cp == i,
            decreases n - i + (if found { 0int } else { 1int }),
        {
            let c = s.get_char(i);
            if c == ':' {
                cp = i;
                found = true;
            } else {
                i += 1;
            }
        }
        if !found {
            proof {
                lemma_colon_pos_none(view);
            }
            return Err(FormIdParseError::MissingSeparator);
        }
        proof {
            lemma_colon_pos_at(view, cp as int);
        }
        let ghost dpart = view.take(cp as int);
        let ghost hpart = view.skip(cp as int + 1);

        if cp == 0 {
            return Err(FormIdParseError::InvalidIndex);
        }

        // Decimal source index before the separator.
        let mut acc: u32 = 0;
        let mut i: usize = 0;
        while i < cp
            invariant
                n == view.len(),
                view == s@,
                0 < cp < n,
                colon_pos(view) == cp,
                dpart == view.take(cp as int),
                0 <= i <= cp,
                all_dec_digits(view.take(i as int)),
                acc == dec_value(view.take(i as int)),
                acc <= 0xFFFF,
            decreases cp - i,
        {
            let c = s.get_char(i);
            let u = c as u32;
            assert(dpart[i as int] == view[i as int]);
            if !(48 <= u && u <= 57) {
                assert(!all_dec_digits(dpart));
                return Err(FormIdParseError::InvalidIndex);
            }
            let d = u - 48;
            let next = acc * 10 + d;
            proof {
                assert(view.take(i as int + 1).drop_last() =~= view.take(i as int));
                assert(view.take(i as int + 1).last() == view[i as int]);
            }
            if next > 0xFFFF {
                proof {
                    if all_dec_digits(dpart) {
                        assert(dpart.take(i as int + 1) =~= view.take(i as int + 1));
                        lemma_dec_value_prefix_mono(dpart, i as int + 1);
                    }
                }
                return Err(FormIdParseError::InvalidIndex);
            }
            acc = next;
            i += 1;
        }
        assert(view.take(i as int) =~= dpart);

        // Hexadecimal local id after the separator.
        if cp + 1 == n {
            assert(hpart.len() == 0);
            return Err(FormIdParseError::InvalidId);
        }
        let mut acc2: u64 = 0;
        let mut i: usize = cp + 1;
        while i < n
            invariant
                n == view.len(),
                view == s@,
                0 < cp < n,
                cp + 1 < n,
                colon_pos(view) == cp,
                dpart == view.take(cp as int),
                hpart == view.skip(cp as int + 1),
                dpart.len() > 0,
                all_dec_digits(dpart),
                dec_value(dpart) == acc,
                acc <= 0xFFFF,
                cp + 1 <= i <= n,
                all_hex_digits(hpart.take(i - cp - 1)),
                acc2 == hex_value(hpart.take(i - cp - 1)),
                acc2 <= 0xFFFFFFFF,
            decreases n - i,
        {
            let c = s.get_char(i);
            let u = c as u32;
            assert(hpart[i - cp - 1] == view[i as int]);
            let d: u32;
            if 48 <= u && u <= 57 {
                d = u - 48;
            } else if 97 <= u && u <= 102 {
                d = u - 87;
            } else if 65 <= u && u <= 70 {
                d = u - 55;
            } else {
                assert(!is_hex_digit(view[i as int]));
                assert(!all_hex_digits(hpart));
                return Err(FormIdParseError::InvalidId);
            }
            assert(is_hex_digit(view[i as int]) && hex_val(view[i as int]) == d);
            let next = acc2 * 16 + d as u64;
            proof {
                assert(hpart.take(i - cp).drop_last() =~= hpart.take(i - cp - 1));
                assert(hpart.take(i - cp).last() == view[i as int]);
            }
            if next > 0xFFFFFFFF {
                proof {
                    if all_hex_digits(hpart) {
                        lemma_hex_value_prefix_mono(hpart, i - cp);
                    }
                }
                return Err(FormIdParseError::InvalidId);
            }
            acc2 = next;
            i += 1;
        }
        assert(hpart.take(i - cp - 1) =~= hpart);

        Ok(GlobalFormId { source_index: acc as u16, local_id: acc2 as u32 })
    }
}

// ---------------------------------------------------------------------------
// Round trip
// ---------------------------------------------------------------------------

proof fn lemma_dec_seq_digits(v: int)
    requires
        v >= 0,
    ensures
        all_dec_digits(dec_seq(v)),
    decreases v,
{
    if v >= 10 {
        lemma_dec_seq_digits(v / 10);
        assert forall|i: int| 0 <= i < dec_seq(v).len() implies is_dec_digit(
            #[trigger] dec_seq(v)[i],
        ) by {
            if i < dec_seq(v / 10).len() {
                assert(dec_seq(v)[i] == dec_seq(v / 10)[i]);
            }
        }
    }
}

proof fn lemma_hex_seq_digits(v: int)
    requires
        v >= 0,
    ensures
        all_hex_digits(hex_seq(v)),
    decreases v,
{
    if v >= 16 {
        lemma_hex_seq_digits(v / 16);
        assert forall|i: int| 0 <= i < hex_seq(v).len() implies is_hex_digit(
            #[trigger] hex_seq(v)[i],
        ) by {
            if i < hex_seq(v / 16).len() {
                assert(hex_seq(v)[i] == hex_seq(v / 16)[i]);
            }
        }
    }
}

proof fn lemma_dec_seq_value(v: int)
    requires
        v >= 0,
    ensures
        dec_value(dec_seq(v)) == v,
    decreases v,
{
    if v < 10 {
        let s = dec_seq(v);
        assert(s.drop_last() =~= Seq::<char>::empty());
        assert(s.last() == dec_digit(v));
        assert(dec_value(s) == dec_value(s.drop_last()) * 10 + dec_val(s.last()));
        assert(dec_value(Seq::<char>::empty()) == 0);
        assert(dec_val(dec_digit(v)) == v);
    } else {
        lemma_dec_seq_value(v / 10);
        let s = dec_seq(v);
        assert(s.drop_last() =~= dec_seq(v / 10));
        assert(s.last() == dec_digit(v % 10));
        assert(dec_value(s) == dec_value(s.drop_last()) * 10 + dec_val(s.last()));
        assert(dec_val(dec_digit(v % 10)) == v % 10);
    }
}

proof fn lemma_hex_seq_value(v: int)
    requires
        v >= 0,
    ensures
        hex_value(hex_seq(v)) == v,
    decreases v,
{
    if v < 16 {
        let s = hex_seq(v);
        assert(s.drop_last() =~= Seq::<char>::empty());
        assert(s.last() == hex_digit(v));
        assert(hex_value(s) == hex_value(s.drop_last()) * 16 + hex_val(s.last()));
        assert(hex_value(Seq::<char>::empty()) == 0);
        assert(hex_val(hex_digit(v)) == v);
    } else {
        lemma_hex_seq_value(v / 16);
        let s = hex_seq(v);
        assert(s.drop_last() =~= hex_seq(v / 16));
        assert(s.last() == hex_digit(v % 16));
        assert(hex_value(s) == hex_value(s.drop_last()) * 16 + hex_val(s.last()));
        assert(hex_val(hex_digit(v % 16)) == v % 16);
    }
}

proof fn lemma_dec_value_pad(s: Seq<char>, k: int)
    requires
        k >= 0,
    ensures
        dec_value(zeros(k) + s) == dec_value(s),
    decreases s.len(), k,
{
    if s.len() == 0 {
        assert(zeros(k) + s =~= zeros(k));
        if k > 0 {
            assert(zeros(k).drop_last() =~= zeros(k - 1) + Seq::<char>::empty());
            lemma_dec_value_pad(Seq::<char>::empty(), k - 1);
            assert(zeros(k - 1) + Seq::<char>::empty() =~= zeros(k - 1));
            assert(zeros(k).last() == '0');
        }
    } else {
        lemma_dec_value_pad(s.drop_last(), k);
        assert((zeros(k) + s).drop_last() =~= zeros(k) + s.drop_last());
        assert((zeros(k) + s).last() == s.last());
    }
}

proof fn lemma_hex_value_pad(s: Seq<char>, k: int)
    requires
        k >= 0,
    ensures
        hex_value(zeros(k) + s) == hex_value(s),
    decreases s.len(), k,
{
    if s.len() == 0 {
        assert(zeros(k) + s =~= zeros(k));
        if k > 0 {
            assert(zeros(k).drop_last() =~= zeros(k - 1) + Seq::<char>::empty());
            lemma_hex_value_pad(Seq::<char>::empty(), k - 1);
            assert(zeros(k - 1) + Seq::<char>::empty() =~= zeros(k - 1));
            assert(zeros(k).last() == '0');
        }
    } else {
        lemma_hex_value_pad(s.drop_last(), k);
        assert((zeros(k) + s).drop_last() =~= zeros(k) + s.drop_last());
        assert((zeros(k) + s).last() == s.last());
    }
}

/// The textual encoding round-trips: parsing the rendered text of any
/// identifier yields that identifier back.
pub proof fn lemma_form_id_text_round_trip(id: GlobalFormId)
    ensures
        parse_form_id_text(form_id_text(id)) == Ok::<GlobalFormId, FormIdParseError>(id),
{
    let t = form_id_text(id);
    let d = pad_left(dec_seq(id.source_index as int), 4);
    let h = pad_left(hex_seq(id.local_id as int), 6);
    lemma_dec_seq_digits(id.source_index as int);
    lemma_hex_seq_digits(id.local_id as int);
    lemma_dec_seq_len(id.source_index as int);
    lemma_hex_seq_len(id.local_id as int);
    assert(all_dec_digits(d)) by {
        assert forall|i: int| 0 <= i < d.len() implies is_dec_digit(#[trigger] d[i]) by {
            if d.len() > dec_seq(id.source_index as int).len() {
                let k = d.len() - dec_seq(id.source_index as int).len();
                if i < k {
                    assert(d[i] == '0');
                } else {
                    assert(d[i] == dec_seq(id.source_index as int)[i - k]);
                }
            }
        }
    }
    assert(all_hex_digits(h)) by {
        assert forall|i: int| 0 <= i < h.len() implies is_hex_digit(#[trigger] h[i]) by {
            if h.len() > hex_seq(id.local_id as int).len() {
                let k = h.len() - hex_seq(id.local_id as int).len();
                if i < k {
                    assert(h[i] == '0');
                } else {
                    assert(h[i] == hex_seq(id.local_id as int)[i - k]);
                }
            }
        }
    }
    assert(t[d.len() as int] == ':');
    assert forall|j: int| 0 <= j < d.len() implies t[j] != ':' by {
        assert(t[j] == d[j]);
        assert(is_dec_digit(d[j]));
    }
    lemma_colon_pos_at(t, d.len() as int);
    assert(t.take(d.len() as int) =~= d);
    assert(t.skip(d.len() as int + 1) =~= h);
    if d.len() > dec_seq(id.source_index as int).len() {
        let k = d.len() - dec_seq(id.source_index as int).len();
        assert(d =~= zeros(k) + dec_seq(id.source_index as int));
        lemma_dec_value_pad(dec_seq(id.source_index as int), k);
    }
    lemma_dec_seq_value(id.source_index as int);
    assert(dec_value(d) == id.source_index as int);
    if h.len() > hex_seq(id.local_id as int).len() {
        let k = h.len() - hex_seq(id.local_id as int).len();
        assert(h =~= zeros(k) + hex_seq(id.local_id as int));
        lemma_hex_value_pad(hex_seq(id.local_id as int), k);
    }
    lemma_hex_seq_value(id.local_id as int);
    assert(hex_value(h) == id.local_id as int);
}


// ---------------------------------------------------------------------------
// Globalization: local identifiers to global ones
// ---------------------------------------------------------------------------

/// Reason a raw local identifier could not be resolved to a global one.
#[derive(Clone, Copy, PartialEq, Eq, Structural, Debug)]
pub enum FormIdResolveError {
    /// The owning-source slot in the identifier's top byte is larger than the
    /// current source's list of prerequisite sources.
    UnresolvedMasterReference,
    /// The owning source is not present in the global load order.
    SourceNotInLoadOrder,
}

/// Splits a raw local form identifier into its owning-source slot (the top
/// byte) and the record's own id (the low 24 bits).
pub fn split_form_id(raw: u32) -> (r: (u32, u32))
    ensures
        r.0 == raw >> 24,
        r.1 == raw & 0x00FFFFFF,
{
    (raw >> 24, raw & 0x00FFFFFF)
}

/// The name that owns slot `slot` of a source whose prerequisite list is
/// `masters`: the prerequisite at that position, or the source itself when
/// the slot equals the number of prerequisites.
pub open spec fn spec_slot_owner(slot: int, plugin_name: Seq<char>, masters: Seq<Seq<char>>) -> Option<
    Seq<char>,
> {
    if slot == masters.len() {
        Some(plugin_name)
    } else if slot < masters.len() {
        Some(masters[slot])
    } else {
        None
    }
}

/// Resolves a record's raw local identifier against the source's prerequisite
/// list and the global load order, yielding the dataset-wide identifier.
///
/// The top byte of `raw` selects the owning source among the current source's
/// prerequisites (`masters`), with the value just past the end standing for
/// the current source itself (`plugin_name`).  The owner's position in the
/// global load order becomes the source index; the low 24 bits stay as the
/// local record id.
pub fn globalize_form_id(
    raw: u32,
    plugin_name: &str,
    masters: &Vec<String>,
    load_order: &LoadOrder,
) -> (r: Result<GlobalFormId, FormIdResolveError>)
    requires
        load_order.names().len() <= 0xFFFF,
    ensures
        ({
            let owner = spec_slot_owner(
                (raw >> 24) as int,
                plugin_name@,
                masters@.map_values(|s: String| s@),
            );
            match owner {
                None => r == Err::<GlobalFormId, FormIdResolveError>(
                    FormIdResolveError::UnresolvedMasterReference,
                ),
                Some(owner_name) => {
                    match r {
                        Ok(id) => {
                            &&& id.local_id == raw & 0x00FFFFFF
                            &&& (id.source_index as int) < load_order.names().len()
                            &&& name_matches(load_order.names()[id.source_index as int], owner_name)
                            &&& forall|j: int|
                                0 <= j < id.source_index ==> !name_matches(
                                    load_order.names()[j],
                                    owner_name,
                                )
                        },
                        Err(e) => {
                            &&& e == FormIdResolveError::SourceNotInLoadOrder
                            &&& forall|j: int|
                                0 <= j < load_order.names().len() ==> !name_matches(
                                    load_order.names()[j],
                                    owner_name,
                                )
                        },
                    }
                },
            }
        }),
{
    let slot = (raw >> 24) as usize;
    let local = raw & 0x00FFFFFF;
    let owner: &str = if slot == masters.len() {
        plugin_name
    } else if slot < masters.len() {
        masters[slot].as_str()
    } else {
        return Err(FormIdResolveError::UnresolvedMasterReference);
    };
    match load_order.find_index(owner) {
        Some(i) => Ok(GlobalFormId { source_index: i as u16, local_id: local }),
        None => Err(FormIdResolveError::SourceNotInLoadOrder),
    }
}

} // verus!
