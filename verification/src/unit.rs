//! Offset-unit model: documents are sequences of characters, but each engine
//! addresses them either by codepoint offsets or by UTF-8 byte offsets. This
//! module maps unit offsets to character indices and defines what one
//! positional edit does to a document.

use vstd::prelude::*;

verus! {

use vstd::utf8::{encode_utf8, encode_scalar};

/// Width in bytes of one character's UTF-8 encoding.
pub open spec fn scalar_width(c: char) -> int {
    encode_scalar(c as u32).len() as int
}

/// Length of a document in UTF-8 bytes.
pub open spec fn byte_len(s: Seq<char>) -> int {
    encode_utf8(s).len() as int
}

/// Length of a document in the given offset unit (bytes or codepoints).
pub open spec fn unit_len(bytes: bool, s: Seq<char>) -> int {
    if bytes {
        byte_len(s)
    } else {
        s.len() as int
    }
}

/// The character index at a byte offset, if the offset falls on a character
/// boundary of the document's UTF-8 encoding.
pub open spec fn byte_off_to_idx(s: Seq<char>, off: int) -> Option<int>
    decreases s.len(),
{
    if off == 0 {
        Some(0)
    } else if s.len() == 0 {
        None
    } else if off < scalar_width(s[0]) {
        None
    } else {
        match byte_off_to_idx(s.drop_first(), off - scalar_width(s[0])) {
            Some(i) => Some(i + 1),
            None => None,
        }
    }
}

/// The character index at an offset in the given unit.
pub open spec fn off_to_idx(bytes: bool, s: Seq<char>, off: int) -> Option<int> {
    if bytes {
        byte_off_to_idx(s, off)
    } else if 0 <= off && off <= s.len() {
        Some(off)
    } else {
        None
    }
}

/// Both ends of a half-open edit range address character boundaries of `doc`.
pub open spec fn edit_ok(bytes: bool, doc: Seq<char>, pos: int, end: int) -> bool {
    &&& pos <= end
    &&& off_to_idx(bytes, doc, pos) is Some
    &&& off_to_idx(bytes, doc, end) is Some
}

/// The document after deleting the range `pos..end` (in unit offsets) and
/// inserting `ins` in its place. Meaningful when `edit_ok` holds.
pub open spec fn edited(bytes: bool, doc: Seq<char>, pos: int, end: int, ins: Seq<char>) -> Seq<
    char,
> {
    let i = off_to_idx(bytes, doc, pos).unwrap();
    let j = off_to_idx(bytes, doc, end).unwrap();
    doc.take(i) + ins + doc.skip(j)
}

pub proof fn lemma_scalar_width_bounds(c: char)
    ensures
        1 <= scalar_width(c) <= 4,
{
}

pub proof fn lemma_byte_len_singleton(c: char)
    ensures
        byte_len(seq![c]) == scalar_width(c),
{
    let s = seq![c];
    assert(s.len() == 1 && s[0] == c);
    assert(s.drop_first() =~= Seq::<char>::empty());
    assert(encode_utf8(s.drop_first()) =~= Seq::<u8>::empty());
    assert(encode_utf8(s) == encode_scalar(c as u32) + encode_utf8(s.drop_first()));
    assert(encode_scalar(c as u32) + Seq::<u8>::empty() =~= encode_scalar(c as u32));
}

pub proof fn lemma_encode_utf8_concat(a: Seq<char>, b: Seq<char>)
    ensures
        encode_utf8(a + b) == encode_utf8(a) + encode_utf8(b),
    decreases a.len(),
{
    if a.len() == 0 {
        assert(a + b =~= b);
        assert(encode_utf8(a) + encode_utf8(b) =~= encode_utf8(b));
    } else {
        assert((a + b).drop_first() =~= a.drop_first() + b);
        lemma_encode_utf8_concat(a.drop_first(), b);
        assert(encode_utf8(a + b) =~= encode_utf8(a) + encode_utf8(b));
    }
}

pub proof fn lemma_byte_len_concat(a: Seq<char>, b: Seq<char>)
    ensures
        byte_len(a + b) == byte_len(a) + byte_len(b),
{
    lemma_encode_utf8_concat(a, b);
}

pub proof fn lemma_unit_len_concat(bytes: bool, a: Seq<char>, b: Seq<char>)
    ensures
        unit_len(bytes, a + b) == unit_len(bytes, a) + unit_len(bytes, b),
{
    if bytes {
        lemma_byte_len_concat(a, b);
    }
}

pub proof fn lemma_byte_len_ge_len(s: Seq<char>)
    ensures
        s.len() <= byte_len(s),
        0 <= byte_len(s),
    decreases s.len(),
{
    if s.len() == 0 {
    } else {
        lemma_byte_len_ge_len(s.drop_first());
        assert(s =~= seq![s[0]] + s.drop_first());
        lemma_byte_len_concat(seq![s[0]], s.drop_first());
        lemma_byte_len_singleton(s[0]);
    }
}

pub proof fn lemma_unit_len_nonneg(bytes: bool, s: Seq<char>)
    ensures
        0 <= unit_len(bytes, s),
        unit_len(bytes, s) == 0 ==> s.len() == 0,
        s.len() == 0 ==> unit_len(bytes, s) == 0,
{
    lemma_byte_len_ge_len(s);
    if s.len() == 0 {
        assert(s =~= Seq::<char>::empty());
    }
}

/// An offset that maps to a character index is the unit length of the prefix
/// it cuts off.
pub proof fn lemma_idx_take(bytes: bool, s: Seq<char>, off: int)
    requires
        off_to_idx(bytes, s, off) is Some,
    ensures
        0 <= off_to_idx(bytes, s, off).unwrap() <= s.len(),
        unit_len(bytes, s.take(off_to_idx(bytes, s, off).unwrap())) == off,
    decreases s.len(),
{
    let i = off_to_idx(bytes, s, off).unwrap();
    if !bytes {
        assert(s.take(i).len() == i);
    } else {
        if off == 0 {
            assert(s.take(0) =~= Seq::<char>::empty());
        } else {
            lemma_scalar_width_bounds(s[0]);
            lemma_idx_take(bytes, s.drop_first(), off - scalar_width(s[0]));
            let i2 = off_to_idx(bytes, s.drop_first(), off - scalar_width(s[0])).unwrap();
            assert(i == i2 + 1);
            assert(s.take(i) =~= seq![s[0]] + s.drop_first().take(i2));
            lemma_byte_len_concat(seq![s[0]], s.drop_first().take(i2));
            lemma_byte_len_singleton(s[0]);
        }
    }
}

/// The unit length of a prefix maps back to the prefix's character count,
/// whatever follows it.
pub proof fn lemma_prefix_idx(bytes: bool, a: Seq<char>, b: Seq<char>)
    ensures
        off_to_idx(bytes, a + b, unit_len(bytes, a)) == Some(a.len() as int),
    decreases a.len(),
{
    lemma_unit_len_nonneg(bytes, a);
    if !bytes {
        assert((a + b).len() == a.len() + b.len());
    } else {
        if a.len() == 0 {
            assert(byte_len(a) == 0) by {
                assert(a =~= Seq::<char>::empty());
            }
        } else {
            let w = scalar_width(a[0]);
            lemma_scalar_width_bounds(a[0]);
            assert(a =~= seq![a[0]] + a.drop_first());
            lemma_byte_len_concat(seq![a[0]], a.drop_first());
            lemma_byte_len_singleton(a[0]);
            lemma_byte_len_ge_len(a.drop_first());
            assert(byte_len(a) == w + byte_len(a.drop_first()));
            assert((a + b)[0] == a[0]);
            assert((a + b).drop_first() =~= a.drop_first() + b);
            lemma_prefix_idx(bytes, a.drop_first(), b);
        }
    }
}

/// Offsets map to character indices monotonically.
pub proof fn lemma_idx_mono(bytes: bool, s: Seq<char>, off1: int, off2: int)
    requires
        off_to_idx(bytes, s, off1) is Some,
        off_to_idx(bytes, s, off2) is Some,
        off1 <= off2,
    ensures
        off_to_idx(bytes, s, off1).unwrap() <= off_to_idx(bytes, s, off2).unwrap(),
    decreases s.len(),
{
    if bytes {
        if off1 == 0 {
            lemma_idx_take(bytes, s, off2);
        } else {
            lemma_scalar_width_bounds(s[0]);
            lemma_idx_mono(
                bytes,
                s.drop_first(),
                off1 - scalar_width(s[0]),
                off2 - scalar_width(s[0]),
            );
        }
    }
}

/// Executable width of one character's UTF-8 encoding.
pub fn scalar_width_exec(c: char) -> (w: usize)
    ensures
        w == scalar_width(c),
{
    proof {
        vstd::utf8::char_is_scalar(c);
    }
    let u = c as u32;
    if u < 0x80 {
        1
    } else if u < 0x800 {
        2
    } else if u < 0x10000 {
        3
    } else {
        4
    }
}

} // verus!
