//! The dual offset metric: a length or position expressed simultaneously as a
//! UTF-8 byte count and a Unicode-scalar (character) count, together with the
//! lemmas that tie character prefixes to byte offsets of the encoding.

use vstd::prelude::*;
use vstd::string::StrSliceExecFns;
use vstd::utf8::*;

verus! {

/// Number of bytes in the UTF-8 encoding of the character sequence `s`.
pub open spec fn byte_len(s: Seq<char>) -> nat {
    encode_utf8(s).len()
}

/// A length or position measured both in UTF-8 bytes and in Unicode scalar
/// values (characters).
#[derive(Debug, Clone, Copy)]
pub struct Utf8Metric {
    pub utf8: usize,
    pub byte: usize,
}

impl Utf8Metric {
    pub fn new(byte_size: usize, utf8_size: usize) -> (m: Utf8Metric)
        ensures
            m.byte == byte_size,
            m.utf8 == utf8_size,
    {
        Utf8Metric { byte: byte_size, utf8: utf8_size }
    }

    /// Derive the metric of a string: its character count and the byte count
    /// of its UTF-8 encoding.
    pub fn from_str(utf8_str: &str) -> (m: Utf8Metric)
        ensures
            m.utf8 == utf8_str@.len(),
            m.byte == byte_len(utf8_str@),
    {
        let utf8_size = utf8_str.unicode_len();
        let byte_size = utf8_str.as_bytes().len();
        Utf8Metric { utf8: utf8_size, byte: byte_size }
    }
}

/// The UTF-8 encoding of a concatenation is the concatenation of the
/// encodings.
pub proof fn lemma_encode_utf8_concat(a: Seq<char>, b: Seq<char>)
    ensures
        encode_utf8(a + b) == encode_utf8(a) + encode_utf8(b),
    decreases a.len(),
{
    if a.len() == 0 {
        assert(a + b =~= b);
        assert(encode_utf8(a) + encode_utf8(b) =~= encode_utf8(b));
    } else {
        assert((a + b).drop_first() =~= a.drop_first() + b);
        lemma_encode_utf8_concat(a.drop_first(), b);
        assert(encode_utf8(a + b) =~= encode_utf8(a) + encode_utf8(b));
    }
}

/// Byte lengths add over concatenation.
pub proof fn lemma_byte_len_concat(a: Seq<char>, b: Seq<char>)
    ensures
        byte_len(a + b) == byte_len(a) + byte_len(b),
{
    lemma_encode_utf8_concat(a, b);
}

/// Splitting a character run at any point divides both metrics exactly: the
/// character counts and the byte counts of the two sides sum to those of the
/// whole, and the two slices concatenate back to the original run.
pub proof fn lemma_split_exact(s: Seq<char>, k: int)
    requires
        0 <= k <= s.len(),
    ensures
        s.take(k).len() + s.skip(k).len() == s.len(),
        byte_len(s.take(k)) + byte_len(s.skip(k)) == byte_len(s),
        s.take(k) + s.skip(k) == s,
{
    assert(s.take(k) + s.skip(k) =~= s);
    lemma_byte_len_concat(s.take(k), s.skip(k));
}

/// Every character's encoding takes between 1 and 4 bytes.
pub proof fn lemma_scalar_width_bounds(c: char)
    ensures
        1 <= encode_scalar(c as u32).len() <= 4,
{
    char_is_scalar(c);
}

/// A character sequence never encodes to fewer bytes than it has characters,
/// nor to more than four bytes per character.
pub proof fn lemma_byte_len_bounds(s: Seq<char>)
    ensures
        s.len() <= byte_len(s) <= 4 * s.len(),
    decreases s.len(),
{
    if s.len() == 0 {
    } else {
        lemma_scalar_width_bounds(s[0]);
        lemma_byte_len_bounds(s.drop_first());
    }
}

/// The byte offset of any whole-character prefix is a character boundary of
/// the encoding: no such offset ever points into the middle of a codepoint's
/// byte encoding.
pub proof fn lemma_char_prefix_boundary(s: Seq<char>, k: int)
    requires
        0 <= k <= s.len(),
    ensures
        is_char_boundary(encode_utf8(s), byte_len(s.take(k)) as int),
{
    let pre = s.take(k);
    let suf = s.skip(k);
    assert(pre + suf =~= s);
    lemma_encode_utf8_concat(pre, suf);
    let enc = encode_utf8(s);
    let bi = byte_len(pre) as int;
    encode_utf8_valid_utf8(s);
    if k == s.len() {
        assert(suf =~= Seq::<char>::empty());
        assert(bi == enc.len());
        is_char_boundary_start_end_of_seq(enc);
    } else {
        encode_utf8_valid_utf8(suf);
        lemma_byte_len_bounds(suf);
        assert(0 <= bi < enc.len());
        let enc_suf = encode_utf8(suf);
        assert(enc[bi] == enc_suf[0]);
        assert(valid_first_scalar(enc_suf));
        assert(!is_continuation_byte(enc_suf[0]));
        is_char_boundary_iff_not_is_continuation_byte(enc, bi);
    }
}

/// The bytes of the encoding between the offsets of two whole-character
/// prefixes are exactly the encoding of the characters in between.
pub proof fn lemma_encode_subrange(s: Seq<char>, i: int, j: int)
    requires
        0 <= i <= j <= s.len(),
    ensures
        encode_utf8(s).subrange(
            byte_len(s.take(i)) as int,
            byte_len(s.take(j)) as int,
        ) == encode_utf8(s.subrange(i, j)),
        byte_len(s.take(i)) <= byte_len(s.take(j)) <= byte_len(s),
{
    let mid = s.subrange(i, j);
    assert(s.take(j) =~= s.take(i) + mid);
    assert(s =~= s.take(j) + s.skip(j));
    lemma_encode_utf8_concat(s.take(i), mid);
    lemma_encode_utf8_concat(s.take(j), s.skip(j));
    assert(encode_utf8(s) =~= encode_utf8(s.take(i)) + encode_utf8(mid) + encode_utf8(s.skip(j)));
    assert(encode_utf8(s).subrange(byte_len(s.take(i)) as int, byte_len(s.take(j)) as int)
        =~= encode_utf8(mid));
}

/// Decoding the encoding of a character sequence gives that sequence back;
/// hence two character sequences with the same encoding are equal.
pub proof fn lemma_encode_injective(a: Seq<char>, b: Seq<char>)
    requires
        encode_utf8(a) == encode_utf8(b),
    ensures
        a == b,
{
    encode_utf8_decode_utf8(a);
    encode_utf8_decode_utf8(b);
}

/// The number of bytes a character occupies in UTF-8.
pub fn scalar_width(c: char) -> (w: usize)
    ensures
        w == encode_scalar(c as u32).len(),
{
    proof {
        char_is_scalar(c);
    }
    let u = c as u32;
    if u < 0x80 {
        1
    } else if u < 0x800 {
        2
    } else if u < 0x10000 {
        3
    } else {
        4
    }
}

/// Byte offset of the `unicode_offset`-th character of `data`: the summed
/// UTF-8 width of the characters before it.
pub fn to_byte_offset(data: &str, unicode_offset: usize) -> (r: usize)
    requires
        unicode_offset <= data@.len(),
    ensures
        r == byte_len(data@.take(unicode_offset as int)),
{
    let total_bytes = data.as_bytes().len();
    proof {
        assert(total_bytes == byte_len(data@));
    }
    let mut acc: usize = 0;
    let mut i: usize = 0;
    while i < unicode_offset
        invariant
            i <= unicode_offset <= data@.len(),
            acc == byte_len(data@.take(i as int)),
            total_bytes == byte_len(data@),
        decreases unicode_offset - i,
    {
        let c = data.get_char(i);
        let w = scalar_width(c);
        proof {
            assert(data@.take(i + 1) =~= data@.take(i as int) + seq![data@[i as int]]);
            lemma_byte_len_concat(data@.take(i as int), seq![data@[i as int]]);
            assert(seq![data@[i as int]].drop_first() =~= Seq::<char>::empty());
            assert(encode_utf8(Seq::<char>::empty()) =~= Seq::<u8>::empty());
            assert(encode_utf8(seq![data@[i as int]]) =~= encode_scalar(data@[i as int] as u32));
            lemma_encode_subrange(data@, i + 1, data@.len() as int);
            assert(data@.take(data@.len() as int) =~= data@);
        }
        acc = acc + w;
        i = i + 1;
    }
    acc
}

} // verus!
