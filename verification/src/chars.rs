//! Character classification and UTF-8 byte accounting.
//!
//! Conversion results report positions as byte offsets into the original
//! UTF-8 input while all scanning is done over code points, so this module
//! ties the two together: [`byte_len`] measures a character sequence in
//! UTF-8 bytes, and [`char_width`] computes the encoded width of one
//! character.

use vstd::prelude::*;

verus! {

use vstd::utf8::{char_is_scalar, encode_scalar, encode_utf8};

/// True for hiragana (U+3040 to U+309F) and katakana (U+30A0 to U+30FF).
pub open spec fn is_kana_char(c: char) -> bool {
    (0x3040 <= c as u32 && c as u32 <= 0x309F) || (0x30A0 <= c as u32 && c as u32 <= 0x30FF)
}

/// Helper function to check if a character is kana (hiragana or katakana).
pub fn is_kana(ch: char) -> (r: bool)
    ensures
        r == is_kana_char(ch),
{
    let cp = ch as u32;
    (0x3040 <= cp && cp <= 0x309F) || (0x30A0 <= cp && cp <= 0x30FF)
}

/// True for code points treated as kanji when scanning for word boundaries:
/// everything from U+4E00 up, plus the U+3400 to U+9FFF extension range.
pub open spec fn is_kanji_char(c: char) -> bool {
    c as u32 >= 0x4E00 || (0x3400 <= c as u32 && c as u32 <= 0x9FFF)
}

/// Check if a character counts as kanji for word-boundary purposes.
pub fn is_kanji(ch: char) -> (r: bool)
    ensures
        r == is_kanji_char(ch),
{
    let cp = ch as u32;
    cp >= 0x4E00 || (0x3400 <= cp && cp <= 0x9FFF)
}

/// True for the characters with the Unicode `White_Space` property.
pub open spec fn is_space_char(c: char) -> bool {
    let cp = c as u32;
    (0x09 <= cp && cp <= 0x0D) || cp == 0x20 || cp == 0x85 || cp == 0xA0 || cp == 0x1680 || (
    0x2000 <= cp && cp <= 0x200A) || cp == 0x2028 || cp == 0x2029 || cp == 0x202F || cp == 0x205F
        || cp == 0x3000
}

/// Check if a character is Unicode whitespace.
pub fn is_space(ch: char) -> (r: bool)
    ensures
        r == is_space_char(ch),
{
    let cp = ch as u32;
    (0x09 <= cp && cp <= 0x0D) || cp == 0x20 || cp == 0x85 || cp == 0xA0 || cp == 0x1680 || (0x2000
        <= cp && cp <= 0x200A) || cp == 0x2028 || cp == 0x2029 || cp == 0x202F || cp == 0x205F
        || cp == 0x3000
}

/// True for the punctuation characters that end the backward word-boundary
/// scan of the furigana parser: a closing corner bracket, full-width
/// sentence punctuation, or common ASCII punctuation and whitespace.
pub open spec fn is_boundary_char(c: char) -> bool {
    c == '\u{300D}' || c == '\u{3001}' || c == '\u{3002}' || c == '\u{FF01}' || c == '\u{FF1F}'
        || c == '\u{FF09}' || c == '\u{FF3D}' || c == '.' || c == ',' || c == '!' || c == '?'
        || c == ';' || c == ':' || c == '(' || c == ')' || c == '[' || c == ']' || c == '{'
        || c == '}' || c == '"' || c == '\'' || c == '-' || c == '/' || c == '\\' || c == '|'
        || c == ' ' || c == '\t' || c == '\n' || c == '\r'
}

/// Check if a character is a word-boundary punctuation character.
pub fn is_boundary(ch: char) -> (r: bool)
    ensures
        r == is_boundary_char(ch),
{
    ch == '\u{300D}' || ch == '\u{3001}' || ch == '\u{3002}' || ch == '\u{FF01}' || ch == '\u{FF1F}'
        || ch == '\u{FF09}' || ch == '\u{FF3D}' || ch == '.' || ch == ',' || ch == '!' || ch == '?'
        || ch == ';' || ch == ':' || ch == '(' || ch == ')' || ch == '[' || ch == ']' || ch == '{'
        || ch == '}' || ch == '"' || ch == '\'' || ch == '-' || ch == '/' || ch == '\\' || ch == '|'
        || ch == ' ' || ch == '\t' || ch == '\n' || ch == '\r'
}

/// Width in bytes of one character's UTF-8 encoding.
pub open spec fn char_bytes(c: char) -> nat {
    encode_scalar(c as u32).len()
}

/// Length in bytes of the UTF-8 encoding of a character sequence.
pub open spec fn byte_len(s: Seq<char>) -> nat {
    encode_utf8(s).len()
}

/// Byte offset of character position `i` within `s`, counted from the start
/// of the UTF-8 encoding of `s`.
pub open spec fn byte_offset(s: Seq<char>, i: int) -> nat {
    byte_len(s.take(i))
}

/// Compute the UTF-8 width of a character.
pub fn char_width(c: char) -> (r: usize)
    ensures
        r == char_bytes(c),
        1 <= r <= 4,
{
    proof {
        char_is_scalar(c);
    }
    let cp = c as u32;
    if cp <= 0x7F {
        1
    } else if cp <= 0x7FF {
        2
    } else if cp <= 0xFFFF {
        3
    } else {
        4
    }
}

/// The encoding of a concatenation is the concatenation of the encodings.
pub proof fn lemma_encode_utf8_concat(a: Seq<char>, b: Seq<char>)
    ensures
        encode_utf8(a + b) =~= encode_utf8(a) + encode_utf8(b),
    decreases a.len(),
{
    if a.len() == 0 {
        assert(a + b =~= b);
        assert(encode_utf8(a) =~= Seq::<u8>::empty());
    } else {
        assert((a + b).drop_first() =~= a.drop_first() + b);
        assert((a + b)[0] == a[0]);
        lemma_encode_utf8_concat(a.drop_first(), b);
    }
}

/// Extending a prefix by one character adds that character's width.
pub proof fn lemma_byte_len_step(s: Seq<char>, i: int)
    requires
        0 <= i < s.len(),
    ensures
        byte_len(s.take(i + 1)) == byte_len(s.take(i)) + char_bytes(s[i]),
{
    assert(s.take(i + 1) =~= s.take(i) + seq![s[i]]);
    lemma_encode_utf8_concat(s.take(i), seq![s[i]]);
    assert(encode_utf8(seq![s[i]]).len() == char_bytes(s[i])) by {
        let one = seq![s[i]];
        assert(one[0] == s[i]);
        assert(one.drop_first() =~= Seq::<char>::empty());
        assert(encode_utf8(Seq::<char>::empty()) =~= Seq::<u8>::empty());
        assert(encode_utf8(one) =~= encode_scalar(s[i] as u32) + Seq::<u8>::empty());
    }
}

/// A prefix never encodes to more bytes than the whole sequence.
pub proof fn lemma_byte_len_prefix_le(s: Seq<char>, i: int)
    requires
        0 <= i <= s.len(),
    ensures
        byte_len(s.take(i)) <= byte_len(s),
{
    assert(s =~= s.take(i) + s.skip(i));
    lemma_encode_utf8_concat(s.take(i), s.skip(i));
}

/// Byte offsets add up over a split: the offset of `j` is the offset of
/// `i` plus the encoded length of the characters between them.
pub proof fn lemma_byte_offset_split(s: Seq<char>, i: int, j: int)
    requires
        0 <= i <= j <= s.len(),
    ensures
        byte_offset(s, j) == byte_offset(s, i) + byte_len(s.subrange(i, j)),
{
    assert(s.take(j) =~= s.take(i) + s.subrange(i, j));
    lemma_encode_utf8_concat(s.take(i), s.subrange(i, j));
}

/// A subrange never encodes to more bytes than the whole sequence.
pub proof fn lemma_byte_len_subrange_le(x: Seq<char>, a: int, b: int)
    requires
        0 <= a <= b <= x.len(),
    ensures
        byte_len(x.subrange(a, b)) <= byte_len(x),
{
    assert(x =~= x.take(a) + x.subrange(a, b) + x.skip(b));
    lemma_encode_utf8_concat(x.take(a) + x.subrange(a, b), x.skip(b));
    lemma_encode_utf8_concat(x.take(a), x.subrange(a, b));
}

/// Advance a byte offset across `chars[from..to]`.
pub fn byte_pos_advance(
    chars: &Vec<char>,
    from: usize,
    to: usize,
    bpos: usize,
    Ghost(total): Ghost<nat>,
) -> (r: usize)
    requires
        from <= to <= chars@.len(),
        bpos as nat == byte_len(chars@.take(from as int)),
        byte_len(chars@) == total,
        total <= usize::MAX,
    ensures
        r as nat == byte_len(chars@.take(to as int)),
{
    let mut i = from;
    let mut b = bpos;
    while i < to
        invariant
            from <= i <= to <= chars@.len(),
            b as nat == byte_len(chars@.take(i as int)),
            byte_len(chars@) == total,
            total <= usize::MAX,
        decreases to - i,
    {
        proof {
            lemma_byte_len_step(chars@, i as int);
            lemma_byte_len_prefix_le(chars@, i + 1);
        }
        b = b + char_width(chars[i]);
        i = i + 1;
    }
    b
}

/// Byte offset of character position `idx`, computed from the start.
pub fn byte_at(chars: &Vec<char>, idx: usize, Ghost(total): Ghost<nat>) -> (r: usize)
    requires
        idx <= chars@.len(),
        byte_len(chars@) == total,
        total <= usize::MAX,
    ensures
        r as nat == byte_offset(chars@, idx as int),
{
    proof {
        assert(chars@.take(0) =~= Seq::<char>::empty());
        assert(encode_utf8(Seq::<char>::empty()) =~= Seq::<u8>::empty());
    }
    byte_pos_advance(chars, 0, idx, 0, Ghost(total))
}

} // verus!
