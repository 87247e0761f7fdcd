//! Bridging between `String`/`&str` and sequences of characters.
//!
//! All scanning in this library is done over a `Vec<char>` so that positions
//! are plain indices; this module decodes a `&str` into its characters,
//! rebuilds a `String` from characters, trims whitespace, and renders
//! decimal numbers for display.

use vstd::prelude::*;

verus! {

use vstd::std_specs::iter::IteratorSpec;
use crate::chars::{is_space_char, is_space};

broadcast use vstd::string::next_postcondition, vstd::string::axiom_spec_iter;

/// Collect the characters of a string slice into a vector.
pub fn str_chars(s: &str) -> (r: Vec<char>)
    ensures
        r@ == s@,
{
    let mut it = s.chars();
    let mut v: Vec<char> = Vec::new();
    loop
        invariant
            it.obeys_prophetic_iter_laws(),
            it.decrease() is Some,
            v@ + it.remaining() == s@,
        ensures
            v@ == s@,
        decreases it.decrease()->0,
    {
        match it.next() {
            Some(c) => {
                v.push(c);
            },
            None => {
                proof {
                    assert(v@ + it.remaining() == s@);
                    assert(it.remaining().len() == 0);
                    assert(v@ =~= s@);
                }
                break ;
            },
        }
    }
    v
}

/// Relies on `String: FromIterator<char>`: collecting an iterator of
/// characters yields the string made of exactly those characters in order.
#[verifier::external_body]
pub fn chars_string(v: &Vec<char>) -> (r: String)
    ensures
        r@ == v@,
{
    v.iter().collect()
}

/// Position of the first character at or after `i` that is not whitespace
/// (`s.len()` if all of the rest is whitespace).
pub open spec fn first_non_space(s: Seq<char>, i: int) -> int
    decreases s.len() - i,
{
    if i < 0 || i >= s.len() {
        i
    } else if is_space_char(s[i]) {
        first_non_space(s, i + 1)
    } else {
        i
    }
}

/// End of the last non-whitespace character strictly before position `j`
/// (`0` if everything before `j` is whitespace).
pub open spec fn last_non_space_end(s: Seq<char>, j: int) -> int
    decreases j,
{
    if j <= 0 || j > s.len() {
        j
    } else if is_space_char(s[j - 1]) {
        last_non_space_end(s, j - 1)
    } else {
        j
    }
}

/// The subsequence of `s` with leading and trailing whitespace removed.
pub open spec fn trim_spec(s: Seq<char>) -> Seq<char> {
    let lo = first_non_space(s, 0);
    let hi = last_non_space_end(s, s.len() as int);
    if lo <= hi {
        s.subrange(lo, hi)
    } else {
        Seq::empty()
    }
}

/// Copy `v[start..end]` with leading and trailing whitespace removed.
pub fn trim_range(v: &Vec<char>, start: usize, end: usize) -> (r: Vec<char>)
    requires
        start <= end <= v@.len(),
    ensures
        r@ == trim_spec(v@.subrange(start as int, end as int)),
{
    let ghost s = v@.subrange(start as int, end as int);
    let mut lo = start;
    while lo < end && is_space(v[lo])
        invariant
            start <= lo <= end <= v@.len(),
            s == v@.subrange(start as int, end as int),
            first_non_space(s, 0) == first_non_space(s, lo - start),
        decreases end - lo,
    {
        lo = lo + 1;
    }
    let mut hi = end;
    while hi > lo && is_space(v[hi - 1])
        invariant
            start <= lo <= hi <= end <= v@.len(),
            s == v@.subrange(start as int, end as int),
            first_non_space(s, 0) == lo - start,
            last_non_space_end(s, s.len() as int) == last_non_space_end(s, hi - start),
        decreases hi,
    {
        hi = hi - 1;
    }
    let mut r: Vec<char> = Vec::new();
    let mut i = lo;
    while i < hi
        invariant
            lo <= i <= hi <= v@.len(),
            r@ == v@.subrange(lo as int, i as int),
        decreases hi - i,
    {
        r.push(v[i]);
        proof {
            assert(r@ =~= v@.subrange(lo as int, i + 1));
        }
        i = i + 1;
    }
    proof {
        lemma_last_non_space_end_bounds(s, s.len() as int);
        let lo0 = first_non_space(s, 0);
        let hi0 = last_non_space_end(s, s.len() as int);
        if lo < hi {
            assert(!is_space_char(s[hi - start - 1]));
            assert(hi0 == hi - start);
            assert(r@ =~= trim_spec(s));
        } else {
            assert(hi0 == last_non_space_end(s, hi - start));
            lemma_last_non_space_end_bounds(s, hi - start);
            assert(r@ =~= Seq::<char>::empty());
            if lo0 <= hi0 {
                assert(s.subrange(lo0, hi0) =~= Seq::<char>::empty());
            }
        }
    }
    r
}

/// The first non-whitespace position stays within the scanned range.
proof fn lemma_first_non_space_bounds(s: Seq<char>, i: int)
    requires
        0 <= i <= s.len(),
    ensures
        i <= first_non_space(s, i) <= s.len(),
    decreases s.len() - i,
{
    if i < s.len() && is_space_char(s[i]) {
        lemma_first_non_space_bounds(s, i + 1);
    }
}

/// Trimming never lengthens the UTF-8 encoding: the trimmed text is a
/// subrange of the original.
pub proof fn lemma_trim_spec_bytes(s: Seq<char>)
    ensures
        crate::chars::byte_len(trim_spec(s)) <= crate::chars::byte_len(s),
{
    lemma_first_non_space_bounds(s, 0);
    lemma_last_non_space_end_bounds(s, s.len() as int);
    let lo = first_non_space(s, 0);
    let hi = last_non_space_end(s, s.len() as int);
    if lo <= hi {
        crate::chars::lemma_byte_len_subrange_le(s, lo, hi);
    } else {
        assert(crate::chars::byte_len(Seq::<char>::empty()) == 0) by {
            assert(vstd::utf8::encode_utf8(Seq::<char>::empty()) =~= Seq::<u8>::empty());
        }
    }
}

/// The last non-whitespace end stays within the scanned range.
proof fn lemma_last_non_space_end_bounds(s: Seq<char>, j: int)
    requires
        0 <= j <= s.len(),
    ensures
        0 <= last_non_space_end(s, j) <= j,
    decreases j,
{
    if j > 0 && is_space_char(s[j - 1]) {
        lemma_last_non_space_end_bounds(s, j - 1);
    }
}

/// The decimal digit character for a value below ten.
pub open spec fn digit_char(d: int) -> char {
    if d == 0 {
        '0'
    } else if d == 1 {
        '1'
    } else if d == 2 {
        '2'
    } else if d == 3 {
        '3'
    } else if d == 4 {
        '4'
    } else if d == 5 {
        '5'
    } else if d == 6 {
        '6'
    } else if d == 7 {
        '7'
    } else if d == 8 {
        '8'
    } else {
        '9'
    }
}

/// The usual decimal rendering of a natural number, most significant digit
/// first and without leading zeros (except for zero itself).
pub open spec fn dec_rep(n: int) -> Seq<char>
    decreases n,
{
    if n < 10 {
        seq![digit_char(n)]
    } else {
        dec_rep(n / 10) + seq![digit_char(n % 10)]
    }
}

fn digit_of(d: usize) -> (c: char)
    requires
        d < 10,
    ensures
        c == digit_char(d as int),
{
    if d == 0 {
        '0'
    } else if d == 1 {
        '1'
    } else if d == 2 {
        '2'
    } else if d == 3 {
        '3'
    } else if d == 4 {
        '4'
    } else if d == 5 {
        '5'
    } else if d == 6 {
        '6'
    } else if d == 7 {
        '7'
    } else if d == 8 {
        '8'
    } else {
        '9'
    }
}

/// Render a number in decimal as a character vector.
pub fn dec_chars(n: usize) -> (r: Vec<char>)
    ensures
        r@ == dec_rep(n as int),
    decreases n,
{
    if n < 10 {
        let mut r: Vec<char> = Vec::new();
        r.push(digit_of(n));
        proof {
            assert(r@ =~= dec_rep(n as int));
        }
        r
    } else {
        let mut r = dec_chars(n / 10);
        r.push(digit_of(n % 10));
        proof {
            assert(r@ =~= dec_rep(n as int));
        }
        r
    }
}

/// Copy `v[from..to]` into a fresh vector.
pub fn sub_chars(v: &Vec<char>, from: usize, to: usize) -> (r: Vec<char>)
    requires
        from <= to <= v@.len(),
    ensures
        r@ == v@.subrange(from as int, to as int),
{
    let mut r: Vec<char> = Vec::new();
    let mut i = from;
    while i < to
        invariant
            from <= i <= to <= v@.len(),
            r@ == v@.subrange(from as int, i as int),
        decreases to - i,
    {
        r.push(v[i]);
        proof {
            assert(r@ =~= v@.subrange(from as int, i + 1));
        }
        i = i + 1;
    }
    r
}

} // verus!
