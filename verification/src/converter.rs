//! Greedy longest-match conversion of Japanese text to phonemes.
//!
//! [`PhonemeConverter`] wraps a [`Trie`] whose values are phoneme strings.
//! [`PhonemeConverter::convert`] scans the input left to right, replacing the
//! longest dictionary match at each position by its phoneme and passing
//! unknown characters through unchanged, so conversion is total.
//! [`PhonemeConverter::convert_detailed`] additionally reports each match
//! with its byte offset in the original input and collects the characters
//! that had no dictionary coverage.

use vstd::prelude::*;

verus! {

use crate::chars::{byte_len, byte_offset, byte_pos_advance, char_width};
use crate::strutil::{str_chars, chars_string, dec_rep, dec_chars, sub_chars};
use crate::trie::{Trie, best_len, lemma_best_len_props};

broadcast use vstd::slice::axiom_spec_len;

/// Ghost image of a [`Match`]: the matched key, its phoneme, and the byte
/// offset of the match in the input.
pub struct MatchModel {
    pub original: Seq<char>,
    pub phoneme: Seq<char>,
    pub start_index: int,
}

/// Individual match from Japanese text to phoneme.
pub struct Match {
    pub original: String,
    pub phoneme: String,
    pub start_index: usize,
}

impl View for Match {
    type V = MatchModel;

    open spec fn view(&self) -> MatchModel {
        MatchModel {
            original: self.original@,
            phoneme: self.phoneme@,
            start_index: self.start_index as int,
        }
    }
}

/// Rendering used by [`Match::to_string`]: the matched text and phoneme in
/// quotes, followed by the byte position.
pub open spec fn match_display(mm: MatchModel) -> Seq<char> {
    seq!['"'] + mm.original + seq!['"', ' ', '\u{2192}', ' ', '"'] + mm.phoneme + seq![
        '"',
        ' ',
        '(',
        'p',
        'o',
        's',
        ':',
        ' ',
    ] + dec_rep(mm.start_index) + seq![')']
}

impl Match {
    /// Human-readable form of one match.
    pub fn to_string(&self) -> (r: String)
        ensures
            r@ == match_display(self@),
    {
        let mut out: Vec<char> = Vec::new();
        out.push('"');
        let mut oc = str_chars(self.original.as_str());
        out.append(&mut oc);
        out.push('"');
        out.push(' ');
        out.push('\u{2192}');
        out.push(' ');
        out.push('"');
        let mut pc = str_chars(self.phoneme.as_str());
        out.append(&mut pc);
        out.push('"');
        out.push(' ');
        out.push('(');
        out.push('p');
        out.push('o');
        out.push('s');
        out.push(':');
        out.push(' ');
        let mut dc = dec_chars(self.start_index);
        out.append(&mut dc);
        out.push(')');
        proof {
            assert(out@ =~= match_display(self@));
        }
        chars_string(&out)
    }
}

/// Detailed conversion result with match information.
pub struct ConversionResult {
    pub phonemes: String,
    pub matches: Vec<Match>,
    pub unmatched: Vec<char>,
}

/// The phoneme string produced by greedy longest-match conversion of
/// `s[pos..]`: at each position the longest dictionary key is replaced by
/// its value, and a position with no match contributes its own character.
/// The upper bound in the branch test only makes the recursion visibly
/// terminating; a best match never reaches past the end of the input.
pub open spec fn convert_seq(m: Map<Seq<char>, Seq<char>>, s: Seq<char>, pos: int) -> Seq<char>
    decreases s.len() - pos,
{
    if pos < 0 || pos >= s.len() {
        Seq::empty()
    } else {
        let l = best_len(m, s, pos);
        if 1 <= l <= s.len() - pos {
            m[s.subrange(pos, pos + l)] + convert_seq(m, s, pos + l)
        } else {
            seq![s[pos]] + convert_seq(m, s, pos + 1)
        }
    }
}

/// The matches recorded while converting `s[pos..]`, in scan order, with
/// byte offsets into the original input.
pub open spec fn matches_seq(m: Map<Seq<char>, Seq<char>>, s: Seq<char>, pos: int) -> Seq<
    MatchModel,
>
    decreases s.len() - pos,
{
    if pos < 0 || pos >= s.len() {
        Seq::empty()
    } else {
        let l = best_len(m, s, pos);
        if 1 <= l <= s.len() - pos {
            seq![
                MatchModel {
                    original: s.subrange(pos, pos + l),
                    phoneme: m[s.subrange(pos, pos + l)],
                    start_index: byte_offset(s, pos) as int,
                },
            ] + matches_seq(m, s, pos + l)
        } else {
            matches_seq(m, s, pos + 1)
        }
    }
}

/// The characters of `s[pos..]` that no dictionary key covers, in scan
/// order (one entry per occurrence).
pub open spec fn unmatched_seq(m: Map<Seq<char>, Seq<char>>, s: Seq<char>, pos: int) -> Seq<char>
    decreases s.len() - pos,
{
    if pos < 0 || pos >= s.len() {
        Seq::empty()
    } else {
        let l = best_len(m, s, pos);
        if 1 <= l <= s.len() - pos {
            unmatched_seq(m, s, pos + l)
        } else {
            seq![s[pos]] + unmatched_seq(m, s, pos + 1)
        }
    }
}

/// The pieces the scan consumes from `s[pos..]`, in order: the matched
/// substring where the dictionary hits, the single character where it does
/// not.
pub open spec fn scan_cover(m: Map<Seq<char>, Seq<char>>, s: Seq<char>, pos: int) -> Seq<char>
    decreases s.len() - pos,
{
    if pos < 0 || pos >= s.len() {
        Seq::empty()
    } else {
        let l = best_len(m, s, pos);
        if 1 <= l <= s.len() - pos {
            s.subrange(pos, pos + l) + scan_cover(m, s, pos + l)
        } else {
            seq![s[pos]] + scan_cover(m, s, pos + 1)
        }
    }
}

/// Totality of conversion: the scan consumes every input character exactly
/// once — the matched substrings and the passed-through characters, taken
/// in scan order, reassemble the input, so no character is dropped or
/// duplicated.
pub proof fn lemma_scan_covers_input(m: Map<Seq<char>, Seq<char>>, s: Seq<char>, pos: int)
    requires
        0 <= pos <= s.len(),
    ensures
        scan_cover(m, s, pos) == s.skip(pos),
    decreases s.len() - pos,
{
    if pos < s.len() {
        let l = best_len(m, s, pos);
        if 1 <= l <= s.len() - pos {
            lemma_scan_covers_input(m, s, pos + l);
            assert(s.subrange(pos, pos + l) + s.skip(pos + l) =~= s.skip(pos));
        } else {
            lemma_scan_covers_input(m, s, pos + 1);
            assert(seq![s[pos]] + s.skip(pos + 1) =~= s.skip(pos));
        }
    } else {
        assert(scan_cover(m, s, pos) =~= s.skip(pos));
    }
}

/// Longest-match correctness: when the whole input is itself a dictionary
/// key, conversion returns that key's value — a longer stored key always
/// beats any shorter key that is a prefix of it.
pub proof fn lemma_convert_whole_key(m: Map<Seq<char>, Seq<char>>, k: Seq<char>)
    requires
        k.len() > 0,
        m.contains_key(k),
    ensures
        convert_seq(m, k, 0) == m[k],
{
    assert(k.subrange(0, k.len() as int) =~= k);
    crate::trie::lemma_best_len_at_least(m, k, 0, k.len() as int);
    lemma_best_len_props(m, k, 0);
    assert(best_len(m, k, 0) == k.len());
    assert(convert_seq(m, k, k.len() as int) =~= Seq::<char>::empty());
    assert(m[k] + Seq::<char>::empty() =~= m[k]);
}

/// Byte-offset correctness: every reported match is the input substring at
/// some character position, and its offset is the UTF-8 byte offset of
/// that very position in the input — never the code-point index.
pub proof fn lemma_match_offsets(m: Map<Seq<char>, Seq<char>>, s: Seq<char>, pos: int)
    requires
        0 <= pos <= s.len(),
    ensures
        forall|j: int|
            0 <= j < matches_seq(m, s, pos).len() ==> exists|p: int|
                {
                    &&& pos <= p < s.len()
                    &&& p + (#[trigger] matches_seq(m, s, pos)[j]).original.len() <= s.len()
                    &&& matches_seq(m, s, pos)[j].original == s.subrange(
                        p,
                        p + matches_seq(m, s, pos)[j].original.len(),
                    )
                    &&& matches_seq(m, s, pos)[j].start_index == byte_offset(s, p)
                },
    decreases s.len() - pos,
{
    if pos < s.len() {
        let l = best_len(m, s, pos);
        if 1 <= l <= s.len() - pos {
            lemma_match_offsets(m, s, pos + l);
            assert forall|j: int| 0 <= j < matches_seq(m, s, pos).len() implies exists|p: int|
                {
                    &&& pos <= p < s.len()
                    &&& p + (#[trigger] matches_seq(m, s, pos)[j]).original.len() <= s.len()
                    &&& matches_seq(m, s, pos)[j].original == s.subrange(
                        p,
                        p + matches_seq(m, s, pos)[j].original.len(),
                    )
                    &&& matches_seq(m, s, pos)[j].start_index == byte_offset(s, p)
                } by {
                if j == 0 {
                    assert(matches_seq(m, s, pos)[0].original == s.subrange(pos, pos + l));
                    assert(matches_seq(m, s, pos)[0].start_index == byte_offset(s, pos));
                } else {
                    assert(matches_seq(m, s, pos)[j] == matches_seq(m, s, pos + l)[j - 1]);
                }
            }
        } else {
            lemma_match_offsets(m, s, pos + 1);
            assert(matches_seq(m, s, pos) == matches_seq(m, s, pos + 1));
        }
    } else {
        assert(matches_seq(m, s, pos) =~= Seq::<MatchModel>::empty());
    }
}

/// Every reported match offset lies within the input's byte length.
pub proof fn lemma_matches_seq_bounds(m: Map<Seq<char>, Seq<char>>, s: Seq<char>, pos: int)
    requires
        0 <= pos <= s.len(),
    ensures
        forall|j: int|
            0 <= j < matches_seq(m, s, pos).len() ==> 0 <= (#[trigger] matches_seq(m, s, pos)[j])
                .start_index <= byte_len(s),
    decreases s.len() - pos,
{
    if pos < s.len() {
        lemma_best_len_props(m, s, pos);
        let l = best_len(m, s, pos);
        if 1 <= l <= s.len() - pos {
            lemma_matches_seq_bounds(m, s, pos + l);
            crate::chars::lemma_byte_len_prefix_le(s, pos);
            assert forall|j: int| 0 <= j < matches_seq(m, s, pos).len() implies 0 <= (
            #[trigger] matches_seq(m, s, pos)[j]).start_index <= byte_len(s) by {
                if j > 0 {
                    assert(matches_seq(m, s, pos)[j] == matches_seq(m, s, pos + l)[j - 1]);
                }
            }
        } else {
            lemma_matches_seq_bounds(m, s, pos + 1);
            assert(matches_seq(m, s, pos) == matches_seq(m, s, pos + 1));
        }
    } else {
        assert(matches_seq(m, s, pos) =~= Seq::<MatchModel>::empty());
    }
}

/// Phoneme dictionary with greedy longest-match conversion.
pub struct PhonemeConverter {
    trie: Trie,
}

impl PhonemeConverter {
    /// The dictionary as a map from Japanese key to phoneme string.
    pub closed spec fn model(self) -> Map<Seq<char>, Seq<char>> {
        self.trie.model()
    }

    /// Invariant of the underlying trie.
    pub closed spec fn wf(self) -> bool {
        self.trie.wf()
    }

    /// Create a converter with an empty dictionary.
    pub fn new() -> (c: PhonemeConverter)
        ensures
            c.wf(),
            c.model() == Map::<Seq<char>, Seq<char>>::empty(),
    {
        PhonemeConverter { trie: Trie::new() }
    }

    /// The underlying trie, for fallback walks during word segmentation.
    pub fn get_root(&self) -> (r: &Trie)
        ensures
            r.wf() == self.wf(),
            r.model() == self.model(),
    {
        &self.trie
    }

    /// Insert one Japanese text to phoneme mapping, overwriting any earlier
    /// value for the same text.
    pub fn insert(&mut self, text: &str, phoneme: &str)
        requires
            old(self).wf(),
        ensures
            final(self).wf(),
            final(self).model() == old(self).model().insert(text@, phoneme@),
    {
        let key = str_chars(text);
        self.trie.insert(&key, phoneme);
    }

    /// Greedy longest-match conversion; total over all inputs.
    pub fn convert(&self, japanese_text: &str) -> (r: String)
        requires
            self.wf(),
        ensures
            r@ == convert_seq(self.model(), japanese_text@, 0),
    {
        let ghost m = self.model();
        let chars = str_chars(japanese_text);
        let ghost s = chars@;
        let mut out: Vec<char> = Vec::new();
        let mut pos: usize = 0;
        while pos < chars.len()
            invariant
                self.wf(),
                m == self.model(),
                s == chars@,
                pos <= s.len(),
                out@ + convert_seq(m, s, pos as int) == convert_seq(m, s, 0),
            decreases s.len() - pos,
        {
            proof {
                lemma_best_len_props(m, s, pos as int);
            }
            match self.trie.longest_match(&chars, pos) {
                Some((l, v)) => {
                    let ghost out0 = out@;
                    let mut vc = str_chars(v.as_str());
                    out.append(&mut vc);
                    proof {
                        assert(convert_seq(m, s, pos as int) == m[s.subrange(
                            pos as int,
                            pos as int + l,
                        )] + convert_seq(m, s, pos as int + l));
                        assert(out0 + (v@ + convert_seq(m, s, pos as int + l)) =~= (out0 + v@)
                            + convert_seq(m, s, pos as int + l));
                    }
                    pos = pos + l;
                },
                None => {
                    let ghost out0 = out@;
                    out.push(chars[pos]);
                    proof {
                        assert(convert_seq(m, s, pos as int) == seq![s[pos as int]] + convert_seq(
                            m,
                            s,
                            pos as int + 1,
                        ));
                        assert(out0 + (seq![s[pos as int]] + convert_seq(m, s, pos as int + 1))
                            =~= out0.push(s[pos as int]) + convert_seq(m, s, pos as int + 1));
                    }
                    pos = pos + 1;
                },
            }
        }
        proof {
            assert(out@ + convert_seq(m, s, s.len() as int) =~= out@);
        }
        chars_string(&out)
    }

    /// As [`PhonemeConverter::convert`], also reporting each match with its
    /// byte offset in the input and every uncovered character.
    pub fn convert_detailed(&self, japanese_text: &str) -> (r: ConversionResult)
        requires
            self.wf(),
        ensures
            r.phonemes@ == convert_seq(self.model(), japanese_text@, 0),
            r.matches@.map_values(|mt: Match| mt@) == matches_seq(self.model(), japanese_text@, 0),
            r.unmatched@ == unmatched_seq(self.model(), japanese_text@, 0),
    {
        let ghost m = self.model();
        let total_bytes = japanese_text.as_bytes().len();
        let chars = str_chars(japanese_text);
        let ghost s = chars@;
        proof {
            assert(byte_len(s) == total_bytes as nat);
        }
        let mut out: Vec<char> = Vec::new();
        let mut matches: Vec<Match> = Vec::new();
        let mut unmatched: Vec<char> = Vec::new();
        let mut pos: usize = 0;
        let mut bpos: usize = 0;
        proof {
            assert(s.take(0) =~= Seq::<char>::empty());
            assert(byte_len(s.take(0)) == 0) by {
                assert(vstd::utf8::encode_utf8(Seq::<char>::empty()) =~= Seq::<u8>::empty());
            }
        }
        while pos < chars.len()
            invariant
                self.wf(),
                m == self.model(),
                s == chars@,
                pos <= s.len(),
                byte_len(s) == total_bytes as nat,
                bpos as nat == byte_len(s.take(pos as int)),
                out@ + convert_seq(m, s, pos as int) == convert_seq(m, s, 0),
                matches@.map_values(|mt: Match| mt@) + matches_seq(m, s, pos as int) == matches_seq(
                    m,
                    s,
                    0,
                ),
                unmatched@ + unmatched_seq(m, s, pos as int) == unmatched_seq(m, s, 0),
            decreases s.len() - pos,
        {
            proof {
                lemma_best_len_props(m, s, pos as int);
            }
            match self.trie.longest_match(&chars, pos) {
                Some((l, v)) => {
                    let ghost out0 = out@;
                    let ghost matches0 = matches@;
                    let original = sub_chars(&chars, pos, pos + l);
                    let mt = Match {
                        original: chars_string(&original),
                        phoneme: v,
                        start_index: bpos,
                    };
                    let ghost mtm = mt@;
                    matches.push(mt);
                    let mut vc = str_chars(matches[matches.len() - 1].phoneme.as_str());
                    out.append(&mut vc);
                    let nbpos = byte_pos_advance(&chars, pos, pos + l, bpos, Ghost(total_bytes as nat));
                    proof {
                        let ps = pos as int;
                        assert(convert_seq(m, s, ps) == m[s.subrange(ps, ps + l)] + convert_seq(
                            m,
                            s,
                            ps + l,
                        ));
                        assert(matches_seq(m, s, ps) == seq![
                            MatchModel {
                                original: s.subrange(ps, ps + l),
                                phoneme: m[s.subrange(ps, ps + l)],
                                start_index: byte_offset(s, ps) as int,
                            },
                        ] + matches_seq(m, s, ps + l));
                        assert(unmatched_seq(m, s, ps) == unmatched_seq(m, s, ps + l));
                        assert(mtm == MatchModel {
                            original: s.subrange(ps, ps + l),
                            phoneme: m[s.subrange(ps, ps + l)],
                            start_index: byte_offset(s, ps) as int,
                        });
                        assert(matches0.push(mt).map_values(|mt2: Match| mt2@) =~= matches0.map_values(
                            |mt2: Match| mt2@,
                        ).push(mtm));
                        assert(matches0.map_values(|mt2: Match| mt2@).push(mtm) + matches_seq(
                            m,
                            s,
                            ps + l,
                        ) =~= matches0.map_values(|mt2: Match| mt2@) + (seq![mtm] + matches_seq(
                            m,
                            s,
                            ps + l,
                        )));
                        assert(out0 + (m[s.subrange(ps, ps + l)] + convert_seq(m, s, ps + l)) =~= (
                        out0 + m[s.subrange(ps, ps + l)]) + convert_seq(m, s, ps + l));
                    }
                    bpos = nbpos;
                    pos = pos + l;
                },
                None => {
                    let ghost out0 = out@;
                    let ghost unmatched0 = unmatched@;
                    out.push(chars[pos]);
                    unmatched.push(chars[pos]);
                    let c = chars[pos];
                    let w = char_width(c);
                    proof {
                        let ps = pos as int;
                        assert(convert_seq(m, s, ps) == seq![s[ps]] + convert_seq(m, s, ps + 1));
                        assert(unmatched_seq(m, s, ps) == seq![s[ps]] + unmatched_seq(m, s, ps + 1));
                        assert(matches_seq(m, s, ps) == matches_seq(m, s, ps + 1));
                        assert(out0 + (seq![s[ps]] + convert_seq(m, s, ps + 1)) =~= out0.push(s[ps])
                            + convert_seq(m, s, ps + 1));
                        assert(unmatched0 + (seq![s[ps]] + unmatched_seq(m, s, ps + 1))
                            =~= unmatched0.push(s[ps]) + unmatched_seq(m, s, ps + 1));
                        crate::chars::lemma_byte_len_step(s, ps);
                        crate::chars::lemma_byte_len_prefix_le(s, ps + 1);
                    }
                    bpos = bpos + w;
                    pos = pos + 1;
                },
            }
        }
        proof {
            assert(out@ + convert_seq(m, s, s.len() as int) =~= out@);
            assert(matches@.map_values(|mt: Match| mt@) + matches_seq(m, s, s.len() as int)
                =~= matches@.map_values(|mt: Match| mt@));
            assert(unmatched@ + unmatched_seq(m, s, s.len() as int) =~= unmatched@);
        }
        ConversionResult { phonemes: chars_string(&out), matches, unmatched }
    }
}

} // verus!
