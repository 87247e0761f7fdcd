//! Longest-match word segmentation with grammar-token fallback.
//!
//! [`WordSegmenter`] wraps a [`Trie`] used as a set of known words. Its
//! [`WordSegmenter::segment`] splits text left to right: the longest word
//! match at a position becomes one token, and a run with no word coverage is
//! bundled into a single "grammar" token that ends as soon as a word match
//! (or whitespace, or the end of input) appears. The furigana-aware variant
//! [`WordSegmenter::segment_from_segments`] treats each reading hint as one
//! atomic token and lets the phoneme dictionary act as a fallback word list.

use vstd::prelude::*;

verus! {

use crate::chars::{is_space, is_space_char};
use crate::furigana::{TextSegment, SegModel};
use crate::strutil::{str_chars, chars_string, sub_chars};
use crate::trie::{Trie, best_len, lemma_best_len_props, lemma_best_len_empty};

/// The dictionary map of an optional fallback trie: empty when absent.
pub open spec fn fallback_model(fb: Option<&Trie>) -> Map<Seq<char>, Seq<char>> {
    match fb {
        Some(t) => t.model(),
        None => Map::empty(),
    }
}

/// Match length used at a position: the word dictionary first, then the
/// fallback dictionary only if the word dictionary has no match at all.
pub open spec fn step_len(
    mw: Map<Seq<char>, Seq<char>>,
    mp: Map<Seq<char>, Seq<char>>,
    s: Seq<char>,
    pos: int,
) -> int {
    if best_len(mw, s, pos) > 0 {
        best_len(mw, s, pos)
    } else {
        best_len(mp, s, pos)
    }
}

/// First position at or after `p` where a grammar run must stop: the end of
/// input, whitespace, or a position where the word dictionary matches.
pub open spec fn grammar_end(mw: Map<Seq<char>, Seq<char>>, s: Seq<char>, p: int) -> int
    decreases s.len() - p,
{
    if p < 0 || p >= s.len() {
        s.len() as int
    } else if is_space_char(s[p]) {
        p
    } else if best_len(mw, s, p) > 0 {
        p
    } else {
        grammar_end(mw, s, p + 1)
    }
}

/// The token list produced by scanning `s[pos..]`: whitespace is skipped, a
/// dictionary match (word dictionary first, fallback second) becomes one
/// token, and an unmatched run up to the next stop becomes one grammar
/// token. Grammar runs consult the word dictionary only. The range tests
/// on the match length and the grammar stop only make the recursion
/// visibly terminating; both always lie within the input.
pub open spec fn seg_tokens(
    mw: Map<Seq<char>, Seq<char>>,
    mp: Map<Seq<char>, Seq<char>>,
    s: Seq<char>,
    pos: int,
) -> Seq<Seq<char>>
    decreases s.len() - pos,
{
    if pos < 0 || pos >= s.len() {
        Seq::empty()
    } else if is_space_char(s[pos]) {
        seg_tokens(mw, mp, s, pos + 1)
    } else {
        let l = step_len(mw, mp, s, pos);
        if 1 <= l <= s.len() - pos {
            seq![s.subrange(pos, pos + l)] + seg_tokens(mw, mp, s, pos + l)
        } else {
            let e0 = grammar_end(mw, s, pos + 1);
            let e = if pos + 1 <= e0 <= s.len() {
                e0
            } else {
                pos + 1
            };
            seq![s.subrange(pos, e)] + seg_tokens(mw, mp, s, e)
        }
    }
}

/// The character range `(start, end)` within `s` of each token of
/// [`seg_tokens`], in the same order.
pub open spec fn seg_token_ranges(
    mw: Map<Seq<char>, Seq<char>>,
    mp: Map<Seq<char>, Seq<char>>,
    s: Seq<char>,
    pos: int,
) -> Seq<(int, int)>
    decreases s.len() - pos,
{
    if pos < 0 || pos >= s.len() {
        Seq::empty()
    } else if is_space_char(s[pos]) {
        seg_token_ranges(mw, mp, s, pos + 1)
    } else {
        let l = step_len(mw, mp, s, pos);
        if 1 <= l <= s.len() - pos {
            seq![(pos, pos + l)] + seg_token_ranges(mw, mp, s, pos + l)
        } else {
            let e0 = grammar_end(mw, s, pos + 1);
            let e = if pos + 1 <= e0 <= s.len() {
                e0
            } else {
                pos + 1
            };
            seq![(pos, e)] + seg_token_ranges(mw, mp, s, e)
        }
    }
}

/// Each token is the substring of the input at its recorded range.
pub proof fn lemma_seg_token_ranges(
    mw: Map<Seq<char>, Seq<char>>,
    mp: Map<Seq<char>, Seq<char>>,
    s: Seq<char>,
    pos: int,
)
    requires
        0 <= pos <= s.len(),
    ensures
        seg_token_ranges(mw, mp, s, pos).len() == seg_tokens(mw, mp, s, pos).len(),
        forall|k: int|
            0 <= k < seg_token_ranges(mw, mp, s, pos).len() ==> {
                &&& pos <= (#[trigger] seg_token_ranges(mw, mp, s, pos)[k]).0
                &&& seg_token_ranges(mw, mp, s, pos)[k].0 < seg_token_ranges(mw, mp, s, pos)[k].1
                &&& seg_token_ranges(mw, mp, s, pos)[k].1 <= s.len()
                &&& seg_tokens(mw, mp, s, pos)[k] == s.subrange(
                    seg_token_ranges(mw, mp, s, pos)[k].0,
                    seg_token_ranges(mw, mp, s, pos)[k].1,
                )
            },
    decreases s.len() - pos,
{
    if pos < s.len() {
        if is_space_char(s[pos]) {
            lemma_seg_token_ranges(mw, mp, s, pos + 1);
        } else {
            let l = step_len(mw, mp, s, pos);
            if 1 <= l <= s.len() - pos {
                lemma_seg_token_ranges(mw, mp, s, pos + l);
                assert forall|k: int|
                    0 <= k < seg_token_ranges(mw, mp, s, pos).len() implies {
                    &&& pos <= (#[trigger] seg_token_ranges(mw, mp, s, pos)[k]).0
                    &&& seg_token_ranges(mw, mp, s, pos)[k].0 < seg_token_ranges(mw, mp, s, pos)[k].1
                    &&& seg_token_ranges(mw, mp, s, pos)[k].1 <= s.len()
                    &&& seg_tokens(mw, mp, s, pos)[k] == s.subrange(
                        seg_token_ranges(mw, mp, s, pos)[k].0,
                        seg_token_ranges(mw, mp, s, pos)[k].1,
                    )
                } by {
                    if k > 0 {
                        assert(seg_token_ranges(mw, mp, s, pos)[k] == seg_token_ranges(
                            mw,
                            mp,
                            s,
                            pos + l,
                        )[k - 1]);
                        assert(seg_tokens(mw, mp, s, pos)[k] == seg_tokens(mw, mp, s, pos + l)[k
                            - 1]);
                    }
                }
            } else {
                let e0 = grammar_end(mw, s, pos + 1);
                lemma_grammar_end_range(mw, s, pos + 1);
                let e = if pos + 1 <= e0 <= s.len() {
                    e0
                } else {
                    pos + 1
                };
                lemma_seg_token_ranges(mw, mp, s, e);
                assert forall|k: int|
                    0 <= k < seg_token_ranges(mw, mp, s, pos).len() implies {
                    &&& pos <= (#[trigger] seg_token_ranges(mw, mp, s, pos)[k]).0
                    &&& seg_token_ranges(mw, mp, s, pos)[k].0 < seg_token_ranges(mw, mp, s, pos)[k].1
                    &&& seg_token_ranges(mw, mp, s, pos)[k].1 <= s.len()
                    &&& seg_tokens(mw, mp, s, pos)[k] == s.subrange(
                        seg_token_ranges(mw, mp, s, pos)[k].0,
                        seg_token_ranges(mw, mp, s, pos)[k].1,
                    )
                } by {
                    if k > 0 {
                        assert(seg_token_ranges(mw, mp, s, pos)[k] == seg_token_ranges(
                            mw,
                            mp,
                            s,
                            e,
                        )[k - 1]);
                        assert(seg_tokens(mw, mp, s, pos)[k] == seg_tokens(mw, mp, s, e)[k - 1]);
                    }
                }
            }
        }
    }
}

/// The token list over a sequence of furigana segments: each reading hint
/// is one atomic token, and each normal segment is scanned as in
/// [`seg_tokens`] with the fallback dictionary enabled.
pub open spec fn segs_tokens(
    mw: Map<Seq<char>, Seq<char>>,
    mp: Map<Seq<char>, Seq<char>>,
    segs: Seq<SegModel>,
) -> Seq<Seq<char>>
    decreases segs.len(),
{
    if segs.len() == 0 {
        Seq::empty()
    } else {
        let head = match segs[0] {
            SegModel::Furigana { reading, .. } => seq![reading],
            SegModel::Normal { text, .. } => seg_tokens(mw, mp, text, 0),
        };
        head + segs_tokens(mw, mp, segs.drop_first())
    }
}

/// The stop position of a grammar run stays within the input.
pub proof fn lemma_grammar_end_range(mw: Map<Seq<char>, Seq<char>>, s: Seq<char>, p: int)
    requires
        0 <= p <= s.len(),
    ensures
        p <= grammar_end(mw, s, p) <= s.len(),
    decreases s.len() - p,
{
    if p < s.len() && !is_space_char(s[p]) && !(best_len(mw, s, p) > 0) {
        lemma_grammar_end_range(mw, s, p + 1);
    }
}

/// Word segmenter: a dictionary of known words driving longest-match
/// segmentation.
pub struct WordSegmenter {
    trie: Trie,
}

impl WordSegmenter {
    /// The word dictionary as a map; only key membership matters.
    pub closed spec fn model(self) -> Map<Seq<char>, Seq<char>> {
        self.trie.model()
    }

    /// Invariant of the underlying trie.
    pub closed spec fn wf(self) -> bool {
        self.trie.wf()
    }

    /// Create a segmenter with an empty word dictionary.
    pub fn new() -> (sg: WordSegmenter)
        ensures
            sg.wf(),
            sg.model() == Map::<Seq<char>, Seq<char>>::empty(),
    {
        WordSegmenter { trie: Trie::new() }
    }

    /// The underlying trie, for compound detection during furigana parsing.
    pub fn get_root(&self) -> (r: &Trie)
        ensures
            r.wf() == self.wf(),
            r.model() == self.model(),
    {
        &self.trie
    }

    /// Insert a word into the dictionary (an empty string marks the end of
    /// the word; only presence matters).
    pub fn insert_word(&mut self, word: &str)
        requires
            old(self).wf(),
        ensures
            final(self).wf(),
            final(self).model() == old(self).model().insert(word@, Seq::empty()),
    {
        let key = str_chars(word);
        proof {
            reveal_strlit("");
            assert(""@ =~= Seq::<char>::empty());
        }
        self.trie.insert(&key, "");
    }

    /// Whether a nonempty word is a complete dictionary entry.
    pub fn contains_word(&self, word: &str) -> (r: bool)
        requires
            self.wf(),
        ensures
            r == (word@.len() > 0 && self.model().contains_key(word@)),
    {
        let chars = str_chars(word);
        if chars.len() == 0 {
            return false;
        }
        self.trie.contains_exact(&chars)
    }

    /// Segment text into word and grammar tokens using the word dictionary
    /// alone.
    pub fn segment(&self, text: &str) -> (r: Vec<String>)
        requires
            self.wf(),
        ensures
            r@.map_values(|w: String| w@) == seg_tokens(
                self.model(),
                Map::<Seq<char>, Seq<char>>::empty(),
                text@,
                0,
            ),
    {
        let chars = str_chars(text);
        self.segment_chars(&chars, None)
    }

    /// Segment furigana-parsed segments: each hint is one token, normal text
    /// is segmented with the phoneme dictionary as fallback word list.
    pub fn segment_from_segments(
        &self,
        segments: &Vec<TextSegment>,
        phoneme_root: Option<&Trie>,
    ) -> (r: Vec<String>)
        requires
            self.wf(),
            phoneme_root matches Some(t) ==> t.wf(),
        ensures
            r@.map_values(|w: String| w@) == segs_tokens(
                self.model(),
                fallback_model(phoneme_root),
                segments@.map_values(|sg: TextSegment| sg@),
            ),
    {
        let ghost mw = self.model();
        let ghost mp = fallback_model(phoneme_root);
        let ghost smodels = segments@.map_values(|sg: TextSegment| sg@);
        let mut words: Vec<String> = Vec::new();
        let mut si: usize = 0;
        proof {
            assert(smodels.skip(0) =~= smodels);
        }
        while si < segments.len()
            invariant
                self.wf(),
                phoneme_root matches Some(t) ==> t.wf(),
                mw == self.model(),
                mp == fallback_model(phoneme_root),
                smodels == segments@.map_values(|sg: TextSegment| sg@),
                si <= segments@.len(),
                words@.map_values(|w: String| w@) + segs_tokens(mw, mp, smodels.skip(si as int))
                    == segs_tokens(mw, mp, smodels),
            decreases segments@.len() - si,
        {
            let ghost words0 = words@;
            proof {
                assert(smodels.skip(si as int)[0] == smodels[si as int]);
                assert(smodels.skip(si as int).drop_first() =~= smodels.skip(si as int + 1));
            }
            match &segments[si] {
                TextSegment::Furigana { reading, .. } => {
                    words.push(reading.clone());
                    proof {
                        assert(segs_tokens(mw, mp, smodels.skip(si as int)) == seq![reading@]
                            + segs_tokens(mw, mp, smodels.skip(si as int + 1)));
                        assert(words0.push(*reading).map_values(|w: String| w@)
                            =~= words0.map_values(|w: String| w@).push(reading@));
                        assert(words0.map_values(|w: String| w@).push(reading@) + segs_tokens(
                            mw,
                            mp,
                            smodels.skip(si as int + 1),
                        ) =~= words0.map_values(|w: String| w@) + (seq![reading@] + segs_tokens(
                            mw,
                            mp,
                            smodels.skip(si as int + 1),
                        )));
                    }
                },
                TextSegment::Normal { text, .. } => {
                    let tc = str_chars(text.as_str());
                    let mut ws = self.segment_chars(&tc, phoneme_root);
                    let ghost ws0 = ws@;
                    words.append(&mut ws);
                    proof {
                        assert(segs_tokens(mw, mp, smodels.skip(si as int)) == seg_tokens(
                            mw,
                            mp,
                            text@,
                            0,
                        ) + segs_tokens(mw, mp, smodels.skip(si as int + 1)));
                        assert((words0 + ws0).map_values(|w: String| w@) =~= words0.map_values(
                            |w: String| w@,
                        ) + ws0.map_values(|w: String| w@));
                        assert(words0.map_values(|w: String| w@) + ws0.map_values(|w: String| w@)
                            + segs_tokens(mw, mp, smodels.skip(si as int + 1))
                            =~= words0.map_values(|w: String| w@) + (ws0.map_values(
                            |w: String| w@,
                        ) + segs_tokens(mw, mp, smodels.skip(si as int + 1))));
                    }
                },
            }
            si = si + 1;
        }
        proof {
            assert(smodels.skip(smodels.len() as int) =~= Seq::<SegModel>::empty());
            assert(words@.map_values(|w: String| w@) + Seq::<Seq<char>>::empty() =~= words@
                .map_values(|w: String| w@));
        }
        words
    }

    /// Scan one stretch of characters into tokens, with an optional
    /// fallback dictionary for the initial match attempt.
    fn segment_chars(&self, chars: &Vec<char>, fallback: Option<&Trie>) -> (r: Vec<String>)
        requires
            self.wf(),
            fallback matches Some(t) ==> t.wf(),
        ensures
            r@.map_values(|w: String| w@) == seg_tokens(
                self.model(),
                fallback_model(fallback),
                chars@,
                0,
            ),
    {
        let pts = self.segment_chars_positions(chars, fallback);
        let ghost toks = pts@.map_values(|p: (String, usize)| p.0@);
        let mut words: Vec<String> = Vec::new();
        let mut i: usize = 0;
        while i < pts.len()
            invariant
                i <= pts@.len(),
                toks == pts@.map_values(|p: (String, usize)| p.0@),
                words@.map_values(|w: String| w@) == toks.take(i as int),
            decreases pts@.len() - i,
        {
            let wstr = pts[i].0.clone();
            let ghost words0 = words@;
            let ghost wsg = wstr;
            words.push(wstr);
            proof {
                assert(wsg@ == toks[i as int]);
                assert(words0.push(wsg).map_values(|w: String| w@) =~= words0.map_values(
                    |w: String| w@,
                ).push(wsg@));
                assert(toks.take(i + 1) =~= toks.take(i as int).push(toks[i as int]));
            }
            i = i + 1;
        }
        proof {
            assert(toks.take(pts@.len() as int) =~= toks);
        }
        words
    }

    /// Scan one stretch of characters into tokens, also reporting each
    /// token's starting character position within the stretch.
    pub(crate) fn segment_chars_positions(&self, chars: &Vec<char>, fallback: Option<&Trie>) -> (r:
        Vec<(String, usize)>)
        requires
            self.wf(),
            fallback matches Some(t) ==> t.wf(),
        ensures
            r@.map_values(|p: (String, usize)| p.0@) == seg_tokens(
                self.model(),
                fallback_model(fallback),
                chars@,
                0,
            ),
            r@.map_values(|p: (String, usize)| p.1 as int) == seg_token_ranges(
                self.model(),
                fallback_model(fallback),
                chars@,
                0,
            ).map_values(|rg: (int, int)| rg.0),
    {
        let ghost mw = self.model();
        let ghost mp = fallback_model(fallback);
        let ghost s = chars@;
        let mut words: Vec<(String, usize)> = Vec::new();
        let mut pos: usize = 0;
        while pos < chars.len()
            invariant
                self.wf(),
                fallback matches Some(t) ==> t.wf(),
                mw == self.model(),
                mp == fallback_model(fallback),
                s == chars@,
                pos <= s.len(),
                words@.map_values(|p: (String, usize)| p.0@) + seg_tokens(mw, mp, s, pos as int)
                    == seg_tokens(mw, mp, s, 0),
                words@.map_values(|p: (String, usize)| p.1 as int) + seg_token_ranges(
                    mw,
                    mp,
                    s,
                    pos as int,
                ).map_values(|rg: (int, int)| rg.0) == seg_token_ranges(mw, mp, s, 0).map_values(
                    |rg: (int, int)| rg.0,
                ),
            decreases s.len() - pos,
        {
            if is_space(chars[pos]) {
                proof {
                    assert(seg_tokens(mw, mp, s, pos as int) == seg_tokens(mw, mp, s, pos + 1));
                    assert(seg_token_ranges(mw, mp, s, pos as int) == seg_token_ranges(
                        mw,
                        mp,
                        s,
                        pos + 1,
                    ));
                }
                pos = pos + 1;
                continue ;
            }
            proof {
                lemma_best_len_props(mw, s, pos as int);
                lemma_best_len_props(mp, s, pos as int);
            }
            let mut l: usize = 0;
            match self.trie.longest_match(chars, pos) {
                Some((lw, _)) => {
                    l = lw;
                },
                None => {
                    match fallback {
                        Some(t) => {
                            match t.longest_match(chars, pos) {
                                Some((lp, _)) => {
                                    l = lp;
                                },
                                None => {},
                            }
                        },
                        None => {
                            proof {
                                lemma_best_len_empty(s, pos as int, s.len() - pos);
                            }
                        },
                    }
                },
            }
            proof {
                assert(l as int == step_len(mw, mp, s, pos as int));
            }
            let ghost words0 = words@;
            if l > 0 {
                let w = sub_chars(chars, pos, pos + l);
                let wp = (chars_string(&w), pos);
                let ghost wpg = wp;
                words.push(wp);
                proof {
                    let ps = pos as int;
                    assert(seg_tokens(mw, mp, s, ps) == seq![s.subrange(ps, ps + l)] + seg_tokens(
                        mw,
                        mp,
                        s,
                        ps + l,
                    ));
                    assert(seg_token_ranges(mw, mp, s, ps) == seq![(ps, ps + l)]
                        + seg_token_ranges(mw, mp, s, ps + l));
                    assert(seg_token_ranges(mw, mp, s, ps).map_values(|rg: (int, int)| rg.0)
                        =~= seq![ps] + seg_token_ranges(mw, mp, s, ps + l).map_values(
                        |rg: (int, int)| rg.0,
                    ));
                    lemma_postoken_push(
                        words0,
                        wpg,
                        seg_tokens(mw, mp, s, ps + l),
                        seg_token_ranges(mw, mp, s, ps + l).map_values(|rg: (int, int)| rg.0),
                    );
                }
                pos = pos + l;
            } else {
                let gstart = pos;
                let mut gp = pos + 1;
                while gp < chars.len() && !is_space(chars[gp]) && self.trie.longest_match(
                    chars,
                    gp,
                ).is_none()
                    invariant
                        self.wf(),
                        mw == self.model(),
                        s == chars@,
                        gstart < gp <= s.len(),
                        grammar_end(mw, s, gstart + 1) == grammar_end(mw, s, gp as int),
                    decreases s.len() - gp,
                {
                    proof {
                        lemma_best_len_props(mw, s, gp as int);
                        assert(grammar_end(mw, s, gp as int) == grammar_end(mw, s, gp + 1));
                    }
                    gp = gp + 1;
                }
                proof {
                    if gp < s.len() {
                        lemma_best_len_props(mw, s, gp as int);
                    }
                    assert(grammar_end(mw, s, gp as int) == gp);
                    lemma_grammar_end_range(mw, s, gstart + 1);
                }
                let w = sub_chars(chars, gstart, gp);
                let wp = (chars_string(&w), gstart);
                let ghost wpg = wp;
                words.push(wp);
                proof {
                    let ps = gstart as int;
                    assert(seg_tokens(mw, mp, s, ps) == seq![s.subrange(ps, gp as int)]
                        + seg_tokens(mw, mp, s, gp as int));
                    assert(seg_token_ranges(mw, mp, s, ps) == seq![(ps, gp as int)]
                        + seg_token_ranges(mw, mp, s, gp as int));
                    assert(seg_token_ranges(mw, mp, s, ps).map_values(|rg: (int, int)| rg.0)
                        =~= seq![ps] + seg_token_ranges(mw, mp, s, gp as int).map_values(
                        |rg: (int, int)| rg.0,
                    ));
                    lemma_postoken_push(
                        words0,
                        wpg,
                        seg_tokens(mw, mp, s, gp as int),
                        seg_token_ranges(mw, mp, s, gp as int).map_values(|rg: (int, int)| rg.0),
                    );
                }
                pos = gp;
            }
        }
        proof {
            assert(words@.map_values(|p: (String, usize)| p.0@) + seg_tokens(
                mw,
                mp,
                s,
                s.len() as int,
            ) =~= words@.map_values(|p: (String, usize)| p.0@));
            assert(seg_token_ranges(mw, mp, s, s.len() as int).map_values(|rg: (int, int)| rg.0)
                =~= Seq::<int>::empty());
            assert(words@.map_values(|p: (String, usize)| p.1 as int) + Seq::<int>::empty()
                =~= words@.map_values(|p: (String, usize)| p.1 as int));
        }
        words
    }
}

/// Pushing one positioned token commutes with flattening both projections.
proof fn lemma_postoken_push(
    words0: Seq<(String, usize)>,
    wp: (String, usize),
    toks_rest: Seq<Seq<char>>,
    starts_rest: Seq<int>,
)
    ensures
        words0.push(wp).map_values(|p: (String, usize)| p.0@) + toks_rest =~= words0.map_values(
            |p: (String, usize)| p.0@,
        ) + (seq![wp.0@] + toks_rest),
        words0.push(wp).map_values(|p: (String, usize)| p.1 as int) + starts_rest
            =~= words0.map_values(|p: (String, usize)| p.1 as int) + (seq![wp.1 as int]
            + starts_rest),
{
    assert(words0.push(wp).map_values(|p: (String, usize)| p.0@) =~= words0.map_values(
        |p: (String, usize)| p.0@,
    ).push(wp.0@));
    assert(words0.push(wp).map_values(|p: (String, usize)| p.1 as int) =~= words0.map_values(
        |p: (String, usize)| p.1 as int,
    ).push(wp.1 as int));
}

} // verus!
