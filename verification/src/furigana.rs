//! Furigana reading hints and the segment parser.
//!
//! Input text may carry bracketed reading hints such as `X「yomi」`, where
//! the bracket content gives the pronunciation of the kanji run `X` directly
//! before it. [`parse_furigana_segments`] splits raw input into an ordered
//! list of [`TextSegment`]s: plain stretches of text, and hint segments that
//! pair a kanji run with its reading. When a word dictionary is available
//! and the kanji joined with the text after the hint forms a dictionary
//! word, the hint collapses into plain text (the reading plus that suffix)
//! instead.

use vstd::prelude::*;

verus! {

use crate::chars::{
    byte_at,
    byte_offset,
    byte_len,
    is_kana,
    is_kana_char,
    is_kanji,
    is_kanji_char,
    is_boundary,
    is_boundary_char,
};
use crate::strutil::{str_chars, chars_string, sub_chars, trim_range, trim_spec, lemma_trim_spec_bytes};
use crate::trie::compound_best;
use crate::chars::{lemma_byte_offset_split, lemma_byte_len_prefix_le, lemma_encode_utf8_concat};
use crate::segmenter::WordSegmenter;

broadcast use vstd::slice::axiom_spec_len;

/// Ghost image of a [`TextSegment`].
pub enum SegModel {
    Normal { text: Seq<char>, position: int },
    Furigana { kanji: Seq<char>, reading: Seq<char>, position: int },
}

/// One unit of furigana-parsed text: either plain text or a reading hint
/// attached to the kanji run it annotates. `position` is the byte offset of
/// the segment's start in the original input.
pub enum TextSegment {
    Normal { text: String, position: usize },
    Furigana { kanji: String, reading: String, position: usize },
}

impl View for TextSegment {
    type V = SegModel;

    open spec fn view(&self) -> SegModel {
        match self {
            TextSegment::Normal { text, position } => SegModel::Normal {
                text: text@,
                position: *position as int,
            },
            TextSegment::Furigana { kanji, reading, position } => SegModel::Furigana {
                kanji: kanji@,
                reading: reading@,
                position: *position as int,
            },
        }
    }
}

/// The text a segment contributes to segmentation: the reading for a hint,
/// the literal text otherwise.
pub open spec fn effective_text(seg: SegModel) -> Seq<char> {
    match seg {
        SegModel::Normal { text, .. } => text,
        SegModel::Furigana { reading, .. } => reading,
    }
}

impl TextSegment {
    /// Constructor for normal text.
    pub fn new_normal(text: String, pos: usize) -> (s: TextSegment)
        ensures
            s == (TextSegment::Normal { text, position: pos }),
    {
        TextSegment::Normal { text, position: pos }
    }

    /// Constructor for a furigana hint.
    pub fn new_furigana(text: String, reading: String, pos: usize) -> (s: TextSegment)
        ensures
            s == (TextSegment::Furigana { kanji: text, reading, position: pos }),
    {
        TextSegment::Furigana { kanji: text, reading, position: pos }
    }

    /// The effective text (reading for furigana, text otherwise).
    pub fn get_effective_text(&self) -> (r: &str)
        ensures
            r@ == effective_text(self@),
    {
        match self {
            TextSegment::Normal { text, .. } => text.as_str(),
            TextSegment::Furigana { reading, .. } => reading.as_str(),
        }
    }
}

// ---------------------------------------------------------------------------
// Specification of the furigana scan
// ---------------------------------------------------------------------------
/// Position of the first occurrence of `c` at or after `i`.
pub open spec fn find_from(s: Seq<char>, i: int, c: char) -> Option<int>
    decreases s.len() - i,
{
    if i < 0 || i >= s.len() {
        None
    } else if s[i] == c {
        Some(i)
    } else {
        find_from(s, i + 1, c)
    }
}

/// Start of the kana run ending just before position `i` (bounded below by
/// `lo`).
pub open spec fn kana_run_start(s: Seq<char>, lo: int, i: int) -> int
    decreases i - lo,
{
    if i > lo && is_kana_char(s[i - 1]) {
        kana_run_start(s, lo, i - 1)
    } else {
        i
    }
}

/// Position of the last kanji before the opening bracket at `bo`: skip the
/// kana run directly before the bracket, then step onto the character
/// before it if any room remains.
pub open spec fn last_kanji_of(s: Seq<char>, lo: int, bo: int) -> int {
    let k = kana_run_start(s, lo, bo);
    if k > lo {
        k - 1
    } else {
        k
    }
}

/// Some kanji occurs in `s[lo..hi]`.
pub open spec fn has_kanji_in(s: Seq<char>, lo: int, hi: int) -> bool {
    exists|x: int| lo <= x < hi && is_kanji_char(#[trigger] s[x])
}

/// Backward word-boundary scan from `search` down to `lo`: stop after a
/// punctuation boundary, or after a kana character with no kanji anywhere
/// before it (a separate preceding word); otherwise absorb the character
/// and continue.
pub open spec fn boundary_scan(s: Seq<char>, lo: int, search: int, wstart: int) -> int
    decreases search - lo,
{
    if search <= lo {
        wstart
    } else {
        let sp = search - 1;
        if is_boundary_char(s[sp]) {
            sp + 1
        } else if is_kana_char(s[sp]) && !has_kanji_in(s, lo, sp) {
            sp + 1
        } else {
            boundary_scan(s, lo, sp, sp)
        }
    }
}

/// Start of the kanji-plus-hint unit that the bracket at `bo` annotates.
pub open spec fn word_start_of(s: Seq<char>, lo: int, bo: int) -> int {
    let lk = last_kanji_of(s, lo, bo);
    boundary_scan(s, lo, lk, lk)
}

/// The word dictionary of an optional segmenter.
pub open spec fn fur_model(sg: Option<&WordSegmenter>) -> Option<Map<Seq<char>, Seq<char>>> {
    match sg {
        Some(x) => Some(x.model()),
        None => None,
    }
}

/// The segments produced by scanning `s[pos..]` for bracketed reading
/// hints. Text before a hint's word start is emitted as normal text; a hint
/// whose reading trims to empty disappears; a hint whose whole kanji run
/// can be walked through the word dictionary and, extended by the text
/// after the hint, reaches a dictionary word collapses into normal text
/// (reading plus matched suffix); any other hint is kept as a furigana
/// segment. Without brackets the rest of the input is one normal segment.
/// The range tests on `next` and on the compound length only make the
/// recursion visibly terminating: a found bracket always lies ahead of the
/// scan position, so the scan strictly advances.
pub open spec fn fur_segs(mw: Option<Map<Seq<char>, Seq<char>>>, s: Seq<char>, pos: int) -> Seq<
    SegModel,
>
    decreases s.len() - pos,
{
    if pos < 0 || pos >= s.len() {
        Seq::empty()
    } else {
        match find_from(s, pos, '\u{300C}') {
            None => seq![
                SegModel::Normal {
                    text: s.subrange(pos, s.len() as int),
                    position: byte_offset(s, pos) as int,
                },
            ],
            Some(bo) => match find_from(s, bo + 1, '\u{300D}') {
                None => seq![
                    SegModel::Normal {
                        text: s.subrange(pos, s.len() as int),
                        position: byte_offset(s, pos) as int,
                    },
                ],
                Some(bc) => {
                    let ws_ = word_start_of(s, pos, bo);
                    let pre: Seq<SegModel> = if ws_ > pos {
                        seq![
                            SegModel::Normal {
                                text: s.subrange(pos, ws_),
                                position: byte_offset(s, pos) as int,
                            },
                        ]
                    } else {
                        Seq::empty()
                    };
                    let kanji = s.subrange(ws_, bo);
                    let reading = trim_spec(s.subrange(bo + 1, bc));
                    let next0 = bc + 1;
                    let next = if pos < next0 <= s.len() {
                        next0
                    } else {
                        pos + 1
                    };
                    if reading.len() == 0 {
                        pre + fur_segs(mw, s, next)
                    } else {
                        let cm = match mw {
                            Some(mm) => if next0 < s.len() {
                                compound_best(mm, kanji, s, next0)
                            } else {
                                0
                            },
                            None => 0,
                        };
                        if 1 <= cm <= s.len() - next0 && pos < next0 {
                            pre + seq![
                                SegModel::Normal {
                                    text: reading + s.subrange(next0, next0 + cm),
                                    position: byte_offset(s, ws_) as int,
                                },
                            ] + fur_segs(mw, s, next0 + cm)
                        } else {
                            pre + seq![
                                SegModel::Furigana {
                                    kanji: kanji,
                                    reading: reading,
                                    position: byte_offset(s, ws_) as int,
                                },
                            ] + fur_segs(mw, s, next)
                        }
                    }
                },
            },
        }
    }
}

/// A segment's recorded position is a byte offset inside an input of
/// `total` bytes, with room for the segment's effective text: a normal
/// segment's text, or a hint's reading, never reaches past the input's
/// end when laid down at the segment's position.
pub open spec fn seg_within(g: SegModel, total: nat) -> bool {
    match g {
        SegModel::Normal { text, position } => 0 <= position && position + byte_len(text) <= total,
        SegModel::Furigana { reading, position, .. } => 0 <= position && position + byte_len(
            reading,
        ) <= total,
    }
}

/// The kana-run start stays within `[lo, i]`.
proof fn lemma_kana_run_start_range(s: Seq<char>, lo: int, i: int)
    requires
        lo <= i,
    ensures
        lo <= kana_run_start(s, lo, i) <= i,
    decreases i - lo,
{
    if i > lo && is_kana_char(s[i - 1]) {
        lemma_kana_run_start_range(s, lo, i - 1);
    }
}

/// The boundary scan stays within `[lo, wstart]`.
proof fn lemma_boundary_scan_range(s: Seq<char>, lo: int, search: int, wstart: int)
    requires
        lo <= search,
        search <= wstart,
    ensures
        lo <= boundary_scan(s, lo, search, wstart) <= wstart,
    decreases search - lo,
{
    if search > lo {
        let sp = search - 1;
        if !is_boundary_char(s[sp]) && !(is_kana_char(s[sp]) && !has_kanji_in(s, lo, sp)) {
            lemma_boundary_scan_range(s, lo, sp, sp);
        }
    }
}

/// Every parsed segment's position, plus its plain text, fits within the
/// input's byte length.
pub proof fn lemma_fur_segs_positions(mw: Option<Map<Seq<char>, Seq<char>>>, s: Seq<char>, pos: int)
    requires
        0 <= pos <= s.len(),
    ensures
        forall|g: int|
            0 <= g < fur_segs(mw, s, pos).len() ==> seg_within(
                #[trigger] fur_segs(mw, s, pos)[g],
                byte_len(s),
            ),
    decreases s.len() - pos,
{
    if pos < s.len() {
        lemma_byte_offset_split(s, pos, s.len() as int);
        assert(s.take(s.len() as int) =~= s);
        match find_from(s, pos, '\u{300C}') {
            None => {
            },
            Some(bo) => {
                proof_find(s, pos, bo);
                match find_from(s, bo + 1, '\u{300D}') {
                    None => {
                    },
                    Some(bc) => {
                        proof_find_close(s, bo, bc);
                        let lk = last_kanji_of(s, pos, bo);
                        lemma_kana_run_start_range(s, pos, bo);
                        lemma_boundary_scan_range(s, pos, lk, lk);
                        let ws_ = word_start_of(s, pos, bo);
                        assert(pos <= ws_ <= bo);
                        let pre: Seq<SegModel> = if ws_ > pos {
                            seq![
                                SegModel::Normal {
                                    text: s.subrange(pos, ws_),
                                    position: byte_offset(s, pos) as int,
                                },
                            ]
                        } else {
                            Seq::empty()
                        };
                        if ws_ > pos {
                            lemma_byte_offset_split(s, pos, ws_);
                            lemma_byte_len_prefix_le(s, ws_);
                        }
                        lemma_byte_len_prefix_le(s, ws_);
                        let reading = trim_spec(s.subrange(bo + 1, bc));
                        let next0 = bc + 1;
                        if reading.len() == 0 {
                            lemma_fur_segs_positions(mw, s, next0);
                            assert forall|g: int|
                                0 <= g < fur_segs(mw, s, pos).len() implies seg_within(
                                #[trigger] fur_segs(mw, s, pos)[g],
                                byte_len(s),
                            ) by {
                                if g >= pre.len() {
                                    assert(fur_segs(mw, s, pos)[g] == fur_segs(mw, s, next0)[g
                                        - pre.len()]);
                                }
                            }
                        } else {
                            let cm = match mw {
                                Some(mm) => if next0 < s.len() {
                                    compound_best(mm, s.subrange(ws_, bo), s, next0)
                                } else {
                                    0
                                },
                                None => 0,
                            };
                            if 1 <= cm <= s.len() - next0 && pos < next0 {
                                // Compound text: the reading came from inside
                                // the brackets and the suffix follows them,
                                // both within the hint's span.
                                let suffix = s.subrange(next0, next0 + cm);
                                lemma_trim_spec_bytes(s.subrange(bo + 1, bc));
                                lemma_encode_utf8_concat(reading, suffix);
                                lemma_byte_offset_split(s, ws_, next0);
                                assert(s.subrange(ws_, next0) =~= s.subrange(ws_, bo + 1)
                                    + s.subrange(bo + 1, bc) + s.subrange(bc, next0));
                                lemma_encode_utf8_concat(
                                    s.subrange(ws_, bo + 1) + s.subrange(bo + 1, bc),
                                    s.subrange(bc, next0),
                                );
                                lemma_encode_utf8_concat(
                                    s.subrange(ws_, bo + 1),
                                    s.subrange(bo + 1, bc),
                                );
                                lemma_byte_offset_split(s, next0, next0 + cm);
                                lemma_byte_len_prefix_le(s, next0 + cm);
                                lemma_fur_segs_positions(mw, s, next0 + cm);
                                assert forall|g: int|
                                    0 <= g < fur_segs(mw, s, pos).len() implies seg_within(
                                    #[trigger] fur_segs(mw, s, pos)[g],
                                    byte_len(s),
                                ) by {
                                    if g >= pre.len() + 1 {
                                        assert(fur_segs(mw, s, pos)[g] == fur_segs(
                                            mw,
                                            s,
                                            next0 + cm,
                                        )[g - pre.len() - 1]);
                                    }
                                }
                            } else {
                                // The reading fits inside the hint's span.
                                lemma_trim_spec_bytes(s.subrange(bo + 1, bc));
                                assert(s.subrange(ws_, bc) =~= s.subrange(ws_, bo + 1)
                                    + s.subrange(bo + 1, bc));
                                lemma_encode_utf8_concat(
                                    s.subrange(ws_, bo + 1),
                                    s.subrange(bo + 1, bc),
                                );
                                lemma_byte_offset_split(s, ws_, bc);
                                lemma_byte_len_prefix_le(s, bc);
                                lemma_fur_segs_positions(mw, s, next0);
                                assert forall|g: int|
                                    0 <= g < fur_segs(mw, s, pos).len() implies seg_within(
                                    #[trigger] fur_segs(mw, s, pos)[g],
                                    byte_len(s),
                                ) by {
                                    if g >= pre.len() + 1 {
                                        assert(fur_segs(mw, s, pos)[g] == fur_segs(mw, s, next0)[g
                                            - pre.len() - 1]);
                                    }
                                }
                            }
                        }
                    },
                }
            },
        }
    }
}

/// Range facts for a found opening bracket.
proof fn proof_find(s: Seq<char>, pos: int, bo: int)
    requires
        0 <= pos <= s.len(),
        find_from(s, pos, '\u{300C}') == Some(bo),
    ensures
        pos <= bo < s.len(),
{
    lemma_find_from_props(s, pos, '\u{300C}');
}

/// Range facts for a found closing bracket.
proof fn proof_find_close(s: Seq<char>, bo: int, bc: int)
    requires
        0 <= bo,
        (bo + 1) <= s.len(),
        find_from(s, bo + 1, '\u{300D}') == Some(bc),
    ensures
        bo + 1 <= bc < s.len(),
{
    lemma_find_from_props(s, bo + 1, '\u{300D}');
}

/// A found character is in range and matches.
proof fn lemma_find_from_props(s: Seq<char>, i: int, c: char)
    requires
        0 <= i,
    ensures
        match find_from(s, i, c) {
            Some(j) => i <= j < s.len() && s[j] == c,
            None => true,
        },
    decreases s.len() - i,
{
    if 0 <= i < s.len() && s[i] != c {
        lemma_find_from_props(s, i + 1, c);
    }
}

// ---------------------------------------------------------------------------
// Executable scan
// ---------------------------------------------------------------------------
/// Find the first occurrence of `c` at or after `from`.
fn find_char(chars: &Vec<char>, from: usize, c: char) -> (r: Option<usize>)
    requires
        from <= chars@.len(),
    ensures
        (r is Some) == (find_from(chars@, from as int, c) is Some),
        r matches Some(i) ==> {
            &&& find_from(chars@, from as int, c) == Some(i as int)
            &&& from <= i < chars@.len()
            &&& chars@[i as int] == c
        },
{
    let ghost s = chars@;
    let mut i = from;
    while i < chars.len()
        invariant
            from <= i <= s.len(),
            s == chars@,
            find_from(s, from as int, c) == find_from(s, i as int, c),
        decreases s.len() - i,
    {
        if chars[i] == c {
            return Some(i);
        }
        i = i + 1;
    }
    None
}

/// Whether any kanji occurs in `chars[lo..hi]`.
fn has_kanji_range(chars: &Vec<char>, lo: usize, hi: usize) -> (r: bool)
    requires
        lo <= hi <= chars@.len(),
    ensures
        r == has_kanji_in(chars@, lo as int, hi as int),
{
    let ghost s = chars@;
    let mut x = lo;
    while x < hi
        invariant
            lo <= x <= hi <= s.len(),
            s == chars@,
            !has_kanji_in(s, lo as int, x as int),
        decreases hi - x,
    {
        if is_kanji(chars[x]) {
            proof {
                assert(has_kanji_in(s, lo as int, hi as int));
            }
            return true;
        }
        proof {
            assert forall|y: int| lo <= y < x + 1 implies !is_kanji_char(#[trigger] s[y]) by {
                if y < x {
                    assert(!has_kanji_in(s, lo as int, x as int));
                    assert(is_kanji_char(s[y]) ==> has_kanji_in(s, lo as int, x as int));
                }
            }
        }
        x = x + 1;
    }
    false
}

/// Parse text into segments, extracting furigana hints; `segmenter`, when
/// given, enables compound-word detection across a hint.
pub fn parse_furigana_segments(text: &str, segmenter: Option<&WordSegmenter>) -> (r: Vec<
    TextSegment,
>)
    requires
        segmenter matches Some(sg) ==> sg.wf(),
    ensures
        r@.map_values(|sg: TextSegment| sg@) == fur_segs(fur_model(segmenter), text@, 0),
{
    let ghost mw = fur_model(segmenter);
    let total_bytes = text.as_bytes().len();
    let chars = str_chars(text);
    let ghost s = chars@;
    proof {
        assert(byte_len(s) == total_bytes as nat);
    }
    let mut segments: Vec<TextSegment> = Vec::new();
    let mut pos: usize = 0;
    while pos < chars.len()
        invariant
            segmenter matches Some(sg) ==> sg.wf(),
            mw == fur_model(segmenter),
            s == chars@,
            pos <= s.len(),
            byte_len(s) == total_bytes as nat,
            segments@.map_values(|sg: TextSegment| sg@) + fur_segs(mw, s, pos as int) == fur_segs(
                mw,
                s,
                0,
            ),
        decreases s.len() - pos,
    {
        let ghost segs0 = segments@;
        let ghost ps = pos as int;
        let bracket_open = find_char(&chars, pos, '\u{300C}');
        let mut tail_done = false;
        match bracket_open {
            None => {
                tail_done = true;
            },
            Some(bo) => {
                match find_char(&chars, bo + 1, '\u{300D}') {
                    None => {
                        tail_done = true;
                    },
                    Some(bc) => {
                        proof {
                            lemma_find_from_props(s, ps, '\u{300C}');
                            lemma_find_from_props(s, bo as int + 1, '\u{300D}');
                        }
                        // Backward scan: skip the kana run before the
                        // bracket, then step onto the last kanji.
                        let mut k = bo;
                        while k > pos && is_kana(chars[k - 1])
                            invariant
                                ps == pos as int,
                                pos <= k <= bo,
                                (bo as int) < s.len(),
                                s == chars@,
                                kana_run_start(s, ps, bo as int) == kana_run_start(s, ps, k as int),
                            decreases k,
                        {
                            k = k - 1;
                        }
                        let lk = if k > pos {
                            k - 1
                        } else {
                            k
                        };
                        proof {
                            assert(kana_run_start(s, ps, bo as int) == k);
                            assert(last_kanji_of(s, ps, bo as int) == lk);
                        }
                        // Backward scan for the word boundary.
                        let mut wstart = lk;
                        let mut search = lk;
                        while search > pos
                            invariant_except_break
                                ps == pos as int,
                                pos <= search <= wstart,
                                wstart <= lk <= bo < s.len(),
                                pos <= wstart,
                                s == chars@,
                                boundary_scan(s, ps, lk as int, lk as int) == boundary_scan(
                                    s,
                                    ps,
                                    search as int,
                                    wstart as int,
                                ),
                            ensures
                                pos <= wstart <= lk,
                                wstart as int == boundary_scan(s, ps, lk as int, lk as int),
                            decreases search,
                        {
                            let sp = search - 1;
                            let ch = chars[sp];
                            if is_boundary(ch) {
                                proof {
                                    assert(boundary_scan(s, ps, search as int, wstart as int) == sp
                                        + 1);
                                }
                                wstart = sp + 1;
                                break ;
                            }
                            let hk = has_kanji_range(&chars, pos, sp);
                            if is_kana(ch) && !hk {
                                proof {
                                    assert(boundary_scan(s, ps, search as int, wstart as int) == sp
                                        + 1);
                                }
                                wstart = sp + 1;
                                break ;
                            }
                            proof {
                                assert(boundary_scan(s, ps, search as int, wstart as int)
                                    == boundary_scan(s, ps, sp as int, sp as int));
                            }
                            wstart = sp;
                            search = sp;
                        }
                        let ghost ws_ = word_start_of(s, ps, bo as int);
                        proof {
                            assert(ws_ == wstart as int);
                        }
                        // Emit the text before the annotated word, if any.
                        if wstart > pos {
                            let t = sub_chars(&chars, pos, wstart);
                            let bp = byte_at(&chars, pos, Ghost(total_bytes as nat));
                            let sg = TextSegment::new_normal(chars_string(&t), bp);
                            let ghost sgg = sg;
                            segments.push(sg);
                            proof {
                                lemma_seg_push(segs0, sgg, fur_segs(mw, s, ps).drop_first());
                                assert(fur_segs(mw, s, ps)[0] == sgg@);
                                assert(seq![sgg@] + fur_segs(mw, s, ps).drop_first() =~= fur_segs(
                                    mw,
                                    s,
                                    ps,
                                ));
                            }
                        }
                        let ghost pre: Seq<SegModel> = if ws_ > ps {
                            seq![
                                SegModel::Normal {
                                    text: s.subrange(ps, ws_),
                                    position: byte_offset(s, ps) as int,
                                },
                            ]
                        } else {
                            Seq::empty()
                        };
                        let ghost kanji_sp = s.subrange(ws_, bo as int);
                        let ghost reading_sp = trim_spec(s.subrange(bo as int + 1, bc as int));
                        let ghost next0 = bc as int + 1;
                        let ghost rest_after_pre = fur_segs(mw, s, ps).skip(pre.len() as int);
                        proof {
                            assert(fur_segs(mw, s, ps) =~= pre + rest_after_pre);
                            assert(segments@.map_values(|sg: TextSegment| sg@) + rest_after_pre
                                =~= fur_segs(mw, s, 0)) by {
                                if ws_ > ps {
                                    assert(segments@ =~= segs0.push(segments@.last()));
                                    assert(segments@.last()@ == pre[0]);
                                    lemma_seg_push(segs0, segments@.last(), rest_after_pre);
                                    assert(seq![segments@.last()@] + rest_after_pre =~= fur_segs(
                                        mw,
                                        s,
                                        ps,
                                    ));
                                } else {
                                    assert(pre + rest_after_pre =~= rest_after_pre);
                                }
                            }
                        }
                        let ghost segs1 = segments@;
                        let reading_v = trim_range(&chars, bo + 1, bc);
                        if reading_v.len() == 0 {
                            // Empty reading: drop the hint entirely.
                            proof {
                                assert(rest_after_pre =~= fur_segs(mw, s, bc as int + 1));
                            }
                            pos = bc + 1;
                        } else {
                            let mut cm: usize = 0;
                            match segmenter {
                                Some(sg) => {
                                    if bc + 1 < chars.len() {
                                        cm = sg.get_root().compound_match(
                                            &chars,
                                            wstart,
                                            bo,
                                            bc + 1,
                                        );
                                        proof {
                                            crate::trie::lemma_best_len_cat_upto_props(
                                                sg.model(),
                                                kanji_sp,
                                                s,
                                                next0,
                                                s.len() - next0,
                                            );
                                        }
                                    }
                                },
                                None => {},
                            }
                            if cm > 0 {
                                // Compound word found: the reading plus the
                                // matched suffix becomes plain text.
                                let mut ctext = reading_v;
                                let mut suf = sub_chars(&chars, bc + 1, bc + 1 + cm);
                                ctext.append(&mut suf);
                                let bp = byte_at(&chars, wstart, Ghost(total_bytes as nat));
                                let sg2 = TextSegment::new_normal(chars_string(&ctext), bp);
                                let ghost sgg = sg2;
                                segments.push(sg2);
                                proof {
                                    assert(sgg@ == (SegModel::Normal {
                                        text: reading_sp + s.subrange(next0, next0 + cm),
                                        position: byte_offset(s, ws_) as int,
                                    }));
                                    assert(rest_after_pre =~= seq![sgg@] + fur_segs(
                                        mw,
                                        s,
                                        next0 + cm,
                                    ));
                                    lemma_seg_push(segs1, sgg, fur_segs(mw, s, next0 + cm));
                                }
                                pos = bc + 1 + cm;
                            } else {
                                // No compound: keep the furigana hint.
                                let kanji_v = sub_chars(&chars, wstart, bo);
                                let bp = byte_at(&chars, wstart, Ghost(total_bytes as nat));
                                let sg2 = TextSegment::new_furigana(
                                    chars_string(&kanji_v),
                                    chars_string(&reading_v),
                                    bp,
                                );
                                let ghost sgg = sg2;
                                segments.push(sg2);
                                proof {
                                    assert(sgg@ == (SegModel::Furigana {
                                        kanji: kanji_sp,
                                        reading: reading_sp,
                                        position: byte_offset(s, ws_) as int,
                                    }));
                                    assert(rest_after_pre =~= seq![sgg@] + fur_segs(
                                        mw,
                                        s,
                                        bc as int + 1,
                                    ));
                                    lemma_seg_push(segs1, sgg, fur_segs(mw, s, bc as int + 1));
                                }
                                pos = bc + 1;
                            }
                        }
                    },
                }
            },
        }
        if tail_done {
            let t = sub_chars(&chars, pos, chars.len());
            let bp = byte_at(&chars, pos, Ghost(total_bytes as nat));
            let sg = TextSegment::new_normal(chars_string(&t), bp);
            let ghost sgg = sg;
            segments.push(sg);
            proof {
                lemma_seg_push(segs0, sgg, Seq::empty());
                assert(fur_segs(mw, s, ps) =~= seq![sgg@]);
                assert(fur_segs(mw, s, s.len() as int) =~= Seq::<SegModel>::empty());
            }
            pos = chars.len();
        }
    }
    proof {
        assert(fur_segs(mw, s, s.len() as int) =~= Seq::<SegModel>::empty());
        assert(segments@.map_values(|sg: TextSegment| sg@) + Seq::<SegModel>::empty() =~= segments@
            .map_values(|sg: TextSegment| sg@));
    }
    segments
}

/// Pushing one segment commutes with flattening.
proof fn lemma_seg_push(segs0: Seq<TextSegment>, sg: TextSegment, rest: Seq<SegModel>)
    ensures
        segs0.push(sg).map_values(|x: TextSegment| x@) + rest =~= segs0.map_values(
            |x: TextSegment| x@,
        ) + (seq![sg@] + rest),
{
    assert(segs0.push(sg).map_values(|x: TextSegment| x@) =~= segs0.map_values(|x: TextSegment| x@)
        .push(sg@));
}

} // verus!
