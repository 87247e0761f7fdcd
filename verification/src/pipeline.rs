//! Whole-text conversion: furigana parsing, word segmentation, and
//! per-word phoneme lookup composed into one pipeline.
//!
//! The pipeline parses furigana hints (with compound detection against the
//! word dictionary), segments the result into word tokens using the phoneme
//! dictionary as a fallback word list, converts each token — the topic
//! particle always becomes the literal phoneme `wa` — and joins the token
//! phonemes with single spaces. The detailed variant additionally reports
//! every match at its byte offset in the original input — a token of plain
//! text carries its position through segmentation, and a token a hint
//! rewrote reports the hint's own start — plus all uncovered characters.

use vstd::prelude::*;

verus! {

use crate::chars::{byte_len, byte_offset, lemma_encode_utf8_concat};
use crate::converter::{
    PhonemeConverter,
    ConversionResult,
    Match,
    MatchModel,
    convert_seq,
    matches_seq,
    unmatched_seq,
    lemma_matches_seq_bounds,
};
use crate::furigana::{parse_furigana_segments, fur_segs, find_from, SegModel, TextSegment, seg_within, lemma_fur_segs_positions};
use crate::segmenter::{WordSegmenter, segs_tokens, seg_tokens, seg_token_ranges, lemma_seg_token_ranges};
use crate::strutil::{str_chars, chars_string};
use crate::trie::Trie;

broadcast use vstd::slice::axiom_spec_len;

/// The topic particle, a single hiragana character.
pub open spec fn topic_particle() -> Seq<char> {
    seq!['\u{306F}']
}

/// The fixed phoneme the topic particle always converts to.
pub open spec fn particle_phoneme() -> Seq<char> {
    seq!['w', 'a']
}

/// The phoneme string of one token: the literal `wa` for the topic
/// particle, greedy dictionary conversion for everything else.
pub open spec fn word_phoneme(m: Map<Seq<char>, Seq<char>>, w: Seq<char>) -> Seq<char> {
    if w == topic_particle() {
        particle_phoneme()
    } else {
        convert_seq(m, w, 0)
    }
}

/// The token phonemes from index `i` on, joined with single spaces.
pub open spec fn join_words(m: Map<Seq<char>, Seq<char>>, words: Seq<Seq<char>>, i: int) -> Seq<
    char,
>
    decreases words.len() - i,
{
    if i < 0 || i >= words.len() {
        Seq::empty()
    } else if i == words.len() - 1 {
        word_phoneme(m, words[i])
    } else {
        word_phoneme(m, words[i]) + seq![' '] + join_words(m, words, i + 1)
    }
}

/// The word tokens the pipeline produces for an input: parse furigana with
/// compound detection against the word dictionary `mw`, then segment with
/// the phoneme dictionary `mc` as fallback word list.
pub open spec fn pipeline_words(
    mc: Map<Seq<char>, Seq<char>>,
    mw: Map<Seq<char>, Seq<char>>,
    t: Seq<char>,
) -> Seq<Seq<char>> {
    segs_tokens(mw, mc, fur_segs(Some(mw), t, 0))
}

/// A match re-offset by the byte position of its token in the original
/// input.
pub open spec fn shift_match(mm: MatchModel, off: int) -> MatchModel {
    MatchModel { original: mm.original, phoneme: mm.phoneme, start_index: mm.start_index + off }
}

/// The positioned tokens of one normal segment: each token of its text,
/// at the segment's position plus the token's byte offset within the text.
pub open spec fn normal_seg_tokens(
    mw: Map<Seq<char>, Seq<char>>,
    mp: Map<Seq<char>, Seq<char>>,
    text: Seq<char>,
    position: int,
) -> Seq<(Seq<char>, int, bool)> {
    Seq::new(
        seg_tokens(mw, mp, text, 0).len(),
        |k: int|
            (
                seg_tokens(mw, mp, text, 0)[k],
                position + byte_len(text.take(seg_token_ranges(mw, mp, text, 0)[k].0)) as int,
                false,
            ),
    )
}

/// The pipeline's tokens, each with the byte offset in the original input
/// of its source and whether a reading hint produced it: a hint's reading
/// is one token at the hint's start; a normal segment's tokens sit at the
/// segment's position plus their offset within the segment's text.
pub open spec fn pipe_tokens(
    mw: Map<Seq<char>, Seq<char>>,
    mp: Map<Seq<char>, Seq<char>>,
    segs: Seq<SegModel>,
) -> Seq<(Seq<char>, int, bool)>
    decreases segs.len(),
{
    if segs.len() == 0 {
        Seq::empty()
    } else {
        let head: Seq<(Seq<char>, int, bool)> = match segs[0] {
            SegModel::Furigana { reading, position, .. } => seq![(reading, position, true)],
            SegModel::Normal { text, position } => normal_seg_tokens(mw, mp, text, position),
        };
        head + pipe_tokens(mw, mp, segs.drop_first())
    }
}

/// The tokens of [`pipe_tokens`] are exactly the pipeline's word tokens.
pub proof fn lemma_pipe_tokens_words(
    mw: Map<Seq<char>, Seq<char>>,
    mp: Map<Seq<char>, Seq<char>>,
    segs: Seq<SegModel>,
)
    ensures
        pipe_tokens(mw, mp, segs).map_values(|t: (Seq<char>, int, bool)| t.0) == segs_tokens(
            mw,
            mp,
            segs,
        ),
    decreases segs.len(),
{
    if segs.len() > 0 {
        lemma_pipe_tokens_words(mw, mp, segs.drop_first());
        let head: Seq<(Seq<char>, int, bool)> = match segs[0] {
            SegModel::Furigana { reading, position, .. } => seq![(reading, position, true)],
            SegModel::Normal { text, position } => normal_seg_tokens(mw, mp, text, position),
        };
        let tail = pipe_tokens(mw, mp, segs.drop_first());
        let headw = match segs[0] {
            SegModel::Furigana { reading, .. } => seq![reading],
            SegModel::Normal { text, .. } => seg_tokens(mw, mp, text, 0),
        };
        assert(pipe_tokens(mw, mp, segs) == head + tail);
        assert(head.map_values(|t: (Seq<char>, int, bool)| t.0) =~= headw);
        assert((head + tail).map_values(|t: (Seq<char>, int, bool)| t.0) =~= head.map_values(
            |t: (Seq<char>, int, bool)| t.0,
        ) + tail.map_values(|t: (Seq<char>, int, bool)| t.0));
    } else {
        assert(pipe_tokens(mw, mp, segs).map_values(|t: (Seq<char>, int, bool)| t.0)
            =~= segs_tokens(mw, mp, segs));
    }
}

/// A hint-derived token's matches, all reported at the hint's start.
pub open spec fn flat_matches(
    mc: Map<Seq<char>, Seq<char>>,
    w: Seq<char>,
    src: int,
) -> Seq<MatchModel> {
    matches_seq(mc, w, 0).map_values(
        |mm: MatchModel| MatchModel { original: mm.original, phoneme: mm.phoneme, start_index: src },
    )
}

/// A plain token's matches, shifted to its byte position in the input.
pub open spec fn shifted_matches(
    mc: Map<Seq<char>, Seq<char>>,
    w: Seq<char>,
    src: int,
) -> Seq<MatchModel> {
    matches_seq(mc, w, 0).map_values(|mm: MatchModel| shift_match(mm, src))
}

/// The matches reported for the tokens from index `i` on: the topic
/// particle reports itself as one match at its token's source offset;
/// a hint-derived token reports its matches at the hint's start; any other
/// token reports its detailed-conversion matches shifted by the token's
/// byte position in the original input.
pub open spec fn pipe_matches(
    mc: Map<Seq<char>, Seq<char>>,
    toks: Seq<(Seq<char>, int, bool)>,
    i: int,
) -> Seq<MatchModel>
    decreases toks.len() - i,
{
    if i < 0 || i >= toks.len() {
        Seq::empty()
    } else {
        let w = toks[i].0;
        let src = toks[i].1;
        let hint = toks[i].2;
        let here: Seq<MatchModel> = if w == topic_particle() {
            seq![MatchModel { original: w, phoneme: particle_phoneme(), start_index: src }]
        } else if hint {
            flat_matches(mc, w, src)
        } else {
            shifted_matches(mc, w, src)
        };
        here + pipe_matches(mc, toks, i + 1)
    }
}

/// The uncovered characters over the tokens from index `i` on; the topic
/// particle contributes none.
pub open spec fn pipe_unmatched(
    mc: Map<Seq<char>, Seq<char>>,
    words: Seq<Seq<char>>,
    i: int,
) -> Seq<char>
    decreases words.len() - i,
{
    if i < 0 || i >= words.len() {
        Seq::empty()
    } else {
        let here: Seq<char> = if words[i] == topic_particle() {
            Seq::empty()
        } else {
            unmatched_seq(mc, words[i], 0)
        };
        here + pipe_unmatched(mc, words, i + 1)
    }
}

/// Particle override: the topic particle converts to the literal phoneme
/// `wa` whatever value the phoneme dictionary holds for it, and any other
/// token goes through ordinary dictionary conversion.
pub proof fn lemma_particle_override(m: Map<Seq<char>, Seq<char>>, w: Seq<char>)
    ensures
        word_phoneme(m, topic_particle()) == particle_phoneme(),
        w != topic_particle() ==> word_phoneme(m, w) == convert_seq(m, w, 0),
{
}

/// Convert one token, with the topic-particle override.
fn word_to_phoneme(converter: &PhonemeConverter, w: &String) -> (r: String)
    requires
        converter.wf(),
    ensures
        r@ == word_phoneme(converter.model(), w@),
{
    let wc = str_chars(w.as_str());
    if wc.len() == 1 && wc[0] == '\u{306F}' {
        proof {
            reveal_strlit("wa");
            assert(w@ =~= topic_particle());
            assert("wa"@ =~= particle_phoneme());
        }
        "wa".to_owned()
    } else {
        proof {
            if w@ == topic_particle() {
                assert(wc@.len() == 1);
                assert(wc@[0] == '\u{306F}');
            }
        }
        converter.convert(w.as_str())
    }
}

/// Join the tokens' phonemes with single spaces.
fn join_tokens(converter: &PhonemeConverter, words: &Vec<String>) -> (r: String)
    requires
        converter.wf(),
    ensures
        r@ == join_words(converter.model(), words@.map_values(|w: String| w@), 0),
{
    let ghost mc = converter.model();
    let ghost wmods = words@.map_values(|w: String| w@);
    let mut out: Vec<char> = Vec::new();
    let mut i: usize = 0;
    while i < words.len()
        invariant
            converter.wf(),
            mc == converter.model(),
            wmods == words@.map_values(|w: String| w@),
            i <= wmods.len(),
            out@ + join_words(mc, wmods, i as int) == join_words(mc, wmods, 0),
        decreases wmods.len() - i,
    {
        let ghost out0 = out@;
        let ph = word_to_phoneme(converter, &words[i]);
        let mut pc = str_chars(ph.as_str());
        out.append(&mut pc);
        if i + 1 < words.len() {
            out.push(' ');
            proof {
                assert(join_words(mc, wmods, i as int) == word_phoneme(mc, wmods[i as int])
                    + seq![' '] + join_words(mc, wmods, i + 1));
                assert(out0 + (word_phoneme(mc, wmods[i as int]) + seq![' '] + join_words(
                    mc,
                    wmods,
                    i + 1,
                )) =~= (out0 + ph@).push(' ') + join_words(mc, wmods, i + 1));
            }
        } else {
            proof {
                assert(i as int == wmods.len() - 1);
                assert(join_words(mc, wmods, i as int) == word_phoneme(mc, wmods[i as int]));
                assert(out0 + word_phoneme(mc, wmods[i as int]) =~= (out0 + ph@) + Seq::<
                    char,
                >::empty());
            }
        }
        i = i + 1;
    }
    proof {
        assert(out@ + join_words(mc, wmods, wmods.len() as int) =~= out@);
    }
    chars_string(&out)
}

/// Convert with word segmentation support: furigana-aware segmentation,
/// the topic-particle override, and space-joined output.
pub fn convert_with_segmentation(
    converter: &PhonemeConverter,
    text: &str,
    segmenter: &WordSegmenter,
) -> (r: String)
    requires
        converter.wf(),
        segmenter.wf(),
    ensures
        r@ == join_words(
            converter.model(),
            pipeline_words(converter.model(), segmenter.model(), text@),
            0,
        ),
{
    let segments = parse_furigana_segments(text, Some(segmenter));
    let words = segmenter.segment_from_segments(&segments, Some(converter.get_root()));
    join_tokens(converter, &words)
}

/// The pipeline's positioned tokens for an input text.
pub open spec fn pipeline_token_list(
    mc: Map<Seq<char>, Seq<char>>,
    mw: Map<Seq<char>, Seq<char>>,
    t: Seq<char>,
) -> Seq<(Seq<char>, int, bool)> {
    pipe_tokens(mw, mc, fur_segs(Some(mw), t, 0))
}

/// Pushing one positioned token commutes with flattening.
proof fn lemma_ptoken_push(
    toks0: Seq<(String, usize, bool)>,
    tk: (String, usize, bool),
    rest: Seq<(Seq<char>, int, bool)>,
)
    ensures
        toks0.push(tk).map_values(|t: (String, usize, bool)| (t.0@, t.1 as int, t.2)) + rest
            =~= toks0.map_values(|t: (String, usize, bool)| (t.0@, t.1 as int, t.2)) + (seq![
            (tk.0@, tk.1 as int, tk.2),
        ] + rest),
{
    assert(toks0.push(tk).map_values(|t: (String, usize, bool)| (t.0@, t.1 as int, t.2))
        =~= toks0.map_values(|t: (String, usize, bool)| (t.0@, t.1 as int, t.2)).push(
        (tk.0@, tk.1 as int, tk.2),
    ));
}

/// Materialize the pipeline's tokens with their source byte offsets in an
/// input of `total` bytes.
fn pipeline_tokens(
    sg: &WordSegmenter,
    fallback: &Trie,
    segments: &Vec<TextSegment>,
    total: usize,
) -> (r: Vec<(String, usize, bool)>)
    requires
        sg.wf(),
        fallback.wf(),
        forall|g: int|
            0 <= g < segments@.len() ==> seg_within((#[trigger] segments@[g])@, total as nat),
    ensures
        r@.map_values(|t: (String, usize, bool)| (t.0@, t.1 as int, t.2)) == pipe_tokens(
            sg.model(),
            fallback.model(),
            segments@.map_values(|x: TextSegment| x@),
        ),
        forall|k: int|
            0 <= k < r@.len() ==> (#[trigger] r@[k]).1 as nat + byte_len(r@[k].0@) <= total as nat,
{
    let ghost mw = sg.model();
    let ghost mp = fallback.model();
    let ghost smodels = segments@.map_values(|x: TextSegment| x@);
    let mut toks: Vec<(String, usize, bool)> = Vec::new();
    let mut si: usize = 0;
    proof {
        assert(smodels.skip(0) =~= smodels);
    }
    while si < segments.len()
        invariant
            sg.wf(),
            fallback.wf(),
            mw == sg.model(),
            mp == fallback.model(),
            smodels == segments@.map_values(|x: TextSegment| x@),
            forall|g: int|
                0 <= g < segments@.len() ==> seg_within((#[trigger] segments@[g])@, total as nat),
            si <= segments@.len(),
            toks@.map_values(|t: (String, usize, bool)| (t.0@, t.1 as int, t.2)) + pipe_tokens(
                mw,
                mp,
                smodels.skip(si as int),
            ) == pipe_tokens(mw, mp, smodels),
            forall|k: int|
                0 <= k < toks@.len() ==> (#[trigger] toks@[k]).1 as nat + byte_len(toks@[k].0@)
                    <= total as nat,
        decreases segments@.len() - si,
    {
        let ghost toks0 = toks@;
        proof {
            assert(smodels.skip(si as int)[0] == smodels[si as int]);
            assert(smodels[si as int] == segments@[si as int]@);
            assert(smodels.skip(si as int).drop_first() =~= smodels.skip(si as int + 1));
            assert(seg_within(segments@[si as int]@, total as nat));
        }
        match &segments[si] {
            TextSegment::Furigana { reading, position, .. } => {
                let tk = (reading.clone(), *position, true);
                let ghost tkg = tk;
                toks.push(tk);
                proof {
                    assert(pipe_tokens(mw, mp, smodels.skip(si as int)) == seq![
                        (reading@, *position as int, true),
                    ] + pipe_tokens(mw, mp, smodels.skip(si as int + 1)));
                    lemma_ptoken_push(toks0, tkg, pipe_tokens(mw, mp, smodels.skip(si as int + 1)));
                }
            },
            TextSegment::Normal { text, position } => {
                let tc = str_chars(text.as_str());
                let wtotal = text.as_str().as_bytes().len();
                let pts = sg.segment_chars_positions(&tc, Some(fallback));
                let ghost head = normal_seg_tokens(mw, mp, text@, *position as int);
                proof {
                    lemma_seg_token_ranges(mw, mp, text@, 0);
                    assert(pipe_tokens(mw, mp, smodels.skip(si as int)) == head + pipe_tokens(
                        mw,
                        mp,
                        smodels.skip(si as int + 1),
                    ));
                    assert(byte_len(text@) == wtotal as nat);
                    assert(head.len() == pts@.len()) by {
                        assert(pts@.map_values(|p: (String, usize)| p.0@).len() == pts@.len());
                    }
                }
                let mut j: usize = 0;
                let ghost toks1 = toks@;
                while j < pts.len()
                    invariant
                        j <= pts@.len(),
                        mw == sg.model(),
                        mp == fallback.model(),
                        tc@ == text@,
                        wtotal as nat == byte_len(text@),
                        *position as nat + byte_len(text@) <= total as nat,
                        pts@.map_values(|p: (String, usize)| p.0@) == seg_tokens(
                            mw,
                            mp,
                            text@,
                            0,
                        ),
                        pts@.map_values(|p: (String, usize)| p.1 as int) == seg_token_ranges(
                            mw,
                            mp,
                            text@,
                            0,
                        ).map_values(|rg: (int, int)| rg.0),
                        head == normal_seg_tokens(mw, mp, text@, *position as int),
                        head.len() == pts@.len(),
                        toks@.map_values(|t: (String, usize, bool)| (t.0@, t.1 as int, t.2))
                            == toks1.map_values(
                            |t: (String, usize, bool)| (t.0@, t.1 as int, t.2),
                        ) + head.take(j as int),
                        forall|k: int|
                            0 <= k < toks@.len() ==> (#[trigger] toks@[k]).1 as nat + byte_len(
                                toks@[k].0@,
                            ) <= total as nat,
                    decreases pts@.len() - j,
                {
                    let ghost toksj = toks@;
                    let w = pts[j].0.clone();
                    let cstart = pts[j].1;
                    proof {
                        lemma_seg_token_ranges(mw, mp, text@, 0);
                        assert(pts@.map_values(|p: (String, usize)| p.0@)[j as int] == seg_tokens(
                            mw,
                            mp,
                            text@,
                            0,
                        )[j as int]);
                        assert(pts@.map_values(|p: (String, usize)| p.1 as int)[j as int]
                            == seg_token_ranges(mw, mp, text@, 0).map_values(
                            |rg: (int, int)| rg.0,
                        )[j as int]);
                        crate::chars::lemma_byte_len_prefix_le(text@, cstart as int);
                    }
                    let within = crate::chars::byte_at(&tc, cstart, Ghost(wtotal as nat));
                    let src = *position + within;
                    let tk = (w, src, false);
                    let ghost tkg = tk;
                    toks.push(tk);
                    proof {
                        let rg = seg_token_ranges(mw, mp, text@, 0)[j as int];
                        assert(cstart as int == rg.0);
                        assert(tkg.0@ == seg_tokens(mw, mp, text@, 0)[j as int]);
                        assert(head[j as int] == (tkg.0@, tkg.1 as int, false));
                        assert(head.take(j + 1) =~= head.take(j as int).push(head[j as int]));
                        assert(toksj.push(tkg).map_values(
                            |t: (String, usize, bool)| (t.0@, t.1 as int, t.2),
                        ) =~= toksj.map_values(|t: (String, usize, bool)| (t.0@, t.1 as int, t.2))
                            .push((tkg.0@, tkg.1 as int, tkg.2)));
                        // The token's bytes stay inside the segment's text.
                        assert(text@ =~= text@.take(rg.0) + tkg.0@ + text@.skip(rg.1));
                        lemma_encode_utf8_concat(text@.take(rg.0) + tkg.0@, text@.skip(rg.1));
                        lemma_encode_utf8_concat(text@.take(rg.0), tkg.0@);
                    }
                    j = j + 1;
                }
                proof {
                    assert(head.take(head.len() as int) =~= head);
                    assert((toks1.map_values(|t: (String, usize, bool)| (t.0@, t.1 as int, t.2))
                        + head) + pipe_tokens(mw, mp, smodels.skip(si as int + 1))
                        =~= toks1.map_values(|t: (String, usize, bool)| (t.0@, t.1 as int, t.2)) + (
                    head + pipe_tokens(mw, mp, smodels.skip(si as int + 1))));
                }
            },
        }
        si = si + 1;
    }
    proof {
        assert(smodels.skip(smodels.len() as int) =~= Seq::<SegModel>::empty());
        assert(toks@.map_values(|t: (String, usize, bool)| (t.0@, t.1 as int, t.2)) + Seq::<
            (Seq<char>, int, bool),
        >::empty() =~= toks@.map_values(|t: (String, usize, bool)| (t.0@, t.1 as int, t.2)));
    }
    toks
}

/// As [`convert_with_segmentation`], also reporting every match at its
/// byte offset in the original input (a hint-derived token reports the
/// hint's start) and all uncovered characters.
pub fn convert_detailed_with_segmentation(
    converter: &PhonemeConverter,
    text: &str,
    segmenter: &WordSegmenter,
) -> (r: ConversionResult)
    requires
        converter.wf(),
        segmenter.wf(),
    ensures
        r.phonemes@ == join_words(
            converter.model(),
            pipeline_words(converter.model(), segmenter.model(), text@),
            0,
        ),
        r.matches@.map_values(|mt: Match| mt@) == pipe_matches(
            converter.model(),
            pipeline_token_list(converter.model(), segmenter.model(), text@),
            0,
        ),
        r.unmatched@ == pipe_unmatched(
            converter.model(),
            pipeline_words(converter.model(), segmenter.model(), text@),
            0,
        ),
{
    let ghost mc = converter.model();
    let ghost mw = segmenter.model();
    let total = text.as_bytes().len();
    let segments = parse_furigana_segments(text, Some(segmenter));
    let ghost smodels = segments@.map_values(|x: TextSegment| x@);
    proof {
        lemma_fur_segs_positions(Some(mw), text@, 0);
        assert(byte_len(text@) == total as nat);
        assert forall|g: int| 0 <= g < segments@.len() implies seg_within(
            (#[trigger] segments@[g])@,
            total as nat,
        ) by {
            assert(segments@[g]@ == smodels[g]);
            assert(smodels[g] == fur_segs(Some(mw), text@, 0)[g]);
        }
    }
    let toks = pipeline_tokens(segmenter, converter.get_root(), &segments, total);
    let ghost tmods = pipe_tokens(mw, mc, smodels);
    let ghost wmods = tmods.map_values(|t: (Seq<char>, int, bool)| t.0);
    proof {
        assert(toks@.map_values(|t: (String, usize, bool)| (t.0@, t.1 as int, t.2)) == tmods);
        lemma_pipe_tokens_words(mw, mc, smodels);
        assert(wmods == pipeline_words(mc, mw, text@));
        assert(tmods == pipeline_token_list(mc, mw, text@));
    }
    let mut out: Vec<char> = Vec::new();
    let mut all_matches: Vec<Match> = Vec::new();
    let mut all_unmatched: Vec<char> = Vec::new();
    let mut i: usize = 0;
    while i < toks.len()
        invariant
            converter.wf(),
            mc == converter.model(),
            tmods == toks@.map_values(|t: (String, usize, bool)| (t.0@, t.1 as int, t.2)),
            wmods == tmods.map_values(|t: (Seq<char>, int, bool)| t.0),
            i <= toks@.len(),
            forall|k: int|
                0 <= k < toks@.len() ==> (#[trigger] toks@[k]).1 as nat + byte_len(toks@[k].0@)
                    <= total as nat,
            out@ + join_words(mc, wmods, i as int) == join_words(mc, wmods, 0),
            all_matches@.map_values(|mt: Match| mt@) + pipe_matches(mc, tmods, i as int)
                == pipe_matches(mc, tmods, 0),
            all_unmatched@ + pipe_unmatched(mc, wmods, i as int) == pipe_unmatched(mc, wmods, 0),
        decreases toks@.len() - i,
    {
        let ghost out0 = out@;
        let ghost am0 = all_matches@;
        let ghost au0 = all_unmatched@;
        let w = &toks[i].0;
        let off = toks[i].1;
        let hint = toks[i].2;
        let ghost wm = w@;
        proof {
            assert(tmods[i as int] == (wm, off as int, hint));
            assert(wmods[i as int] == wm);
        }
        let wc = str_chars(w.as_str());
        let is_particle = wc.len() == 1 && wc[0] == '\u{306F}';
        proof {
            if is_particle {
                assert(wm =~= topic_particle());
            } else if wm == topic_particle() {
                assert(wc@.len() == 1);
                assert(wc@[0] == '\u{306F}');
            }
        }
        if is_particle {
            out.push('w');
            out.push('a');
            let mt = Match { original: w.clone(), phoneme: wa_string(), start_index: off };
            let ghost mtg = mt;
            all_matches.push(mt);
            proof {
                assert(mtg@ == (MatchModel {
                    original: wm,
                    phoneme: particle_phoneme(),
                    start_index: off as int,
                }));
                assert(pipe_matches(mc, tmods, i as int) == seq![mtg@] + pipe_matches(
                    mc,
                    tmods,
                    i + 1,
                ));
                assert(am0.push(mtg).map_values(|mt2: Match| mt2@) =~= am0.map_values(
                    |mt2: Match| mt2@,
                ).push(mtg@));
                assert(am0.map_values(|mt2: Match| mt2@).push(mtg@) + pipe_matches(
                    mc,
                    tmods,
                    i + 1,
                ) =~= am0.map_values(|mt2: Match| mt2@) + (seq![mtg@] + pipe_matches(
                    mc,
                    tmods,
                    i + 1,
                )));
                assert(word_phoneme(mc, wm) == particle_phoneme());
                assert(out0 + (word_phoneme(mc, wm)) =~= out0.push('w').push('a'));
                assert(pipe_unmatched(mc, wmods, i as int) == Seq::<char>::empty()
                    + pipe_unmatched(mc, wmods, i + 1));
                assert(Seq::<char>::empty() + pipe_unmatched(mc, wmods, i + 1) =~= pipe_unmatched(
                    mc,
                    wmods,
                    i + 1,
                ));
            }
        } else {
            let dr = converter.convert_detailed(w.as_str());
            let ConversionResult { phonemes: drp, matches: drm, unmatched: mut dru } = dr;
            let mut phc = str_chars(drp.as_str());
            out.append(&mut phc);
            let ghost shifted = if hint {
                flat_matches(mc, wm, off as int)
            } else {
                shifted_matches(mc, wm, off as int)
            };
            let mut j: usize = 0;
            proof {
                lemma_matches_seq_bounds(mc, wm, 0);
                assert(shifted.take(0) =~= Seq::<MatchModel>::empty());
                assert(am0.map_values(|mt2: Match| mt2@) + Seq::<MatchModel>::empty() =~= am0
                    .map_values(|mt2: Match| mt2@));
                assert(off as nat + byte_len(wm) <= total as nat);
            }
            while j < drm.len()
                invariant
                    j <= drm@.len(),
                    drm@.map_values(|mt2: Match| mt2@) == matches_seq(mc, wm, 0),
                    shifted == (if hint {
                        flat_matches(mc, wm, off as int)
                    } else {
                        shifted_matches(mc, wm, off as int)
                    }),
                    off as nat + byte_len(wm) <= total as nat,
                    forall|x: int|
                        0 <= x < matches_seq(mc, wm, 0).len() ==> 0 <= (#[trigger] matches_seq(
                            mc,
                            wm,
                            0,
                        )[x]).start_index <= byte_len(wm),
                    all_matches@.map_values(|mt2: Match| mt2@) == am0.map_values(
                        |mt2: Match| mt2@,
                    ) + shifted.take(j as int),
                decreases drm@.len() - j,
            {
                let ghost amj = all_matches@;
                let m = &drm[j];
                proof {
                    assert(drm@.map_values(|mt2: Match| mt2@)[j as int] == matches_seq(
                        mc,
                        wm,
                        0,
                    )[j as int]);
                    assert(m@.start_index <= byte_len(wm));
                }
                let st = if hint {
                    off
                } else {
                    m.start_index + off
                };
                let mt = Match {
                    original: m.original.clone(),
                    phoneme: m.phoneme.clone(),
                    start_index: st,
                };
                let ghost mtg = mt;
                all_matches.push(mt);
                proof {
                    assert(mtg@ == shifted[j as int]);
                    assert(amj.map_values(|mt2: Match| mt2@).push(mtg@) =~= amj.push(
                        mtg,
                    ).map_values(|mt2: Match| mt2@));
                    assert(shifted.take(j + 1) =~= shifted.take(j as int).push(
                        shifted[j as int],
                    ));
                    assert(all_matches@.map_values(|mt2: Match| mt2@) =~= am0.map_values(
                        |mt2: Match| mt2@,
                    ) + shifted.take(j + 1));
                }
                j = j + 1;
            }
            all_unmatched.append(&mut dru);
            proof {
                assert(shifted.take(shifted.len() as int) =~= shifted);
                assert(pipe_matches(mc, tmods, i as int) == shifted + pipe_matches(
                    mc,
                    tmods,
                    i + 1,
                ));
                assert((am0.map_values(|mt2: Match| mt2@) + shifted) + pipe_matches(
                    mc,
                    tmods,
                    i + 1,
                ) =~= am0.map_values(|mt2: Match| mt2@) + (shifted + pipe_matches(
                    mc,
                    tmods,
                    i + 1,
                )));
                assert(pipe_unmatched(mc, wmods, i as int) == unmatched_seq(mc, wm, 0)
                    + pipe_unmatched(mc, wmods, i + 1));
                assert((au0 + unmatched_seq(mc, wm, 0)) + pipe_unmatched(mc, wmods, i + 1) =~= au0
                    + (unmatched_seq(mc, wm, 0) + pipe_unmatched(mc, wmods, i + 1)));
                assert(word_phoneme(mc, wm) == convert_seq(mc, wm, 0));
            }
        }
        if i + 1 < toks.len() {
            out.push(' ');
            proof {
                assert(join_words(mc, wmods, i as int) == word_phoneme(mc, wmods[i as int])
                    + seq![' '] + join_words(mc, wmods, i + 1));
                assert(out0 + (word_phoneme(mc, wmods[i as int]) + seq![' '] + join_words(
                    mc,
                    wmods,
                    i + 1,
                )) =~= (out0 + word_phoneme(mc, wmods[i as int])).push(' ') + join_words(
                    mc,
                    wmods,
                    i + 1,
                ));
            }
        } else {
            proof {
                assert(i as int == wmods.len() - 1);
                assert(join_words(mc, wmods, i as int) == word_phoneme(mc, wmods[i as int]));
                assert(out0 + word_phoneme(mc, wmods[i as int]) =~= (out0 + word_phoneme(
                    mc,
                    wmods[i as int],
                )) + Seq::<char>::empty());
            }
        }
        i = i + 1;
    }
    proof {
        assert(out@ + join_words(mc, wmods, wmods.len() as int) =~= out@);
        assert(all_matches@.map_values(|mt2: Match| mt2@) + pipe_matches(
            mc,
            tmods,
            tmods.len() as int,
        ) =~= all_matches@.map_values(|mt2: Match| mt2@));
        assert(all_unmatched@ + pipe_unmatched(mc, wmods, wmods.len() as int) =~= all_unmatched@);
    }
    ConversionResult {
        phonemes: chars_string(&out),
        matches: all_matches,
        unmatched: all_unmatched,
    }
}

/// A token that is a literal piece of the input: its text is the substring
/// at some character position whose byte offset it carries, and it is not
/// hint-derived.
pub open spec fn plain_token(s: Seq<char>, t: (Seq<char>, int, bool)) -> bool {
    exists|a: int|
        0 <= a && a + t.0.len() <= s.len() && t.0 == #[trigger] s.subrange(a, a + t.0.len() as int)
            && t.1 == byte_offset(s, a) && !t.2
}

/// A match whose reported offset is the byte offset in `s` at which its
/// matched text stands.
pub open spec fn match_in_input(s: Seq<char>, mm: MatchModel) -> bool {
    exists|p: int|
        0 <= p && p + mm.original.len() <= s.len() && mm.original == #[trigger] s.subrange(
            p,
            p + mm.original.len() as int,
        ) && mm.start_index == byte_offset(s, p)
}

/// Matches over literal tokens report true input offsets: shifting a
/// token's own byte offsets by the token's input position lands each match
/// at the byte offset of its text in the input.
proof fn lemma_plain_matches_offsets(
    mc: Map<Seq<char>, Seq<char>>,
    toks: Seq<(Seq<char>, int, bool)>,
    s: Seq<char>,
    i: int,
)
    requires
        0 <= i <= toks.len(),
        forall|k: int| 0 <= k < toks.len() ==> plain_token(s, #[trigger] toks[k]),
    ensures
        forall|j: int|
            0 <= j < pipe_matches(mc, toks, i).len() ==> match_in_input(
                s,
                #[trigger] pipe_matches(mc, toks, i)[j],
            ),
    decreases toks.len() - i,
{
    if i < toks.len() {
        lemma_plain_matches_offsets(mc, toks, s, i + 1);
        let w = toks[i].0;
        let src = toks[i].1;
        assert(plain_token(s, toks[i]));
        let a = choose|a: int|
            0 <= a && a + w.len() <= s.len() && w == #[trigger] s.subrange(a, a + w.len() as int)
                && src == byte_offset(s, a) && !toks[i].2;
        let here: Seq<MatchModel> = if w == topic_particle() {
            seq![MatchModel { original: w, phoneme: particle_phoneme(), start_index: src }]
        } else {
            shifted_matches(mc, w, src)
        };
        assert forall|x: int| 0 <= x < here.len() implies match_in_input(s, here[x]) by {
            if w == topic_particle() {
                assert(here[x].original == s.subrange(a, a + w.len() as int));
                assert(here[x].start_index == byte_offset(s, a));
            } else {
                crate::converter::lemma_match_offsets(mc, w, 0);
                assert(here[x] == shift_match(matches_seq(mc, w, 0)[x], src));
                let mm = matches_seq(mc, w, 0)[x];
                let q = choose|q: int|
                    {
                        &&& 0 <= q < w.len()
                        &&& q + mm.original.len() <= w.len()
                        &&& mm.original == w.subrange(q, q + mm.original.len())
                        &&& mm.start_index == byte_offset(w, q)
                    };
                // Compose the token's input position with the offset
                // inside the token.
                crate::chars::lemma_byte_offset_split(s, a, a + q);
                assert(s.subrange(a, a + q) =~= w.take(q));
                assert(byte_offset(s, a + q) == byte_offset(s, a) + byte_len(w.take(q)));
                assert(here[x].start_index == byte_offset(s, a + q));
                assert(here[x].original =~= s.subrange(
                    a + q,
                    a + q + here[x].original.len() as int,
                ));
            }
        }
        assert forall|j: int| 0 <= j < pipe_matches(mc, toks, i).len() implies match_in_input(
            s,
            #[trigger] pipe_matches(mc, toks, i)[j],
        ) by {
            if j < here.len() {
                assert(pipe_matches(mc, toks, i)[j] == here[j]);
            } else {
                assert(pipe_matches(mc, toks, i)[j] == pipe_matches(mc, toks, i + 1)[j
                    - here.len()]);
            }
        }
    }
}

/// Byte-offset correctness through the whole pipeline: on input without
/// any reading hint (no opening bracket), every match the detailed
/// conversion reports is the input's substring standing at exactly the
/// byte offset it reports. (A hint-derived token instead reports the byte
/// offset at which its source region begins, by the definition of
/// [`pipe_tokens`].)
pub proof fn lemma_pipeline_offsets_plain(
    mc: Map<Seq<char>, Seq<char>>,
    mw: Map<Seq<char>, Seq<char>>,
    s: Seq<char>,
)
    requires
        find_from(s, 0, '\u{300C}') is None,
    ensures
        forall|j: int|
            0 <= j < pipe_matches(mc, pipeline_token_list(mc, mw, s), 0).len() ==> match_in_input(
                s,
                #[trigger] pipe_matches(mc, pipeline_token_list(mc, mw, s), 0)[j],
            ),
{
    let toks = pipeline_token_list(mc, mw, s);
    if s.len() == 0 {
        assert(fur_segs(Some(mw), s, 0) =~= Seq::<SegModel>::empty());
        assert(toks =~= Seq::<(Seq<char>, int, bool)>::empty());
    } else {
        assert(byte_offset(s, 0) == 0) by {
            assert(s.take(0) =~= Seq::<char>::empty());
            assert(vstd::utf8::encode_utf8(Seq::<char>::empty()) =~= Seq::<u8>::empty());
        }
        let seg = SegModel::Normal { text: s.subrange(0, s.len() as int), position: 0 };
        assert(fur_segs(Some(mw), s, 0) == seq![seg]);
        assert(s.subrange(0, s.len() as int) =~= s);
        assert(seq![seg].drop_first() =~= Seq::<SegModel>::empty());
        assert(pipe_tokens(mw, mc, Seq::<SegModel>::empty()) =~= Seq::<
            (Seq<char>, int, bool),
        >::empty());
        assert(toks =~= normal_seg_tokens(mw, mc, s, 0));
        lemma_seg_token_ranges(mw, mc, s, 0);
        assert forall|k: int| 0 <= k < toks.len() implies plain_token(s, #[trigger] toks[k]) by {
            let rg = seg_token_ranges(mw, mc, s, 0)[k];
            assert(toks[k] == (
                seg_tokens(mw, mc, s, 0)[k],
                0 + byte_len(s.take(rg.0)) as int,
                false,
            ));
            assert(toks[k].0 == s.subrange(rg.0, rg.1));
            assert(s.subrange(rg.0, rg.0 + toks[k].0.len() as int) == s.subrange(rg.0, rg.1));
            assert(toks[k].1 == byte_offset(s, rg.0));
        }
        lemma_plain_matches_offsets(mc, toks, s, 0);
    }
}

/// The literal particle phoneme as an owned string.
fn wa_string() -> (r: String)
    ensures
        r@ == particle_phoneme(),
{
    proof {
        reveal_strlit("wa");
        assert("wa"@ =~= particle_phoneme());
    }
    "wa".to_owned()
}

} // verus!
