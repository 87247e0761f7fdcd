use jpn_to_phoneme::converter::PhonemeConverter;
use jpn_to_phoneme::furigana::{parse_furigana_segments, TextSegment};
use jpn_to_phoneme::pipeline::{convert_detailed_with_segmentation, convert_with_segmentation};
use jpn_to_phoneme::segmenter::WordSegmenter;

#[test]
fn no_brackets_is_one_normal_segment() {
    let segs = parse_furigana_segments("abc", None);
    assert_eq!(segs.len(), 1);
    match &segs[0] {
        TextSegment::Normal { text, position } => {
            assert_eq!(text, "abc");
            assert_eq!(*position, 0);
        }
        _ => panic!("expected a normal segment"),
    }
}

#[test]
fn unmatched_open_bracket_degrades_to_text() {
    let segs = parse_furigana_segments("abc「def", None);
    assert_eq!(segs.len(), 1);
    match &segs[0] {
        TextSegment::Normal { text, position } => {
            assert_eq!(text, "abc「def");
            assert_eq!(*position, 0);
        }
        _ => panic!("expected a normal segment"),
    }
}

#[test]
fn compound_override_prefers_dictionary_word() {
    let mut sg = WordSegmenter::new();
    sg.insert_word("見て");
    let segs = parse_furigana_segments("見「み」て", Some(&sg));
    assert_eq!(segs.len(), 1);
    match &segs[0] {
        TextSegment::Normal { text, position } => {
            assert_eq!(text, "みて");
            assert_eq!(*position, 0);
        }
        _ => panic!("expected the compound to become normal text"),
    }
}

#[test]
fn fallback_to_hint_without_compound() {
    let sg = WordSegmenter::new();
    let segs = parse_furigana_segments("健太「けんた」て", Some(&sg));
    assert_eq!(segs.len(), 2);
    match &segs[0] {
        TextSegment::Furigana { kanji, reading, position } => {
            assert_eq!(kanji, "健太");
            assert_eq!(reading, "けんた");
            assert_eq!(*position, 0);
        }
        _ => panic!("expected a furigana segment"),
    }
    match &segs[1] {
        TextSegment::Normal { text, .. } => assert_eq!(text, "て"),
        _ => panic!("expected a normal tail segment"),
    }
}

#[test]
fn empty_reading_drops_the_hint() {
    let segs = parse_furigana_segments("a「 」b", None);
    assert_eq!(segs.len(), 1);
    match &segs[0] {
        TextSegment::Normal { text, .. } => assert_eq!(text, "b"),
        _ => panic!("expected a normal segment"),
    }
}

#[test]
fn punctuation_bounds_the_annotated_word() {
    let segs = parse_furigana_segments("。見「み」", None);
    assert_eq!(segs.len(), 2);
    match &segs[0] {
        TextSegment::Normal { text, position } => {
            assert_eq!(text, "。");
            assert_eq!(*position, 0);
        }
        _ => panic!("expected the punctuation as its own segment"),
    }
    match &segs[1] {
        TextSegment::Furigana { kanji, reading, position } => {
            assert_eq!(kanji, "見");
            assert_eq!(reading, "み");
            assert_eq!(*position, 3);
        }
        _ => panic!("expected a furigana segment"),
    }
}

#[test]
fn leading_kana_is_a_separate_word() {
    let segs = parse_furigana_segments("は見「み」", None);
    assert_eq!(segs.len(), 2);
    match &segs[0] {
        TextSegment::Normal { text, .. } => assert_eq!(text, "は"),
        _ => panic!("expected the kana prefix as its own segment"),
    }
    match &segs[1] {
        TextSegment::Furigana { kanji, reading, .. } => {
            assert_eq!(kanji, "見");
            assert_eq!(reading, "み");
        }
        _ => panic!("expected a furigana segment"),
    }
}

#[test]
fn okurigana_is_absorbed_after_kanji() {
    let sg = WordSegmenter::new();
    let segs = parse_furigana_segments("、引き金「ひきがね」", Some(&sg));
    assert_eq!(segs.len(), 2);
    match &segs[0] {
        TextSegment::Normal { text, .. } => assert_eq!(text, "、"),
        _ => panic!("expected the prefix as its own segment"),
    }
    match &segs[1] {
        TextSegment::Furigana { kanji, reading, position } => {
            assert_eq!(kanji, "引き金");
            assert_eq!(reading, "ひきがね");
            assert_eq!(*position, 3);
        }
        _ => panic!("expected a furigana segment"),
    }
}

#[test]
fn particle_override_beats_dictionary() {
    let mut conv = PhonemeConverter::new();
    conv.insert("は", "ha");
    let sg = WordSegmenter::new();
    assert_eq!(convert_with_segmentation(&conv, "は", &sg), "wa");
}

#[test]
fn pipeline_with_hint_and_particle() {
    let mut conv = PhonemeConverter::new();
    conv.insert("けんた", "kenta");
    conv.insert("は", "ha");
    conv.insert("バカ", "baka");
    let mut sg = WordSegmenter::new();
    sg.insert_word("バカ");
    let out = convert_with_segmentation(&conv, "健太「けんた」はバカ", &sg);
    assert_eq!(out, "kenta wa baka");
}

#[test]
fn pipeline_detailed_reports_input_offsets() {
    let mut conv = PhonemeConverter::new();
    conv.insert("けんた", "kenta");
    conv.insert("は", "ha");
    conv.insert("バカ", "baka");
    let mut sg = WordSegmenter::new();
    sg.insert_word("バカ");
    let r = convert_detailed_with_segmentation(&conv, "健太「けんた」はバカ", &sg);
    assert_eq!(r.phonemes, "kenta wa baka");
    assert_eq!(r.matches.len(), 3);
    // The reading derives from the hint, so it reports the hint's start.
    assert_eq!(r.matches[0].original, "けんた");
    assert_eq!(r.matches[0].phoneme, "kenta");
    assert_eq!(r.matches[0].start_index, 0);
    // The particle stands at byte 21 of the original input, right after
    // the whole hint (kanji, brackets and reading).
    assert_eq!(r.matches[1].original, "は");
    assert_eq!(r.matches[1].phoneme, "wa");
    assert_eq!(r.matches[1].start_index, 21);
    assert_eq!(r.matches[2].original, "バカ");
    assert_eq!(r.matches[2].phoneme, "baka");
    assert_eq!(r.matches[2].start_index, 24);
    assert!(r.unmatched.is_empty());
}

#[test]
fn pipeline_offsets_survive_skipped_whitespace() {
    let mut conv = PhonemeConverter::new();
    conv.insert("バカ", "baka");
    let mut sg = WordSegmenter::new();
    sg.insert_word("バカ");
    let r = convert_detailed_with_segmentation(&conv, " バカ", &sg);
    assert_eq!(r.phonemes, "baka");
    assert_eq!(r.matches.len(), 1);
    // The word stands after the skipped space: byte 1 of the input.
    assert_eq!(r.matches[0].original, "バカ");
    assert_eq!(r.matches[0].start_index, 1);
}

#[test]
fn hint_matches_report_the_hint_start() {
    let mut conv = PhonemeConverter::new();
    conv.insert("けんた", "kenta");
    let sg = WordSegmenter::new();
    let r = convert_detailed_with_segmentation(&conv, "、健太「けんた」", &sg);
    assert_eq!(r.phonemes, "、 kenta");
    assert_eq!(r.matches.len(), 1);
    assert_eq!(r.matches[0].original, "けんた");
    // The hint's unit starts at byte 3, after the leading punctuation.
    assert_eq!(r.matches[0].start_index, 3);
}

#[test]
fn compound_needs_the_whole_kanji_as_a_path() {
    let mut sg = WordSegmenter::new();
    sg.insert_word("健て");
    let segs = parse_furigana_segments("健太「けんた」て", Some(&sg));
    // 健て shares only a prefix with 健太, so no compound exists and the
    // hint is kept.
    assert_eq!(segs.len(), 2);
    match &segs[0] {
        TextSegment::Furigana { kanji, reading, .. } => {
            assert_eq!(kanji, "健太");
            assert_eq!(reading, "けんた");
        }
        _ => panic!("expected a furigana segment"),
    }
    match &segs[1] {
        TextSegment::Normal { text, .. } => assert_eq!(text, "て"),
        _ => panic!("expected a normal tail segment"),
    }
}

#[test]
fn pipeline_collects_unmatched_across_tokens() {
    let mut conv = PhonemeConverter::new();
    conv.insert("バカ", "baka");
    let mut sg = WordSegmenter::new();
    sg.insert_word("バカ");
    let r = convert_detailed_with_segmentation(&conv, "xバカy", &sg);
    assert_eq!(r.phonemes, "x baka y");
    assert_eq!(r.unmatched, vec!['x', 'y']);
    assert_eq!(r.matches.len(), 1);
    assert_eq!(r.matches[0].original, "バカ");
    assert_eq!(r.matches[0].start_index, 1);
}
