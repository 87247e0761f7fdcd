use jpn_to_phoneme::converter::PhonemeConverter;
use jpn_to_phoneme::furigana::TextSegment;
use jpn_to_phoneme::segmenter::WordSegmenter;

fn sample_segmenter() -> WordSegmenter {
    let mut sg = WordSegmenter::new();
    sg.insert_word("私");
    sg.insert_word("リンゴ");
    sg.insert_word("すき");
    sg
}

#[test]
fn contains_word_checks_full_entries() {
    let sg = sample_segmenter();
    assert!(sg.contains_word("リンゴ"));
    assert!(sg.contains_word("すき"));
    assert!(!sg.contains_word("リン"));
    assert!(!sg.contains_word("リンゴが"));
    assert!(!sg.contains_word(""));
}

#[test]
fn grammar_bundling_between_words() {
    let sg = sample_segmenter();
    let words = sg.segment("私はリンゴがすきです");
    assert_eq!(words, vec!["私", "は", "リンゴ", "が", "すき", "です"]);
}

#[test]
fn segment_skips_whitespace() {
    let sg = sample_segmenter();
    assert_eq!(sg.segment("私 リンゴ"), vec!["私", "リンゴ"]);
    assert_eq!(sg.segment("  "), Vec::<String>::new());
}

#[test]
fn segment_empty_input() {
    let sg = sample_segmenter();
    assert_eq!(sg.segment(""), Vec::<String>::new());
}

#[test]
fn segment_longest_word_wins() {
    let mut sg = WordSegmenter::new();
    sg.insert_word("す");
    sg.insert_word("すき");
    assert_eq!(sg.segment("すき"), vec!["すき"]);
}

#[test]
fn segment_from_segments_hint_is_atomic() {
    let sg = sample_segmenter();
    let segments = vec![TextSegment::new_furigana(
        "健太".to_string(),
        "けんた".to_string(),
        0,
    )];
    let words = sg.segment_from_segments(&segments, None);
    assert_eq!(words, vec!["けんた"]);
}

#[test]
fn segment_from_segments_uses_phoneme_fallback() {
    let sg = WordSegmenter::new();
    let mut conv = PhonemeConverter::new();
    conv.insert("バカ", "baka");
    let segments = vec![TextSegment::new_normal("バカです".to_string(), 0)];
    let words = sg.segment_from_segments(&segments, Some(conv.get_root()));
    assert_eq!(words, vec!["バカ", "です"]);
}

#[test]
fn segment_from_segments_without_fallback_bundles_all() {
    let sg = WordSegmenter::new();
    let segments = vec![TextSegment::new_normal("バカです".to_string(), 0)];
    let words = sg.segment_from_segments(&segments, None);
    assert_eq!(words, vec!["バカです"]);
}

#[test]
fn segment_from_segments_mixed_segments() {
    let sg = sample_segmenter();
    let segments = vec![
        TextSegment::new_furigana("健太".to_string(), "けんた".to_string(), 0),
        TextSegment::new_normal("はリンゴ".to_string(), 15),
    ];
    let words = sg.segment_from_segments(&segments, None);
    assert_eq!(words, vec!["けんた", "は", "リンゴ"]);
}

#[test]
fn effective_text_of_segments() {
    let n = TextSegment::new_normal("abc".to_string(), 0);
    assert_eq!(n.get_effective_text(), "abc");
    let f = TextSegment::new_furigana("健太".to_string(), "けんた".to_string(), 3);
    assert_eq!(f.get_effective_text(), "けんた");
}
