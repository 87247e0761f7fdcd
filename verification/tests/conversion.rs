use jpn_to_phoneme::converter::PhonemeConverter;
use jpn_to_phoneme::json::ParseJsonError;

fn sample_converter() -> PhonemeConverter {
    let mut c = PhonemeConverter::new();
    c.insert("日本", "nihon");
    c.insert("語", "go");
    c.insert("か", "ka");
    c
}

#[test]
fn convert_empty_input() {
    let c = sample_converter();
    assert_eq!(c.convert(""), "");
    let r = c.convert_detailed("");
    assert_eq!(r.phonemes, "");
    assert!(r.matches.is_empty());
    assert!(r.unmatched.is_empty());
}

#[test]
fn convert_no_coverage_passes_through() {
    let c = PhonemeConverter::new();
    assert_eq!(c.convert("abc あ!"), "abc あ!");
    let r = c.convert_detailed("abc");
    assert_eq!(r.phonemes, "abc");
    assert!(r.matches.is_empty());
    assert_eq!(r.unmatched, vec!['a', 'b', 'c']);
}

#[test]
fn convert_simple_hit() {
    let c = sample_converter();
    assert_eq!(c.convert("日本語"), "nihongo");
    assert_eq!(c.convert("日本語か"), "nihongoka");
}

#[test]
fn longest_match_beats_shorter_prefix() {
    let mut c = PhonemeConverter::new();
    c.insert("ab", "X");
    c.insert("a", "Y");
    assert_eq!(c.convert("ab"), "X");
    assert_eq!(c.convert("a"), "Y");
    assert_eq!(c.convert("aab"), "YX");
}

#[test]
fn insert_same_key_twice_keeps_second_value() {
    let mut c = PhonemeConverter::new();
    c.insert("か", "first");
    c.insert("か", "second");
    assert_eq!(c.convert("か"), "second");
}

#[test]
fn unmatched_reported_per_occurrence() {
    let c = sample_converter();
    let r = c.convert_detailed("x語x");
    assert_eq!(r.phonemes, "xgox");
    assert_eq!(r.unmatched, vec!['x', 'x']);
    assert_eq!(r.matches.len(), 1);
    assert_eq!(r.matches[0].original, "語");
    assert_eq!(r.matches[0].phoneme, "go");
}

#[test]
fn match_offsets_are_utf8_bytes() {
    let c = sample_converter();
    let r = c.convert_detailed("日本語x語");
    assert_eq!(r.phonemes, "nihongoxgo");
    assert_eq!(r.matches.len(), 3);
    assert_eq!(r.matches[0].original, "日本");
    assert_eq!(r.matches[0].start_index, 0);
    assert_eq!(r.matches[1].original, "語");
    assert_eq!(r.matches[1].start_index, 6);
    assert_eq!(r.matches[2].original, "語");
    assert_eq!(r.matches[2].start_index, 10);
    assert_eq!(r.unmatched, vec!['x']);
}

#[test]
fn match_to_string_format() {
    let c = sample_converter();
    let r = c.convert_detailed("語");
    assert_eq!(r.matches[0].to_string(), "\"語\" → \"go\" (pos: 0)");
}

#[test]
fn match_to_string_larger_position() {
    let c = sample_converter();
    let r = c.convert_detailed("abcdefghij日本");
    assert_eq!(r.matches[0].to_string(), "\"日本\" → \"nihon\" (pos: 10)");
}

#[test]
fn parse_json_pairs() {
    let c = PhonemeConverter::new();
    let pairs = c.parse_json("{\"あ\": \"a\", \"い\": \"i\"}").unwrap();
    assert_eq!(pairs.len(), 2);
    assert_eq!(pairs[0].0, "あ");
    assert_eq!(pairs[0].1, "a");
    assert_eq!(pairs[1].0, "い");
    assert_eq!(pairs[1].1, "i");
}

#[test]
fn parse_json_feeds_converter() {
    let mut c = PhonemeConverter::new();
    let pairs = c.parse_json("{\"日本\":\"nihon\",\"語\":\"go\"}").unwrap();
    for (k, v) in &pairs {
        c.insert(k, v);
    }
    assert_eq!(c.convert("日本語"), "nihongo");
}

#[test]
fn parse_json_missing_opening_brace() {
    let c = PhonemeConverter::new();
    assert_eq!(
        c.parse_json("\"a\": \"b\"").unwrap_err(),
        ParseJsonError::MissingOpeningBrace
    );
    assert_eq!(c.parse_json("").unwrap_err(), ParseJsonError::MissingOpeningBrace);
}

#[test]
fn parse_json_missing_closing_brace() {
    let c = PhonemeConverter::new();
    assert_eq!(
        c.parse_json("{\"a\": \"b\"").unwrap_err(),
        ParseJsonError::MissingClosingBrace
    );
    assert_eq!(c.parse_json("  {  ").unwrap_err(), ParseJsonError::MissingClosingBrace);
}

#[test]
fn parse_json_escape_takes_next_char() {
    let c = PhonemeConverter::new();
    let pairs = c.parse_json("{\"a\\\"b\": \"v\\\\w\"}").unwrap();
    assert_eq!(pairs.len(), 1);
    assert_eq!(pairs[0].0, "a\"b");
    assert_eq!(pairs[0].1, "v\\w");
}

#[test]
fn parse_json_drops_empty_keys_and_values() {
    let c = PhonemeConverter::new();
    let pairs = c.parse_json("{\"\": \"x\", \"k\": \"\", \"a\": \"b\"}").unwrap();
    assert_eq!(pairs.len(), 1);
    assert_eq!(pairs[0].0, "a");
    assert_eq!(pairs[0].1, "b");
}

#[test]
fn parse_json_last_value_wins_downstream() {
    let mut c = PhonemeConverter::new();
    let pairs = c.parse_json("{\"か\": \"one\", \"か\": \"two\"}").unwrap();
    assert_eq!(pairs.len(), 2);
    for (k, v) in &pairs {
        c.insert(k, v);
    }
    assert_eq!(c.convert("か"), "two");
}
