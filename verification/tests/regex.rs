use matcher_rs::delete::DeleteMatcher;
use matcher_rs::normalize::NormalizeMatcher;
use matcher_rs::romanize::RomanizeMatcher;
use matcher_rs::variant_norm::VariantNormMatcher;
use matcher_rs::{
    ProcessType, RegexMatchType, RegexMatcher, RegexTable, TextMatcherTrait, TransformRegistry,
};

fn registry() -> TransformRegistry {
    let variant_norm = VariantNormMatcher::from_map(&vec![('國' as u32, '国' as u32)]);
    let mut bits = vec![0u8; 0x110000 / 8];
    for c in "*-".chars() {
        let cp = c as usize;
        bits[cp / 8] |= 1 << (cp % 8);
    }
    let delete = DeleteMatcher::new(&bits);
    let normalize = NormalizeMatcher::from_map(&vec![]);
    let romanize = RomanizeMatcher::from_map(&vec![], false);
    let romanize_char = RomanizeMatcher::from_map(&vec![], true);
    let emoji_norm = RomanizeMatcher::from_map(&vec![], false);
    TransformRegistry::new(variant_norm, delete, normalize, romanize, romanize_char, emoji_norm)
}

fn table<'a>(
    table_id: u32,
    process_type: ProcessType,
    regex_match_type: RegexMatchType,
    word_list: Vec<&'a str>,
) -> RegexTable<'a> {
    RegexTable { table_id, match_id: table_id * 10, process_type, regex_match_type, word_list }
}

#[test]
fn regex_table_matches_anchored_patterns() {
    let reg = registry();
    let matcher = RegexMatcher::new(&[table(1, ProcessType::Raw(), RegexMatchType::Regex, vec!["^hello", "^world"])]);
    assert!(matcher.is_match(&reg, "hello world"));
    assert!(!matcher.is_match(&reg, "say hello"));
    let results = matcher.process(&reg, "hello world");
    assert_eq!(results.len(), 1);
    assert_eq!(results[0].table_id, 1);
    assert_eq!(results[0].match_id, 10);
    assert_eq!(results[0].word_id, 0);
    assert_eq!(results[0].word, "^hello");
}

#[test]
fn empty_text_matches_nothing() {
    let reg = registry();
    let matcher = RegexMatcher::new(&[table(1, ProcessType::Raw(), RegexMatchType::Regex, vec![".*"])]);
    assert!(!matcher.is_match(&reg, ""));
    assert!(matcher.process(&reg, "").is_empty());
    assert!(matcher.is_match(&reg, "x"));
}

#[test]
fn invalid_and_overlong_patterns_are_ignored() {
    let reg = registry();
    let long = "a".repeat(1025);
    let matcher = RegexMatcher::new(&[table(
        2,
        ProcessType::Raw(),
        RegexMatchType::Regex,
        vec!["(", long.as_str(), "b+"],
    )]);
    assert!(!matcher.is_match(&reg, &long));
    let results = matcher.process(&reg, "abbb");
    assert_eq!(results.len(), 1);
    assert_eq!(results[0].word_id, 2);
    assert_eq!(results[0].word, "b+");
}

#[test]
fn similar_char_tables_match_any_listed_character() {
    let reg = registry();
    let matcher = RegexMatcher::new(&[table(
        3,
        ProcessType::Raw(),
        RegexMatchType::SimilarChar,
        vec!["你,妳", "好,号"],
    )]);
    assert!(matcher.is_match(&reg, "妳号"));
    assert!(matcher.is_match(&reg, "你x好"));
    assert!(!matcher.is_match(&reg, "你xx好"));
    let results = matcher.process(&reg, "妳号");
    assert_eq!(results.len(), 1);
    assert_eq!(results[0].word_id, 0);
    assert_eq!(results[0].word, "你,妳好,号");
}

#[test]
fn similar_char_escapes_meta_characters() {
    let reg = registry();
    let matcher = RegexMatcher::new(&[table(4, ProcessType::Raw(), RegexMatchType::SimilarChar, vec![".,+", "a"])]);
    assert!(matcher.is_match(&reg, "+a"));
    assert!(!matcher.is_match(&reg, "xa"));
}

#[test]
fn acrostic_tables_match_segment_heads() {
    let reg = registry();
    let matcher = RegexMatcher::new(&[table(5, ProcessType::Raw(), RegexMatchType::Acrostic, vec!["h,w", "x,y"])]);
    assert!(matcher.is_match(&reg, "Hello World"));
    assert!(!matcher.is_match(&reg, "helloworld"));
    let results = matcher.process(&reg, "hello, world");
    assert_eq!(results.len(), 1);
    assert_eq!(results[0].word_id, 0);
    assert_eq!(results[0].word, "h,w");
}

#[test]
fn patterns_match_the_transformed_text_only_for_their_pipeline() {
    let reg = registry();
    let matcher = RegexMatcher::new(&[
        table(6, ProcessType::VariantNorm(), RegexMatchType::Regex, vec!["国"]),
        table(7, ProcessType::Delete(), RegexMatchType::Regex, vec!["ab"]),
    ]);
    assert!(matcher.is_match(&reg, "國"));
    assert!(matcher.is_match(&reg, "a*b"));
    let results = matcher.process(&reg, "國a-b");
    let mut ids: Vec<u32> = results.iter().map(|r| r.table_id).collect();
    ids.sort();
    assert_eq!(ids, vec![6, 7]);
    let raw_only = RegexMatcher::new(&[table(8, ProcessType::Raw(), RegexMatchType::Regex, vec!["国"])]);
    assert!(!raw_only.is_match(&reg, "國"));
}

#[test]
fn results_are_deduplicated_by_table_and_word() {
    let reg = registry();
    let matcher = RegexMatcher::new(&[
        table(9, ProcessType::Raw(), RegexMatchType::Regex, vec!["a"]),
        table(9, ProcessType::Delete(), RegexMatchType::Regex, vec!["a"]),
    ]);
    let results = matcher.process(&reg, "a*a");
    assert_eq!(results.len(), 1);
    assert_eq!(results[0].table_id, 9);
}

#[test]
fn is_match_agrees_with_process() {
    let reg = registry();
    let matcher = RegexMatcher::new(&[
        table(10, ProcessType::Raw(), RegexMatchType::Regex, vec!["x+y", "^z"]),
        table(11, ProcessType::VariantNorm(), RegexMatchType::SimilarChar, vec!["国,囯", "家"]),
        table(12, ProcessType::Delete(), RegexMatchType::Acrostic, vec!["a,b"]),
    ]);
    for text in ["", "xxy", "zoo", "國家", "國 家", "a*-b", "a b", "nothing here"] {
        assert_eq!(matcher.is_match(&reg, text), !matcher.process(&reg, text).is_empty(), "{:?}", text);
    }
}

#[test]
fn preprocessed_results_come_in_variant_then_pattern_order() {
    let reg = registry();
    let matcher = RegexMatcher::new(&[
        table(13, ProcessType::Raw(), RegexMatchType::Regex, vec!["b", "a"]),
        table(14, ProcessType::Delete(), RegexMatchType::Regex, vec!["ab", "a"]),
    ]);
    let raw_mask = 1u64 << ProcessType::Raw().bits();
    let delete_mask = 1u64 << ProcessType::Delete().bits();
    let variants = vec![
        matcher_rs::TextVariant { text: std::borrow::Cow::Borrowed("a*b"), mask: raw_mask, is_ascii: true },
        matcher_rs::TextVariant { text: std::borrow::Cow::Borrowed("ab"), mask: delete_mask | raw_mask, is_ascii: true },
    ];
    let results = matcher.process_preprocessed(&variants);
    let order: Vec<(u32, u32)> = results.iter().map(|r| (r.table_id, r.word_id)).collect();
    // First variant: table 13's "b" then "a"; second variant: table 14's "ab" then "a";
    // table 13's hits there were already reported.
    assert_eq!(order, vec![(13, 0), (13, 1), (14, 0), (14, 1)]);
}
