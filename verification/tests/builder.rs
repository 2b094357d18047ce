use std::borrow::Cow;

use matcher_rs::{ProcessType, SimMatchType, SimpleMatcherBuilder, SimpleResult};

#[test]
fn new_builder_is_empty() {
    let builder = SimpleMatcherBuilder::new();
    assert!(builder.word_map().is_empty());
}

#[test]
fn words_are_grouped_by_pipeline_and_id() {
    let builder = SimpleMatcherBuilder::new()
        .add_word(ProcessType::Raw(), 1, Cow::Borrowed("hello"))
        .add_word(ProcessType::Raw(), 2, Cow::Borrowed("world"))
        .add_word(ProcessType::VariantNorm(), 3, Cow::Owned("你好".to_string()));
    let map = builder.word_map();
    assert_eq!(map.len(), 2);
    assert_eq!(map[&0x01].len(), 2);
    assert_eq!(map[&0x01][&1], "hello");
    assert_eq!(map[&0x01][&2], "world");
    assert_eq!(map[&0x02][&3], "你好");
}

#[test]
fn raw_bit_is_dropped_from_composites() {
    let builder = SimpleMatcherBuilder::new().add_word(ProcessType::Raw() | ProcessType::Delete(), 1, Cow::Borrowed("x"));
    let map = builder.word_map();
    assert!(map.contains_key(&0x04));
    assert!(!map.contains_key(&0x05));
}

#[test]
fn later_word_replaces_earlier_for_same_pipeline_and_id() {
    let builder = SimpleMatcherBuilder::new()
        .add_word(ProcessType::Delete(), 7, Cow::Borrowed("old"))
        .add_word(ProcessType::Delete(), 7, Cow::Borrowed("new"));
    let map = builder.word_map();
    assert_eq!(map[&0x04].len(), 1);
    assert_eq!(map[&0x04][&7], "new");
}

#[test]
fn simple_result_holds_id_and_word() {
    let result = SimpleResult { word_id: 42, word: Cow::Borrowed("hello") };
    assert_eq!(result.word_id, 42);
    assert_eq!(result.word, "hello");
}

#[test]
fn sim_match_type_compares() {
    assert_eq!(SimMatchType::Levenshtein, SimMatchType::Levenshtein);
}

#[test]
fn default_builder_is_empty() {
    let b: matcher_rs::SimpleMatcherBuilder = Default::default();
    assert!(b.word_map().is_empty());
}
