use std::borrow::Cow;

use matcher_rs::delete::DeleteMatcher;
use matcher_rs::normalize::NormalizeMatcher;
use matcher_rs::romanize::RomanizeMatcher;
use matcher_rs::variant_norm::VariantNormMatcher;
use matcher_rs::{
    reduce_text_process, reduce_text_process_emit, text_process, ProcessType, TransformRegistry,
    TransformStep,
};

fn delete_matcher(deleted: &str) -> DeleteMatcher {
    let mut bits = vec![0u8; 0x110000 / 8];
    for c in deleted.chars() {
        let cp = c as usize;
        bits[cp / 8] |= 1 << (cp % 8);
    }
    DeleteMatcher::new(&bits)
}

fn romanize_entries() -> Vec<(u32, String)> {
    vec![('西' as u32, " xi".to_string()), ('安' as u32, " an".to_string())]
}

fn registry() -> TransformRegistry {
    let variant_norm = VariantNormMatcher::from_map(&vec![
        ('測' as u32, '测' as u32),
        ('試' as u32, '试' as u32),
        ('妳' as u32, '你' as u32),
    ]);
    let delete = delete_matcher("！~*&^%");
    let normalize = NormalizeMatcher::from_map(&vec![('Ａ' as u32, "a".to_string())]);
    let romanize = RomanizeMatcher::from_map(&romanize_entries(), false);
    let romanize_char = RomanizeMatcher::from_map(&romanize_entries(), true);
    let emoji_norm = RomanizeMatcher::from_map(&vec![('🔥' as u32, "fire".to_string())], false);
    TransformRegistry::new(variant_norm, delete, normalize, romanize, romanize_char, emoji_norm)
}

#[test]
fn text_process_applies_steps_in_bit_order() {
    let reg = registry();
    let processed = text_process(&reg, ProcessType::VariantNorm() | ProcessType::Delete(), "測！試");
    assert_eq!(processed, "测试");
    assert!(matches!(processed, Cow::Owned(_)));
}

#[test]
fn text_process_borrows_when_nothing_changes() {
    let reg = registry();
    let unchanged = text_process(&reg, ProcessType::VariantNorm(), "hello");
    assert_eq!(unchanged, "hello");
    assert!(matches!(unchanged, Cow::Borrowed(_)));
    let raw = text_process(&reg, ProcessType::Raw(), "測！試");
    assert!(matches!(raw, Cow::Borrowed("測！試")));
    let none = text_process(&reg, ProcessType::empty(), "x");
    assert!(matches!(none, Cow::Borrowed("x")));
}

#[test]
fn text_process_romanizes_and_names_emoji() {
    let reg = registry();
    assert_eq!(text_process(&reg, ProcessType::Romanize(), "西安"), " xi an");
    assert_eq!(text_process(&reg, ProcessType::RomanizeChar(), "西安"), "xian");
    assert_eq!(text_process(&reg, ProcessType::EmojiNorm(), "🔥"), "fire");
    assert_eq!(text_process(&reg, ProcessType::Delete() | ProcessType::EmojiNorm(), "a🔥!"), "afire!");
}

#[test]
fn reduce_text_process_records_every_change() {
    let reg = registry();
    let variants = reduce_text_process(&reg, ProcessType::VariantNormDeleteNormalize(), "~測~Ａ~");
    assert_eq!(variants[0], "~測~Ａ~");
    assert!(matches!(variants[0], Cow::Borrowed(_)));
    assert_eq!(variants.last().unwrap(), "测a");
    let texts: Vec<&str> = variants.iter().map(|v| v.as_ref()).collect();
    assert_eq!(texts, vec!["~測~Ａ~", "~测~Ａ~", "测Ａ", "测a"]);
}

#[test]
fn reduce_text_process_skips_unchanged_steps() {
    let reg = registry();
    let variants = reduce_text_process(&reg, ProcessType::VariantNormDeleteNormalize(), "plain");
    assert_eq!(variants.len(), 1);
    assert_eq!(variants[0], "plain");
}

#[test]
fn reduce_text_process_emit_merges_replace_steps() {
    let reg = registry();
    let variants = reduce_text_process_emit(&reg, ProcessType::VariantNormDeleteNormalize(), "~測~Ａ~");
    assert_eq!(variants.len(), 2);
    assert_eq!(variants[0], "~测~Ａ~");
    assert_eq!(variants[1], "测a");
}

#[test]
fn last_variant_is_the_text_process_result() {
    let reg = registry();
    for text in ["~測~Ａ~", "西安!", "", "測試"] {
        for bits in [0x01u8, 0x02, 0x06, 0x0E, 0x1E, 0x3A, 0x7F] {
            let pt = ProcessType::from_bits_retain(bits);
            let full = text_process(&reg, pt, text);
            assert_eq!(reduce_text_process(&reg, pt, text).last().unwrap(), &full);
            assert_eq!(reduce_text_process_emit(&reg, pt, text).last().unwrap(), &full);
            assert!(
                reduce_text_process_emit(&reg, pt, text).len()
                    <= reduce_text_process(&reg, pt, text).len()
            );
        }
    }
}

#[test]
fn steps_report_no_change_with_none() {
    let reg = registry();
    let delete = reg.get_transform_step(ProcessType::Delete());
    assert_eq!(delete.apply("a*b", true).as_deref(), Some("ab"));
    assert_eq!(delete.apply("ab", true), None);
    assert!(!delete.is_noop_on_ascii_input());
    let variant_norm = reg.get_transform_step(ProcessType::VariantNorm());
    assert!(variant_norm.is_noop_on_ascii_input());
    assert_eq!(variant_norm.apply("abc", true), None);
    assert_eq!(variant_norm.apply("測", false).as_deref(), Some("测"));
    let raw = reg.get_transform_step(ProcessType::Raw());
    assert!(matches!(raw, TransformStep::Raw));
    assert_eq!(raw.apply("測", false), None);
}

#[test]
fn composite_pipeline_runs_lower_steps_first() {
    let reg = registry();
    let text = "妳！測Ａ西";
    let a = ProcessType::VariantNorm() | ProcessType::Delete();
    let b = ProcessType::Normalize() | ProcessType::Romanize();
    let first = text_process(&reg, a, text);
    let composed = text_process(&reg, b, &first);
    assert_eq!(text_process(&reg, a | b, text), composed);
    assert_eq!(composed, "你测a xi");
}

#[test]
fn emitted_variants_are_picked_from_the_full_list() {
    let reg = registry();
    for pt in [
        ProcessType::VariantNorm() | ProcessType::Normalize(),
        ProcessType::VariantNorm() | ProcessType::Delete() | ProcessType::Normalize(),
        ProcessType::Delete(),
    ] {
        for text in ["妳！測Ａ", "plain", "！"] {
            let full = reduce_text_process(&reg, pt, text);
            let emitted = reduce_text_process_emit(&reg, pt, text);
            let bound = if pt.bits() & ProcessType::Delete().bits() != 0 { 2 } else { 1 };
            assert!(!emitted.is_empty() && emitted.len() <= bound);
            assert_eq!(emitted.last(), full.last());
            let mut from = 0;
            for e in &emitted {
                let at = full[from..].iter().position(|f| f == e).expect("picked in order");
                from += at + 1;
            }
        }
    }
}

#[test]
fn full_record_is_bounded_by_the_non_raw_steps() {
    let reg = registry();
    let pt = ProcessType::Raw() | ProcessType::VariantNorm() | ProcessType::Delete() | ProcessType::Normalize();
    let v = reduce_text_process(&reg, pt, "妳！測Ａ");
    assert!(v.len() <= 1 + 3);
    assert_eq!(v.len(), 4);
    for w in v.windows(2) {
        assert_ne!(w[0], w[1]);
    }
    assert_eq!(v[0], "妳！測Ａ");
    assert_eq!(v[3], text_process(&reg, pt, "妳！測Ａ"));
}

#[test]
fn reduce_text_process_skips_a_step_that_maps_a_char_to_itself() {
    let variant_norm = VariantNormMatcher::from_map(&vec![('測' as u32, '測' as u32)]);
    let delete = delete_matcher("！");
    let normalize = NormalizeMatcher::from_map(&vec![('Ａ' as u32, "a".to_string())]);
    let romanize = RomanizeMatcher::from_map(&romanize_entries(), false);
    let romanize_char = RomanizeMatcher::from_map(&romanize_entries(), true);
    let emoji_norm = RomanizeMatcher::from_map(&vec![('🔥' as u32, "fire".to_string())], false);
    let reg = TransformRegistry::new(variant_norm, delete, normalize, romanize, romanize_char, emoji_norm);
    let pt = ProcessType::VariantNorm() | ProcessType::Delete();
    let v = reduce_text_process(&reg, pt, "測！");
    assert_eq!(v.len(), 2);
    assert_eq!(v[0], "測！");
    assert_eq!(v[1], "測");
    assert_eq!(text_process(&reg, ProcessType::VariantNorm(), "測"), "測");
    assert_eq!(reduce_text_process(&reg, ProcessType::VariantNorm(), "測").len(), 1);
}
