use matcher_rs::delete::DeleteMatcher;
use matcher_rs::source_map::{
    delete_bitset_from_sources, normalize_entries, parse_char_map, parse_string_map, WHITE_SPACE,
};
use matcher_rs::{text_process, ProcessType, TransformRegistry};

fn cp(c: char) -> u32 {
    c as u32
}

#[test]
fn char_map_takes_first_chars_and_skips_identities() {
    let parsed = parse_char_map("國\t国\n語言\t语言\n中\t中\n").unwrap();
    assert_eq!(parsed, vec![(cp('國'), cp('国')), (cp('語'), cp('语'))]);
}

#[test]
fn char_map_trims_the_text_and_drops_carriage_returns() {
    let parsed = parse_char_map("  \n國\t国\r\n語\t语\r\n\n ").unwrap();
    assert_eq!(parsed, vec![(cp('國'), cp('国')), (cp('語'), cp('语'))]);
    assert_eq!(parse_char_map(""), Some(vec![]));
    assert_eq!(parse_char_map(" \n\t "), Some(vec![]));
}

#[test]
fn char_map_rejects_malformed_lines() {
    assert_eq!(parse_char_map("國国"), None);
    assert_eq!(parse_char_map("國\t\t国"), None);
    assert_eq!(parse_char_map("\t国\n國\t国"), None);
    assert_eq!(parse_char_map("國\t国\n\n語\t语"), None);
}

#[test]
fn string_map_keeps_whole_values() {
    let parsed = parse_string_map("中\t zhong\n文\t wen\t extra").unwrap();
    assert_eq!(
        parsed,
        vec![(cp('中'), " zhong".to_string()), (cp('文'), " wen".to_string())]
    );
    let with_empty = parse_string_map("a\t\nb\tx").unwrap();
    assert_eq!(with_empty, vec![(cp('a'), String::new()), (cp('b'), "x".to_string())]);
    assert_eq!(parse_string_map("a\t"), None);
    assert_eq!(parse_string_map("ab"), None);
}

#[test]
fn normalize_entries_let_later_maps_override_and_drop_identities() {
    let entries = normalize_entries("Ａ\ta\nＢ\tb\n１\t1", "Ａ\tＡ\n１\tone").unwrap();
    assert_eq!(
        entries,
        vec![(cp('Ｂ'), "b".to_string()), (cp('１'), "1".to_string()), (cp('１'), "one".to_string())]
    );
    let kept = normalize_entries("Ａ\tＡ", "Ａ\ta").unwrap();
    assert_eq!(kept, vec![(cp('Ａ'), "a".to_string())]);
    assert_eq!(normalize_entries("Ａ", ""), None);
    assert_eq!(normalize_entries("", "Ａ"), None);
}

#[test]
fn delete_bitset_marks_source_and_white_space_characters() {
    let bits = delete_bitset_from_sources("！～\n。", &[" ", "\u{3000}"]);
    let with_list = delete_bitset_from_sources("", &WHITE_SPACE);
    assert!(with_list[0x3000 / 8] & (1 << (0x3000 % 8)) != 0);
    assert!(with_list[0x200D / 8] & (1 << (0x200D % 8)) != 0);
    assert!(with_list[b'a' as usize / 8] & (1 << (b'a' % 8)) == 0);
    assert_eq!(bits.len(), 0x110000 / 8);
    let m = DeleteMatcher::new(&bits);
    assert_eq!(m.delete("a！b～c。d e\u{3000}f"), Some("abcdef".to_string()));
    assert_eq!(m.delete("abc"), None);
    let has = |c: char| bits[c as usize / 8] & (1 << (c as usize % 8)) != 0;
    assert!(has('！') && has('～') && has('。') && has(' ') && has('\u{3000}'));
    assert!(!has('\n') && !has('a'));
}

#[test]
fn registry_from_sources_builds_every_engine() {
    let reg = TransformRegistry::from_sources(
        "妳\t你\n們\t们",
        "！",
        "Ａ\ta",
        "１\t1",
        "好\t hao \n中\t zhong ",
        "🔥\t fire\n\u{FE0F}\t\n😀\t smile",
    )
    .unwrap();
    assert_eq!(text_process(&reg, ProcessType::VariantNorm(), "妳們好"), "你们好");
    assert_eq!(text_process(&reg, ProcessType::Delete(), "妳！ 好"), "妳好");
    assert_eq!(text_process(&reg, ProcessType::Normalize(), "Ａ１"), "a1");
    // The whole map is trimmed, so the last value loses its trailing space.
    assert_eq!(text_process(&reg, ProcessType::Romanize(), "中好"), " zhong hao ");
    assert_eq!(text_process(&reg, ProcessType::RomanizeChar(), "中好"), "zhonghao");
    assert_eq!(text_process(&reg, ProcessType::EmojiNorm(), "中好"), "中好");
    assert_eq!(text_process(&reg, ProcessType::EmojiNorm(), "hot🔥\u{FE0F}😀"), "hot fire smile");
}

#[test]
fn registry_from_sources_refuses_malformed_maps() {
    assert!(TransformRegistry::from_sources("妳", "", "", "", "", "").is_none());
    assert!(TransformRegistry::from_sources("", "", "Ａ", "", "", "").is_none());
    assert!(TransformRegistry::from_sources("", "", "", "", "好", "").is_none());
    let long = format!("好\t{}", "x".repeat(300));
    assert!(TransformRegistry::from_sources("", "", "", "", &long, "").is_none());
    assert!(TransformRegistry::from_sources("", "", "", "", "", "🔥").is_none());
    assert!(TransformRegistry::from_sources("", "", "", "", "", "").is_some());
}
