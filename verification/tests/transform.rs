use matcher_rs::delete::DeleteMatcher;
use matcher_rs::normalize::NormalizeMatcher;
use matcher_rs::romanize::RomanizeMatcher;
use matcher_rs::variant_norm::VariantNormMatcher;

fn variant_norm() -> VariantNormMatcher {
    let pairs: Vec<(u32, u32)> = vec![
        ('國' as u32, '国' as u32),
        ('際' as u32, '际' as u32),
        ('經' as u32, '经' as u32),
        ('濟' as u32, '济' as u32),
        ('東' as u32, '东' as u32),
    ];
    VariantNormMatcher::from_map(&pairs)
}

fn romanize_entries() -> Vec<(u32, String)> {
    vec![
        ('中' as u32, " zhong".to_string()),
        ('文' as u32, " wen".to_string()),
        ('西' as u32, " xi".to_string()),
        ('安' as u32, " an".to_string()),
    ]
}

fn pinyin() -> RomanizeMatcher {
    RomanizeMatcher::from_map(&romanize_entries(), false)
}

fn pinyin_char() -> RomanizeMatcher {
    RomanizeMatcher::from_map(&romanize_entries(), true)
}

fn normalize_matcher() -> NormalizeMatcher {
    let entries: Vec<(u32, String)> = vec![
        ('Ａ' as u32, "a".to_string()),
        ('Ｂ' as u32, "b".to_string()),
        ('Ｃ' as u32, "c".to_string()),
        ('１' as u32, "1".to_string()),
        ('２' as u32, "2".to_string()),
        ('３' as u32, "3".to_string()),
        ('①' as u32, "1".to_string()),
        ('②' as u32, "2".to_string()),
        ('③' as u32, "3".to_string()),
        ('H' as u32, "h".to_string()),
        ('W' as u32, "w".to_string()),
    ];
    NormalizeMatcher::from_map(&entries)
}

fn delete_matcher(deleted: &str) -> DeleteMatcher {
    let mut bits = vec![0u8; 0x110000 / 8];
    for c in deleted.chars() {
        let cp = c as usize;
        bits[cp / 8] |= 1 << (cp % 8);
    }
    DeleteMatcher::new(&bits)
}

fn assert_variant_norm_stream(m: &VariantNormMatcher, text: &str) {
    let materialized: Vec<u8> = match m.replace(text) {
        Some(s) => s.into_bytes(),
        None => text.as_bytes().to_vec(),
    };
    let mut it = m.filter_bytes(text);
    let mut streamed = Vec::new();
    while let Some(b) = it.next() {
        streamed.push(b);
    }
    assert_eq!(materialized, streamed, "variant norm mismatch for: {:?}", text);
}

fn assert_romanize_stream(m: &RomanizeMatcher, text: &str) {
    let materialized: Vec<u8> = match m.replace(text) {
        Some(s) => s.into_bytes(),
        None => text.as_bytes().to_vec(),
    };
    let mut it = m.filter_bytes(text);
    let mut streamed = Vec::new();
    while let Some(b) = it.next() {
        streamed.push(b);
    }
    assert_eq!(materialized, streamed, "romanize mismatch for: {:?}", text);
}

fn assert_normalize_stream(m: &NormalizeMatcher, text: &str) {
    let materialized: Vec<u8> = match m.replace(text) {
        Some((s, _)) => s.into_bytes(),
        None => text.as_bytes().to_vec(),
    };
    let mut it = m.filter_bytes(text);
    let mut streamed = Vec::new();
    while let Some(b) = it.next() {
        streamed.push(b);
    }
    assert_eq!(materialized, streamed, "normalize mismatch for: {:?}", text);
}

fn delete_stream(m: &DeleteMatcher, text: &str) -> Vec<u8> {
    let mut it = m.filter_bytes(text);
    let mut streamed = Vec::new();
    while let Some(b) = it.next() {
        streamed.push(b);
    }
    streamed
}

#[test]
fn fanjian_byte_iter_matches_replace() {
    let m = variant_norm();
    for text in ["", "hello", "國際經濟", "abc東def國", "a", "東"] {
        assert_variant_norm_stream(&m, text);
    }
}

#[test]
fn pinyin_byte_iter_matches_replace() {
    let m = pinyin();
    for text in ["", "hello", "中文", "abc中def文", "a", "中"] {
        assert_romanize_stream(&m, text);
    }
}

#[test]
fn pinyin_char_byte_iter_matches_replace() {
    let m = pinyin_char();
    for text in ["", "hello", "中文", "abc中def文"] {
        assert_romanize_stream(&m, text);
    }
}

#[test]
fn normalize_byte_iter_matches_replace() {
    let m = normalize_matcher();
    for text in ["", "hello", "ＡＢＣ", "abc１２３def", "①②③"] {
        assert_normalize_stream(&m, text);
    }
}

#[test]
fn variant_norm_replaces_traditional_characters() {
    let m = variant_norm();
    assert_eq!(m.replace("國際經濟").as_deref(), Some("国际经济"));
    assert_eq!(m.replace("abc東def國").as_deref(), Some("abc东def国"));
    assert_eq!(m.replace("hello"), None);
    assert_eq!(m.replace(""), None);
    assert_eq!(m.replace("国"), None);
}

#[test]
fn romanize_keeps_syllable_spaces() {
    let m = pinyin();
    assert_eq!(m.replace("西安").as_deref(), Some(" xi an"));
    assert_eq!(m.replace("abc中def文").as_deref(), Some("abc zhongdef wen"));
    assert_eq!(m.replace("hello"), None);
}

#[test]
fn romanize_char_trims_syllable_spaces() {
    let m = pinyin_char();
    assert_eq!(m.replace("西安").as_deref(), Some("xian"));
    assert_eq!(m.replace("中文").as_deref(), Some("zhongwen"));
}

#[test]
fn normalize_folds_full_width_and_uppercase() {
    let m = normalize_matcher();
    assert_eq!(m.replace("ＡＢＣ"), Some(("abc".to_string(), true)));
    assert_eq!(m.replace("abc１２３def"), Some(("abc123def".to_string(), true)));
    assert_eq!(m.replace("Hello World"), Some(("hello world".to_string(), true)));
    assert_eq!(m.replace("hello"), None);
    assert_eq!(m.replace("Ａ中"), Some(("a中".to_string(), false)));
    let greek = NormalizeMatcher::from_map(&vec![
        ('Ａ' as u32, "a".to_string()),
        ('Ｂ' as u32, "β".to_string()),
    ]);
    assert_eq!(greek.replace("Ａ"), Some(("a".to_string(), true)));
    assert_eq!(greek.replace("Ｂ"), Some(("β".to_string(), false)));
}

#[test]
fn delete_removes_configured_characters() {
    let m = delete_matcher("*&^%");
    assert_eq!(m.delete("*Fu&*iii&^%%*&kkkk").as_deref(), Some("Fuiiikkkk"));
    assert_eq!(m.delete("clean"), None);
    assert_eq!(m.delete(""), None);
    assert_eq!(m.delete("****").as_deref(), Some(""));
}

#[test]
fn delete_handles_non_ascii_characters() {
    let m = delete_matcher("！～");
    assert_eq!(m.delete("測！試～").as_deref(), Some("測試"));
    assert!(m.has_deletable("a！"));
    assert!(!m.has_deletable("a!"));
}

#[test]
fn delete_stream_matches_delete() {
    let m = delete_matcher("*&！");
    for text in ["", "abc", "*a*b*", "測！試", "&&&"] {
        let materialized: Vec<u8> = match m.delete(text) {
            Some(s) => s.into_bytes(),
            None => text.as_bytes().to_vec(),
        };
        assert_eq!(materialized, delete_stream(&m, text), "delete mismatch for: {:?}", text);
    }
}

#[test]
fn delete_with_short_bitset_keeps_codepoints_past_its_end() {
    let mut bits = vec![0u8; 8];
    bits[(b'!' as usize) / 8] |= 1 << (b'!' % 8);
    let m = DeleteMatcher::new(&bits);
    assert_eq!(m.delete("a!b").as_deref(), Some("ab"));
    assert_eq!(m.delete("a~b"), None);
    assert_eq!(m.delete("中!"), Some("中".to_string()));
}
