use matcher_rs::ProcessType;

#[test]
fn flags_have_their_documented_bits() {
    assert_eq!(ProcessType::Raw().bits(), 0x01);
    assert_eq!(ProcessType::VariantNorm().bits(), 0x02);
    assert_eq!(ProcessType::Delete().bits(), 0x04);
    assert_eq!(ProcessType::Normalize().bits(), 0x08);
    assert_eq!(ProcessType::DeleteNormalize().bits(), 0x0C);
    assert_eq!(ProcessType::VariantNormDeleteNormalize().bits(), 0x0E);
    assert_eq!(ProcessType::Romanize().bits(), 0x10);
    assert_eq!(ProcessType::RomanizeChar().bits(), 0x20);
    assert_eq!(ProcessType::EmojiNorm().bits(), 0x40);
    assert_eq!(ProcessType::empty().bits(), 0);
    assert_eq!(ProcessType::default().bits(), 0);
}

#[test]
fn flags_compose_with_or() {
    let combined = ProcessType::VariantNorm() | ProcessType::Delete();
    assert!(combined.contains(ProcessType::VariantNorm()));
    assert!(combined.contains(ProcessType::Delete()));
    assert!(!combined.contains(ProcessType::Normalize()));
    assert_eq!(
        ProcessType::VariantNormDeleteNormalize(),
        ProcessType::VariantNorm() | ProcessType::Delete() | ProcessType::Normalize()
    );
    assert_eq!(ProcessType::Delete().union(ProcessType::Normalize()), ProcessType::DeleteNormalize());
}

#[test]
fn iter_yields_single_bits_in_ascending_order() {
    let combined = ProcessType::VariantNorm() | ProcessType::Delete();
    assert_eq!(combined.iter(), vec![ProcessType::VariantNorm(), ProcessType::Delete()]);
    let all = ProcessType::from_bits_retain(0x7F);
    let bits: Vec<u8> = all.iter().iter().map(|p| p.bits()).collect();
    assert_eq!(bits, vec![0x01, 0x02, 0x04, 0x08, 0x10, 0x20, 0x40]);
    assert!(ProcessType::empty().iter().is_empty());
}

#[test]
fn bits_round_trip() {
    let combined = ProcessType::VariantNorm() | ProcessType::Delete();
    assert_eq!(ProcessType::from_bits_retain(combined.bits()), combined);
    assert_eq!(ProcessType::from_bits(combined.bits()), Some(combined));
    assert_eq!(ProcessType::from_bits(0x80), None);
    assert_eq!(ProcessType::from_bits_retain(0x80).bits(), 0x80);
}

#[test]
fn raw_is_dropped_when_combined() {
    let raw_and_deleted = ProcessType::Raw() | ProcessType::Delete();
    assert!(raw_and_deleted.contains(ProcessType::Raw()));
    assert_eq!(raw_and_deleted.normalize(), ProcessType::Delete());
    assert_eq!(ProcessType::Raw().normalize(), ProcessType::Raw());
    assert_eq!(ProcessType::empty().normalize(), ProcessType::empty());
}

#[test]
fn display_names_join_flag_names() {
    assert_eq!(ProcessType::Raw().to_string(), "none");
    assert_eq!((ProcessType::VariantNorm() | ProcessType::Delete()).to_string(), "variant_norm_delete");
    assert_eq!(ProcessType::VariantNormDeleteNormalize().to_string(), "variant_norm_delete_normalize");
    assert_eq!(ProcessType::empty().to_string(), "");
    assert_eq!(ProcessType::RomanizeChar().to_string(), "romanize_char");
    assert_eq!(ProcessType::EmojiNorm().to_string(), "emoji_norm");
    assert_eq!((ProcessType::Normalize() | ProcessType::EmojiNorm()).to_string(), "normalize_emoji_norm");
    assert_eq!(ProcessType::from_bits_retain(0x81).to_string(), "none");
}

#[test]
fn is_empty_only_without_bits() {
    assert!(ProcessType::empty().is_empty());
    assert!(!ProcessType::Raw().is_empty());
}
