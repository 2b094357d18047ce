use std::collections::HashSet;

use matcher_rs::delete::DeleteMatcher;
use matcher_rs::normalize::NormalizeMatcher;
use matcher_rs::romanize::RomanizeMatcher;
use matcher_rs::variant_norm::VariantNormMatcher;
use matcher_rs::{
    build_process_type_tree, text_process, walk_process_tree, ProcessType, TransformRegistry,
    VariantLog,
};

fn registry() -> TransformRegistry {
    let variant_norm = VariantNormMatcher::from_map(&vec![('妳' as u32, '你' as u32)]);
    let mut bits = vec![0u8; 0x110000 / 8];
    let cp = '！' as usize;
    bits[cp / 8] |= 1 << (cp % 8);
    let delete = DeleteMatcher::new(&bits);
    let normalize = NormalizeMatcher::from_map(&vec![('Ａ' as u32, "a".to_string())]);
    let romanize = RomanizeMatcher::from_map(&vec![('好' as u32, " hao".to_string())], false);
    let romanize_char = RomanizeMatcher::from_map(&vec![('好' as u32, " hao".to_string())], true);
    let emoji_norm = RomanizeMatcher::from_map(&vec![], false);
    TransformRegistry::new(variant_norm, delete, normalize, romanize, romanize_char, emoji_norm)
}

#[test]
fn tree_shares_common_prefixes() {
    let set = vec![
        ProcessType::VariantNorm(),
        ProcessType::VariantNorm() | ProcessType::Delete(),
        ProcessType::VariantNorm() | ProcessType::Delete() | ProcessType::Normalize(),
    ];
    let tree = build_process_type_tree(&set);
    assert_eq!(tree.len(), 4);
    assert_eq!(tree[0].process_type_bit, ProcessType::Raw());
    assert_eq!(tree[0].children, vec![1]);
    assert_eq!(tree[1].process_type_bit, ProcessType::VariantNorm());
    assert_eq!(tree[1].children, vec![2]);
    assert_eq!(tree[2].process_type_bit, ProcessType::Delete());
    assert_eq!(tree[2].children, vec![3]);
    assert_eq!(tree[3].process_type_bit, ProcessType::Normalize());
    assert!(tree[3].children.is_empty());
}

#[test]
fn tree_records_raw_at_the_root() {
    let tree = build_process_type_tree(&vec![ProcessType::Raw()]);
    assert_eq!(tree.len(), 1);
    assert_eq!(tree[0].folded_mask, 1u64 << 1);
    assert_eq!(tree[0].process_type_list, vec![ProcessType::Raw()]);
    let without = build_process_type_tree(&vec![ProcessType::Delete()]);
    assert_eq!(without[0].folded_mask, 0);
    assert_eq!(without.len(), 2);
    assert_eq!(without[1].folded_mask, 1u64 << 4);
}

#[test]
fn raw_bit_of_a_composite_is_skipped_at_the_root() {
    let tree = build_process_type_tree(&vec![ProcessType::Raw() | ProcessType::Delete()]);
    assert_eq!(tree.len(), 2);
    assert_eq!(tree[0].folded_mask, 0);
    assert_eq!(tree[1].process_type_bit, ProcessType::Delete());
    assert_eq!(tree[1].folded_mask, 1u64 << 5);
}

#[test]
fn walk_of_raw_only_tree_yields_the_input() {
    let reg = registry();
    let tree = build_process_type_tree(&vec![ProcessType::Raw()]);
    let variants = walk_process_tree(&reg, &tree, "hello");
    assert_eq!(variants.len(), 1);
    assert_eq!(variants[0].text, "hello");
    assert!(variants[0].is_ascii);
    assert_eq!(variants[0].mask, 1u64 << 1);
}

#[test]
fn walk_yields_each_distinct_variant_once() {
    let reg = registry();
    let set = vec![
        ProcessType::Raw(),
        ProcessType::VariantNorm(),
        ProcessType::Delete(),
        ProcessType::VariantNorm() | ProcessType::Delete(),
    ];
    let tree = build_process_type_tree(&set);
    let variants = walk_process_tree(&reg, &tree, "妳！好");
    let texts: HashSet<String> = variants.iter().map(|v| v.text.to_string()).collect();
    assert_eq!(variants.len(), 4);
    assert_eq!(texts.len(), 4);
    assert!(texts.contains("妳！好"));
    assert!(texts.contains("你！好"));
    assert!(texts.contains("妳好"));
    assert!(texts.contains("你好"));
    assert!(variants.iter().all(|v| !v.is_ascii));
}

#[test]
fn walk_merges_masks_of_equal_texts() {
    let reg = registry();
    let set = vec![ProcessType::Raw(), ProcessType::VariantNorm(), ProcessType::Delete()];
    let tree = build_process_type_tree(&set);
    let variants = walk_process_tree(&reg, &tree, "hello");
    assert_eq!(variants.len(), 1);
    assert_eq!(variants[0].mask, (1u64 << 1) | (1u64 << 2) | (1u64 << 4));
}

#[test]
fn walk_holds_each_pipeline_result_with_its_bit() {
    let reg = registry();
    let set = vec![
        ProcessType::Raw(),
        ProcessType::VariantNorm() | ProcessType::Delete(),
        ProcessType::VariantNorm() | ProcessType::Romanize(),
        ProcessType::Delete() | ProcessType::RomanizeChar(),
        ProcessType::Raw() | ProcessType::Normalize(),
    ];
    let tree = build_process_type_tree(&set);
    for text in ["妳！好Ａ", "plain", ""] {
        let variants = walk_process_tree(&reg, &tree, text);
        for pt in &set {
            let expected = text_process(&reg, *pt, text);
            let bit = 1u64 << (pt.bits() % 64);
            assert!(
                variants.iter().any(|v| v.text == expected && v.mask & bit != 0),
                "missing {:?} for {:?}",
                expected,
                text
            );
        }
    }
}

#[test]
fn masks_can_be_reindexed() {
    let set = vec![ProcessType::Raw(), ProcessType::Delete(), ProcessType::Delete() | ProcessType::Normalize()];
    let mut tree = build_process_type_tree(&set);
    let mut table = [0u8; 64];
    table[0x01] = 0;
    table[0x04] = 1;
    table[0x0C] = 2;
    for node in tree.iter_mut() {
        node.recompute_mask_with_index(&table);
    }
    assert_eq!(tree[0].folded_mask, 0b001);
    assert_eq!(tree[1].folded_mask, 0b010);
    assert_eq!(tree[2].folded_mask, 0b100);
}

#[test]
fn tree_records_each_type_where_its_path_ends() {
    let vn = ProcessType::VariantNorm();
    let vd = ProcessType::VariantNorm() | ProcessType::Delete();
    let vdn = ProcessType::VariantNorm() | ProcessType::Delete() | ProcessType::Normalize();
    let tree = build_process_type_tree(&vec![vn, vd, vdn]);
    let b = |p: ProcessType| 1u64 << p.bits();
    assert_eq!(tree[0].folded_mask, 0);
    assert_eq!(tree[1].folded_mask, b(vn));
    assert_eq!(tree[2].folded_mask, b(vd));
    assert_eq!(tree[3].folded_mask, b(vdn));
    assert_eq!(tree[1].process_type_list, vec![vn]);
    assert_eq!(tree[2].process_type_list, vec![vd]);
    assert_eq!(tree[3].process_type_list, vec![vdn]);
}

#[test]
fn tree_without_a_type_ending_at_a_node_leaves_it_unrecorded() {
    let vdn = ProcessType::VariantNorm() | ProcessType::Delete() | ProcessType::Normalize();
    let tree = build_process_type_tree(&vec![vdn]);
    assert_eq!(tree.len(), 4);
    assert!(tree[1].process_type_list.is_empty());
    assert!(tree[2].process_type_list.is_empty());
    assert_eq!(tree[1].folded_mask, 0);
    assert_eq!(tree[2].folded_mask, 0);
    assert_eq!(tree[3].folded_mask, 1u64 << vdn.bits());
}

#[test]
fn walk_tags_a_variant_only_with_pipelines_that_make_it() {
    let reg = registry();
    let vd = ProcessType::VariantNorm() | ProcessType::Delete();
    let tree = build_process_type_tree(&vec![vd]);
    let variants = walk_process_tree(&reg, &tree, "妳！好");
    let bit = 1u64 << vd.bits();
    for v in &variants {
        if v.mask & bit != 0 {
            assert_eq!(v.text, "你好");
        }
    }
    assert!(variants.iter().any(|v| v.text == "你好" && v.mask & bit != 0));
    assert!(variants.iter().any(|v| v.text == "你！好" && v.mask == 0));
}

#[test]
fn lazy_walk_shows_each_variant_and_matches_the_full_walk() {
    let reg = registry();
    let set = vec![
        ProcessType::Raw(),
        ProcessType::VariantNorm(),
        ProcessType::Delete(),
        ProcessType::VariantNorm() | ProcessType::Delete(),
    ];
    let tree = build_process_type_tree(&set);
    let full = walk_process_tree(&reg, &tree, "妳！好");
    let mut rec = VariantLog { seen: vec![], stop_at: None };
    let (variants, stopped) = matcher_rs::walk_process_tree_lazy(&reg, &tree, "妳！好", &mut rec);
    assert!(!stopped);
    assert_eq!(variants.len(), full.len());
    for (a, b) in variants.iter().zip(full.iter()) {
        assert_eq!(a.text, b.text);
        assert_eq!(a.mask, b.mask);
    }
    assert_eq!(rec.seen.len(), 4);
    assert_eq!(rec.seen[0].0, "妳！好");
}

#[test]
fn lazy_walk_stops_when_the_visitor_asks() {
    let reg = registry();
    let set = vec![ProcessType::Raw(), ProcessType::VariantNorm(), ProcessType::Delete()];
    let tree = build_process_type_tree(&set);
    let mut rec = VariantLog { seen: vec![], stop_at: Some(1) };
    let (variants, stopped) = matcher_rs::walk_process_tree_lazy(&reg, &tree, "妳！好", &mut rec);
    assert!(stopped);
    assert_eq!(rec.seen.len(), 1);
    assert_eq!(variants.len(), 1);
    assert_eq!(variants[0].text, "妳！好");
}

#[test]
fn lazy_walk_reports_grown_masks_at_the_end() {
    let reg = registry();
    let set = vec![ProcessType::Raw(), ProcessType::VariantNorm()];
    let tree = build_process_type_tree(&set);
    let mut rec = VariantLog { seen: vec![], stop_at: None };
    let (variants, stopped) = matcher_rs::walk_process_tree_lazy(&reg, &tree, "hello", &mut rec);
    assert!(!stopped);
    assert_eq!(variants.len(), 1);
    assert_eq!(
        rec.seen,
        vec![("hello".to_string(), 0, 1u64 << 1, true), ("hello".to_string(), 0, 1u64 << 2, true)]
    );
}

#[test]
fn lazy_walk_shows_every_mask_bit_exactly_once() {
    let reg = registry();
    let set = vec![
        ProcessType::Raw(),
        ProcessType::VariantNorm(),
        ProcessType::Delete(),
        ProcessType::VariantNorm() | ProcessType::Delete(),
    ];
    let tree = build_process_type_tree(&set);
    let mut rec = VariantLog { seen: vec![], stop_at: None };
    let (variants, stopped) = matcher_rs::walk_process_tree_lazy(&reg, &tree, "妳！好", &mut rec);
    assert!(!stopped);
    for (i, v) in variants.iter().enumerate() {
        let mut union = 0u64;
        for (text, index, mask, is_ascii) in rec.seen.iter() {
            if *index == i {
                assert_ne!(*mask, 0);
                assert_eq!(union & mask, 0);
                assert_eq!(*text, v.text);
                assert_eq!(*is_ascii, v.is_ascii);
                union |= mask;
            }
        }
        assert_eq!(union, v.mask);
    }
    let descents = rec.seen.windows(2).filter(|w| w[1].1 <= w[0].1).count();
    assert!(descents <= 1);
}
