//! CJK variant normalization via page-table lookup.
//!
//! Maps Chinese Traditional to Simplified, Japanese Kyujitai to Shinjitai and
//! half-width katakana to full-width through one two-stage page table whose
//! L2 entries are the normalized codepoints. All keys are non-ASCII, so ASCII
//! runs are skipped and always kept.
use vstd::prelude::*;
use vstd::utf8::is_scalar;

use crate::filter::{
    filter_changes, filter_chars, filter_replace, CodepointFilter, FilterAction, FilterIterator,
};
use crate::page_table::{
    build_2_stage_table, decode_page_table, le_u16, le_u32, page_table_lookup, spec_lookup,
    entries_value,
};

verus! {

/// Two-stage page-table matcher for CJK variant normalization.
pub struct VariantNormMatcher {
    /// L1 page index.
    pub l1: Vec<u16>,
    /// L2 data: the normalized codepoint, or zero.
    pub l2: Vec<u32>,
    /// Empty replacement buffer: this matcher only replaces by codepoint.
    pub strings: Vec<u8>,
}

/// The action for `cp` under tables `l1`/`l2`: a non-ASCII codepoint whose
/// entry is a different Unicode scalar is replaced by it; everything else is
/// kept.
pub open spec fn variant_norm_action(l1: Seq<u16>, l2: Seq<u32>, cp: u32) -> FilterAction {
    if cp < 0x80 {
        FilterAction::Keep
    } else {
        match spec_lookup(l1, l2, cp) {
            Some(v) => if v != cp && is_scalar(v) {
                FilterAction::ReplaceCodepoint(v)
            } else {
                FilterAction::Keep
            },
            None => FilterAction::Keep,
        }
    }
}

impl CodepointFilter for VariantNormMatcher {
    open spec fn spec_buffer(&self) -> Seq<u8> {
        self.strings@
    }

    open spec fn spec_action(&self, cp: u32) -> FilterAction {
        variant_norm_action(self.l1@, self.l2@, cp)
    }

    open spec fn spec_keeps_ascii(&self) -> bool {
        true
    }

    fn buffer(&self) -> (r: &[u8]) {
        self.strings.as_slice()
    }

    fn keeps_ascii(&self) -> (r: bool) {
        true
    }

    fn filter_ascii(&self, byte: u8) -> (r: FilterAction) {
        FilterAction::Keep
    }

    fn filter_codepoint(&self, cp: u32) -> (r: FilterAction) {
        match page_table_lookup(cp, self.l1.as_slice(), self.l2.as_slice()) {
            Some(mapped) => {
                if mapped != cp && mapped <= 0x10FFFF && !(0xD800 <= mapped && mapped <= 0xDFFF) {
                    FilterAction::ReplaceCodepoint(mapped)
                } else {
                    FilterAction::Keep
                }
            },
            None => FilterAction::Keep,
        }
    }

    proof fn lemma_action_wf(&self, cp: u32) {
    }
}

impl VariantNormMatcher {
    /// Replaces CJK variant codepoints with their normalized equivalents.
    /// Returns `None` when `text` contains no variant character.
    pub fn replace(&self, text: &str) -> (r: Option<String>)
        ensures
            r is None <==> !filter_changes(self, text@),
            r matches Some(s) ==> s@ == filter_chars(self, text@),
    {
        filter_replace(self, text)
    }

    /// Streams the UTF-8 bytes of the variant-normalized form of `text`.
    pub fn filter_bytes<'a>(&'a self, text: &'a str) -> (r: FilterIterator<'a, VariantNormMatcher>)
        ensures
            r.wf(),
            r.filter == self,
            r.chars@ == text@,
            r.produced@ == Seq::<u8>::empty(),
    {
        FilterIterator::new(text, self)
    }

    /// Decodes the L1/L2 page tables from little-endian bytes.
    pub fn new(l1: &[u8], l2: &[u8]) -> (r: Self)
        ensures
            r.l1@.len() == l1@.len() / 2,
            forall|i: int| 0 <= i < r.l1@.len() ==> r.l1@[i] == le_u16(l1@[2 * i], l1@[2 * i + 1]),
            r.l2@.len() == l2@.len() / 4,
            forall|i: int|
                0 <= i < r.l2@.len() ==> r.l2@[i] == le_u32(
                    l2@[4 * i],
                    l2@[4 * i + 1],
                    l2@[4 * i + 2],
                    l2@[4 * i + 3],
                ),
            r.strings@.len() == 0,
    {
        let (l1, l2) = decode_page_table(l1, l2);
        VariantNormMatcher { l1, l2, strings: Vec::new() }
    }

    /// Builds the page tables from `(codepoint, normalized codepoint)` entries;
    /// for a repeated codepoint the last entry wins.
    pub fn from_map(entries: &Vec<(u32, u32)>) -> (r: Self)
        requires
            forall|i: int| 0 <= i < entries@.len() ==> #[trigger] entries@[i].0 <= 0x10FFFF,
        ensures
            forall|cp: u32|
                #![trigger spec_lookup(r.l1@, r.l2@, cp)]
                spec_lookup(r.l1@, r.l2@, cp) == if entries_value(entries@, cp) == 0 {
                    None
                } else {
                    Some(entries_value(entries@, cp))
                },
            r.strings@.len() == 0,
    {
        let (l1, l2) = build_2_stage_table(entries);
        VariantNormMatcher { l1, l2, strings: Vec::new() }
    }
}

} // verus!
