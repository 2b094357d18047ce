//! Unicode normalization (NFKC with case folding) via page-table lookup.
//!
//! The tables use the packed `(byte_offset << 8) | byte_length` layout of
//! [`crate::romanize`]. Uppercase ASCII letters have case-folded mappings, so
//! ASCII bytes cannot be skipped: each uppercase letter is looked up, every
//! other ASCII byte is kept.
use vstd::prelude::*;
use vstd::utf8::{encode_utf8, is_ascii_chars};

use crate::filter::{
    filter_changes, filter_chars, filter_replace, CodepointFilter, FilterAction, FilterIterator,
};
use crate::page_table::{
    build_2_stage_table, decode_page_table, entries_value, le_u16, le_u32, page_table_lookup,
    spec_slot, unpack_str_ref,
};
use crate::romanize::{
    concat_values, entries_view, lemma_packed_action_wf, pack_string_entries, packed_action,
    packed_entries,
};

verus! {

/// Whether `cp` is an uppercase ASCII letter.
pub open spec fn is_ascii_upper(cp: u32) -> bool {
    0x41 <= cp <= 0x5A
}

/// Two-stage page-table matcher for Unicode normalization.
pub struct NormalizeMatcher {
    /// L1 page index.
    pub l1: Vec<u16>,
    /// L2 data: packed references into `strings`, or zero.
    pub l2: Vec<u32>,
    /// All normalized forms, concatenated.
    pub strings: String,
}

impl NormalizeMatcher {
    /// Looks `cp` up and resolves its packed reference.
    fn lookup(&self, cp: u32) -> (r: FilterAction)
        ensures
            r == packed_action(self.l1@, self.l2@, encode_utf8(self.strings@), cp),
    {
        match page_table_lookup(cp, self.l1.as_slice(), self.l2.as_slice()) {
            Some(value) => match unpack_str_ref(value, self.strings.as_str()) {
                Some((s, e)) => FilterAction::ReplaceRange(s, e),
                None => FilterAction::Keep,
            },
            None => FilterAction::Keep,
        }
    }
}

impl CodepointFilter for NormalizeMatcher {
    open spec fn spec_buffer(&self) -> Seq<u8> {
        encode_utf8(self.strings@)
    }

    open spec fn spec_action(&self, cp: u32) -> FilterAction {
        if cp < 0x80 && !is_ascii_upper(cp) {
            FilterAction::Keep
        } else {
            packed_action(self.l1@, self.l2@, encode_utf8(self.strings@), cp)
        }
    }

    open spec fn spec_keeps_ascii(&self) -> bool {
        false
    }

    fn buffer(&self) -> (r: &[u8]) {
        self.strings.as_str().as_bytes()
    }

    fn keeps_ascii(&self) -> (r: bool) {
        false
    }

    fn filter_ascii(&self, byte: u8) -> (r: FilterAction) {
        if 0x41u8 <= byte && byte <= 0x5Au8 {
            self.lookup(byte as u32)
        } else {
            FilterAction::Keep
        }
    }

    fn filter_codepoint(&self, cp: u32) -> (r: FilterAction) {
        self.lookup(cp)
    }

    proof fn lemma_action_wf(&self, cp: u32) {
        lemma_packed_action_wf(self.l1@, self.l2@, self.strings@, cp);
    }
}

impl NormalizeMatcher {
    /// Replaces every normalizable character (uppercase ASCII letters
    /// included) with its normalized form. Returns `None` when `text` holds no
    /// normalizable character; otherwise the normalized text and whether it
    /// is all ASCII.
    pub fn replace(&self, text: &str) -> (r: Option<(String, bool)>)
        ensures
            r is None <==> !filter_changes(self, text@),
            r matches Some((s, a)) ==> s@ == filter_chars(self, text@) && a == is_ascii_chars(s@),
    {
        match filter_replace(self, text) {
            Some(s) => {
                let a = s.as_str().is_ascii();
                Some((s, a))
            },
            None => None,
        }
    }

    /// Streams the UTF-8 bytes of the normalized form of `text`.
    pub fn filter_bytes<'a>(&'a self, text: &'a str) -> (r: FilterIterator<'a, NormalizeMatcher>)
        ensures
            r.wf(),
            r.filter == self,
            r.chars@ == text@,
            r.produced@ == Seq::<u8>::empty(),
    {
        FilterIterator::new(text, self)
    }

    /// Decodes the page tables from little-endian bytes.
    pub fn new(l1: &[u8], l2: &[u8], strings: &str) -> (r: Self)
        ensures
            r.strings@ == strings@,
            r.l1@.len() == l1@.len() / 2,
            forall|i: int| 0 <= i < r.l1@.len() ==> r.l1@[i] == le_u16(l1@[2 * i], l1@[2 * i + 1]),
            r.l2@.len() == l2@.len() / 4,
            forall|i: int|
                0 <= i < r.l2@.len() ==> r.l2@[i] == le_u32(
                    l2@[4 * i],
                    l2@[4 * i + 1],
                    l2@[4 * i + 2],
                    l2@[4 * i + 3],
                ),
    {
        let (l1, l2) = decode_page_table(l1, l2);
        NormalizeMatcher { l1, l2, strings: strings.to_owned() }
    }

    /// Builds the tables from `(codepoint, normalized form)` entries: the
    /// forms are concatenated into the string buffer and each entry references
    /// its own. For a repeated codepoint the last entry wins.
    pub fn from_map(entries: &Vec<(u32, String)>) -> (r: Self)
        requires
            forall|i: int| 0 <= i < entries@.len() ==> #[trigger] entries@[i].0 <= 0x10FFFF,
            forall|i: int|
                0 <= i < entries@.len() ==> encode_utf8(#[trigger] entries@[i].1@).len() < 256,
            encode_utf8(concat_values(entries_view(entries@))).len() < 0x1000000,
        ensures
            r.strings@ == concat_values(entries_view(entries@)),
            forall|cp: u32|
                #![trigger spec_slot(r.l1@, r.l2@, cp)]
                cp <= 0x10FFFF ==> spec_slot(r.l1@, r.l2@, cp) == entries_value(
                    packed_entries(entries_view(entries@)),
                    cp,
                ),
    {
        let (strings, packed) = pack_string_entries(entries);
        let (l1, l2) = build_2_stage_table(&packed);
        NormalizeMatcher { l1, l2, strings }
    }
}

} // verus!
