//! CJK romanization (and emoji naming) via page-table lookup.
//!
//! L2 entries pack `(byte_offset << 8) | byte_length` references into one
//! string buffer holding every replacement. Each romanization carries a
//! leading space for word separation; the `RomanizeChar` variant trims the
//! spaces when the tables are loaded. All keys are non-ASCII, so ASCII runs
//! are skipped and always kept.
use vstd::prelude::*;
use vstd::string::StringSliceAdditionalSpecFns;
use vstd::utf8::{encode_utf8, encode_utf8_valid_utf8, is_scalar};

use crate::filter::{
    filter_changes, filter_chars, filter_replace, CodepointFilter, FilterAction, FilterIterator,
};
use crate::page_table::{
    build_2_stage_table, decode_page_table, entries_value, le_u16, le_u32, lemma_unpack_valid,
    page_table_lookup, spec_lookup, spec_slot, spec_trim_packed, spec_unpack,
    trim_romanize_packed, unpack_str_ref,
};

verus! {

/// The action for `cp`: a non-ASCII codepoint whose entry names a valid range
/// of the string buffer `strings` is replaced by that range.
pub open spec fn packed_action(l1: Seq<u16>, l2: Seq<u32>, strings: Seq<u8>, cp: u32) -> FilterAction {
    match spec_lookup(l1, l2, cp) {
        Some(v) => match spec_unpack(v, strings) {
            Some((s, e)) => FilterAction::ReplaceRange(s, e),
            None => FilterAction::Keep,
        },
        None => FilterAction::Keep,
    }
}

/// Every packed action on a valid buffer can be carried out.
pub proof fn lemma_packed_action_wf(l1: Seq<u16>, l2: Seq<u32>, strings: Seq<char>, cp: u32)
    ensures
        crate::filter::action_wf(packed_action(l1, l2, encode_utf8(strings), cp), encode_utf8(strings)),
{
    encode_utf8_valid_utf8(strings);
    if let Some(v) = spec_lookup(l1, l2, cp) {
        if spec_unpack(v, encode_utf8(strings)) is Some {
            lemma_unpack_valid(v, encode_utf8(strings));
        }
    }
}

/// Two-stage page-table matcher for CJK romanization and emoji naming.
pub struct RomanizeMatcher {
    /// L1 page index.
    pub l1: Vec<u16>,
    /// L2 data: packed references into `strings`, or zero.
    pub l2: Vec<u32>,
    /// All replacement strings, concatenated.
    pub strings: String,
}

impl CodepointFilter for RomanizeMatcher {
    open spec fn spec_buffer(&self) -> Seq<u8> {
        encode_utf8(self.strings@)
    }

    open spec fn spec_action(&self, cp: u32) -> FilterAction {
        if cp < 0x80 {
            FilterAction::Keep
        } else {
            packed_action(self.l1@, self.l2@, encode_utf8(self.strings@), cp)
        }
    }

    open spec fn spec_keeps_ascii(&self) -> bool {
        true
    }

    fn buffer(&self) -> (r: &[u8]) {
        self.strings.as_str().as_bytes()
    }

    fn keeps_ascii(&self) -> (r: bool) {
        true
    }

    fn filter_ascii(&self, byte: u8) -> (r: FilterAction) {
        FilterAction::Keep
    }

    fn filter_codepoint(&self, cp: u32) -> (r: FilterAction) {
        match page_table_lookup(cp, self.l1.as_slice(), self.l2.as_slice()) {
            Some(value) => match unpack_str_ref(value, self.strings.as_str()) {
                Some((s, e)) => FilterAction::ReplaceRange(s, e),
                None => FilterAction::Keep,
            },
            None => FilterAction::Keep,
        }
    }

    proof fn lemma_action_wf(&self, cp: u32) {
        lemma_packed_action_wf(self.l1@, self.l2@, self.strings@, cp);
    }
}

/// Concatenation of the replacement strings of `entries`.
pub open spec fn concat_values(entries: Seq<(u32, Seq<char>)>) -> Seq<char>
    decreases entries.len(),
{
    if entries.len() == 0 {
        Seq::empty()
    } else {
        concat_values(entries.drop_last()) + entries.last().1
    }
}

/// The `(codepoint, packed reference)` entries that `from_map` stores: each
/// replacement string is referenced at its byte offset in the concatenation.
pub open spec fn packed_entries(entries: Seq<(u32, Seq<char>)>) -> Seq<(u32, u32)> {
    Seq::new(
        entries.len(),
        |i: int|
            (
                entries[i].0,
                (encode_utf8(concat_values(entries.take(i))).len() * 256 + encode_utf8(
                    entries[i].1,
                ).len()) as u32,
            ),
    )
}

/// The view of `(codepoint, String)` entries.
pub open spec fn entries_view(entries: Seq<(u32, String)>) -> Seq<(u32, Seq<char>)> {
    Seq::new(entries.len(), |i: int| (entries[i].0, entries[i].1@))
}

impl RomanizeMatcher {
    /// Replaces CJK codepoints with their romanized form. Returns `None` when
    /// `text` contains no romanizable character.
    pub fn replace(&self, text: &str) -> (r: Option<String>)
        ensures
            r is None <==> !filter_changes(self, text@),
            r matches Some(s) ==> s@ == filter_chars(self, text@),
    {
        filter_replace(self, text)
    }

    /// Streams the UTF-8 bytes of the romanized form of `text`.
    pub fn filter_bytes<'a>(&'a self, text: &'a str) -> (r: FilterIterator<'a, RomanizeMatcher>)
        ensures
            r.wf(),
            r.filter == self,
            r.chars@ == text@,
            r.produced@ == Seq::<u8>::empty(),
    {
        FilterIterator::new(text, self)
    }

    /// Decodes the page tables from little-endian bytes. With `trim_space`,
    /// every entry is trimmed of surrounding spaces.
    pub fn new(l1: &[u8], l2: &[u8], strings: &str, trim_space: bool) -> (r: Self)
        ensures
            r.strings@ == strings@,
            r.l1@.len() == l1@.len() / 2,
            forall|i: int| 0 <= i < r.l1@.len() ==> r.l1@[i] == le_u16(l1@[2 * i], l1@[2 * i + 1]),
            r.l2@.len() == l2@.len() / 4,
            forall|i: int|
                0 <= i < r.l2@.len() ==> r.l2@[i] == {
                    let raw = le_u32(l2@[4 * i], l2@[4 * i + 1], l2@[4 * i + 2], l2@[4 * i + 3]);
                    if trim_space {
                        spec_trim_packed(raw as u32, strings.spec_bytes())
                    } else {
                        raw as u32
                    }
                },
    {
        let (l1, mut l2) = decode_page_table(l1, l2);
        if trim_space {
            trim_table(&mut l2, strings);
        }
        RomanizeMatcher { l1, l2, strings: strings.to_owned() }
    }

    /// Builds the tables from `(codepoint, replacement)` entries: the
    /// replacements are concatenated into the string buffer and each entry
    /// references its own. For a repeated codepoint the last entry wins. With
    /// `trim_space`, every entry is trimmed of surrounding spaces.
    pub fn from_map(entries: &Vec<(u32, String)>, trim_space: bool) -> (r: Self)
        requires
            forall|i: int| 0 <= i < entries@.len() ==> #[trigger] entries@[i].0 <= 0x10FFFF,
            forall|i: int|
                0 <= i < entries@.len() ==> encode_utf8(#[trigger] entries@[i].1@).len() < 256,
            encode_utf8(concat_values(entries_view(entries@))).len() < 0x1000000,
        ensures
            r.strings@ == concat_values(entries_view(entries@)),
            forall|cp: u32|
                #![trigger spec_slot(r.l1@, r.l2@, cp)]
                cp <= 0x10FFFF ==> spec_slot(r.l1@, r.l2@, cp) == if trim_space {
                    spec_trim_packed(
                        entries_value(packed_entries(entries_view(entries@)), cp),
                        encode_utf8(r.strings@),
                    )
                } else {
                    entries_value(packed_entries(entries_view(entries@)), cp)
                },
    {
        let (strings, packed) = pack_string_entries(entries);
        let (l1, mut l2) = build_2_stage_table(&packed);
        let ghost built = l2@;
        if trim_space {
            trim_table(&mut l2, strings.as_str());
            proof {
                assert forall|cp: u32| cp <= 0x10FFFF implies #[trigger] spec_slot(l1@, l2@, cp)
                    == spec_trim_packed(spec_slot(l1@, built, cp), encode_utf8(strings@)) by {
                    let p = cp / 256;
                    if p < l1@.len() && l1@[p as int] != 0 && l1@[p as int] * 256 + cp % 256
                        < l2@.len() {
                    }
                }
            }
        }
        RomanizeMatcher { l1, l2, strings }
    }
}

/// Concatenates the replacement strings of `entries` into one buffer and
/// pairs each codepoint with the packed reference to its own replacement.
pub(crate) fn pack_string_entries(entries: &Vec<(u32, String)>) -> (r: (String, Vec<(u32, u32)>))
    requires
        forall|i: int| 0 <= i < entries@.len() ==> #[trigger] entries@[i].0 <= 0x10FFFF,
        forall|i: int|
            0 <= i < entries@.len() ==> encode_utf8(#[trigger] entries@[i].1@).len() < 256,
        encode_utf8(concat_values(entries_view(entries@))).len() < 0x1000000,
    ensures
        r.0@ == concat_values(entries_view(entries@)),
        r.1@ == packed_entries(entries_view(entries@)),
        forall|j: int| 0 <= j < r.1@.len() ==> #[trigger] r.1@[j].0 <= 0x10FFFF,
{
        let mut strings = String::new();
        let mut packed: Vec<(u32, u32)> = Vec::new();
        let ghost ev = entries_view(entries@);
        let mut i: usize = 0;
        while i < entries.len()
            invariant
                i <= entries@.len(),
                ev == entries_view(entries@),
                forall|j: int| 0 <= j < entries@.len() ==> #[trigger] entries@[j].0 <= 0x10FFFF,
                forall|j: int|
                    0 <= j < entries@.len() ==> encode_utf8(#[trigger] entries@[j].1@).len() < 256,
                encode_utf8(concat_values(ev)).len() < 0x1000000,
                strings@ == concat_values(ev.take(i as int)),
                packed@ == packed_entries(ev).take(i as int),
            decreases entries@.len() - i,
        {
            let (key, value) = (entries[i].0, &entries[i].1);
            proof {
                lemma_concat_prefix_len(ev, i as int);
            }
            let offset = strings.as_str().len();
            let length = value.as_str().len();
            assert(offset < 0x1000000);
            assert(length < 256);
            packed.push((key, ((offset as u32) << 8u32) | (length as u32)));
            strings.append(value.as_str());
            proof {
                crate::page_table::lemma_pack_value(offset as u32, length as u32);
                assert(ev.take(i + 1).drop_last() =~= ev.take(i as int));
                assert(ev.take(i + 1).last() == ev[i as int]);
                assert(packed@ =~= packed_entries(ev).take(i + 1));
            }
            i += 1;
        }
        proof {
            assert(ev.take(entries@.len() as int) =~= ev);
            assert(packed_entries(ev).take(entries@.len() as int) =~= packed_entries(ev));
            assert forall|j: int| 0 <= j < packed@.len() implies #[trigger] packed@[j].0 <= 0x10FFFF by {
                assert(packed@[j].0 == entries@[j].0);
            }
        }
        (strings, packed)
}

/// Trims every packed entry of `l2` of surrounding spaces.
fn trim_table(l2: &mut Vec<u32>, strings: &str)
    ensures
        final(l2)@.len() == old(l2)@.len(),
        forall|i: int|
            0 <= i < final(l2)@.len() ==> #[trigger] final(l2)@[i] == spec_trim_packed(
                old(l2)@[i],
                strings.spec_bytes(),
            ),
{
    let n = l2.len();
    let mut i: usize = 0;
    while i < n
        invariant
            i <= n,
            n == l2@.len(),
            l2@.len() == old(l2)@.len(),
            forall|j: int|
                0 <= j < i ==> #[trigger] l2@[j] == spec_trim_packed(
                    old(l2)@[j],
                    strings.spec_bytes(),
                ),
            forall|j: int| i <= j < n ==> #[trigger] l2@[j] == old(l2)@[j],
        decreases n - i,
    {
        let v = trim_romanize_packed(l2[i], strings);
        l2.set(i, v);
        i += 1;
    }
}

/// The byte length of a prefix of the concatenation stays below that of the
/// whole.
proof fn lemma_concat_prefix_len(ev: Seq<(u32, Seq<char>)>, i: int)
    requires
        0 <= i < ev.len(),
    ensures
        encode_utf8(concat_values(ev.take(i))).len() + encode_utf8(ev[i].1).len()
            <= encode_utf8(concat_values(ev)).len(),
    decreases ev.len() - i,
{
    assert(ev.take(i + 1).drop_last() =~= ev.take(i));
    assert(ev.take(i + 1).last() == ev[i]);
    crate::utf8::lemma_encode_utf8_append(concat_values(ev.take(i)), ev[i].1);
    if i + 1 < ev.len() {
        lemma_concat_prefix_len(ev, i + 1);
        crate::utf8::lemma_encode_utf8_append(concat_values(ev.take(i + 1)), ev[i + 1].1);
    } else {
        assert(ev.take(i + 1) =~= ev);
    }
}

} // verus!
