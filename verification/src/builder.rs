//! Fluent builder that collects word patterns grouped by [`ProcessType`]
//! pipeline before a matcher is compiled from them.
use std::borrow::Cow;
use std::collections::HashMap;

use vstd::prelude::*;

use crate::process_type::{normalized_bits, ProcessType};

verus! {

broadcast use vstd::std_specs::hash::group_hash_axioms;

/// One match of a word pattern: the caller's id and the pattern.
#[derive(Debug)]
pub struct SimpleResult<'a> {
    /// The id the word was registered under.
    pub word_id: u32,
    /// The word pattern.
    pub word: Cow<'a, str>,
}

/// Collects word patterns grouped by their [`ProcessType`] pipeline (keyed by
/// its bits) and, within a pipeline, by word id.
pub struct SimpleMatcherBuilder<'a> {
    word_map: HashMap<u8, HashMap<u32, Cow<'a, str>>>,
}

impl<'a> View for SimpleMatcherBuilder<'a> {
    type V = Map<u8, Map<u32, Seq<char>>>;

    /// For each pipeline's bits, the words registered under it by id.
    closed spec fn view(&self) -> Map<u8, Map<u32, Seq<char>>> {
        self.word_map@.map_values(
            |bucket: HashMap<u32, Cow<'a, str>>| bucket@.map_values(|w: Cow<'a, str>| w@),
        )
    }
}

/// The words of pipeline `key` in `m`, none when it has no bucket yet.
pub open spec fn bucket_of(m: Map<u8, Map<u32, Seq<char>>>, key: u8) -> Map<u32, Seq<char>> {
    if m.contains_key(key) {
        m[key]
    } else {
        Map::empty()
    }
}

impl<'a> SimpleMatcherBuilder<'a> {
    /// An empty builder.
    pub fn new() -> (r: Self)
        ensures
            r@ == Map::<u8, Map<u32, Seq<char>>>::empty(),
    {
        let r = SimpleMatcherBuilder { word_map: HashMap::new() };
        proof {
            assert(r@ =~= Map::<u8, Map<u32, Seq<char>>>::empty());
        }
        r
    }

    /// The registered words: for each pipeline's bits, the words by id.
    pub fn word_map(&self) -> (r: &HashMap<u8, HashMap<u32, Cow<'a, str>>>)
        ensures
            r@.map_values(
                |bucket: HashMap<u32, Cow<'a, str>>| bucket@.map_values(|w: Cow<'a, str>| w@),
            ) == self@,
    {
        &self.word_map
    }

    /// Registers `word` under pipeline `process_type` and id `word_id`. The
    /// `Raw` bit only has meaning on its own and is dropped when combined with
    /// another step; a later word for the same pipeline and id replaces the
    /// earlier one.
    pub fn add_word(self, process_type: ProcessType, word_id: u32, word: Cow<'a, str>) -> (r: Self)
        ensures
            r@ == self@.insert(
                normalized_bits(process_type.spec_bits()),
                bucket_of(self@, normalized_bits(process_type.spec_bits())).insert(word_id, word@),
            ),
    {
        let mut builder = self;
        let key = process_type.normalize().bits();
        let ghost before = builder.word_map@;
        let ghost w = word@;
        let bucket = builder.word_map.entry(key).or_insert(HashMap::new());
        bucket.insert(word_id, word);
        proof {
            let nb = builder.word_map@[key]@;
            let old_view = before.map_values(
                |b: HashMap<u32, Cow<'a, str>>| b@.map_values(|c: Cow<'a, str>| c@),
            );
            assert(nb.map_values(|c: Cow<'a, str>| c@) =~= bucket_of(old_view, key).insert(
                word_id,
                w,
            ));
            assert(builder@ =~= old_view.insert(key, bucket_of(old_view, key).insert(word_id, w)));
        }
        builder
    }
}

impl<'a> Default for SimpleMatcherBuilder<'a> {
    /// An empty builder, as [`SimpleMatcherBuilder::new`] gives.
    fn default() -> (r: Self)
        ensures
            r@ == Map::<u8, Map<u32, Seq<char>>>::empty(),
    {
        SimpleMatcherBuilder::new()
    }
}

} // verus!
