//! The interface shared by the text matchers, and the layer that combines
//! them: [`plan_matcher`] sorts a list of match tables by engine, gives the
//! simple words their ids and collects every pipeline into one trie;
//! [`merge_word_matches`] combines the engines' hits, applies the exemption
//! lists and groups the results by match id.
use vstd::prelude::*;

use crate::graph::{build_process_type_tree, tree_of, ProcessTypeBitNode};
use crate::process_type::ProcessType;
use std::borrow::Cow;

use crate::builder::SimpleResult;
use crate::regex_matcher::{words_view, RegexMatchType, RegexResult, RegexTable};
use crate::sim_matcher::{SimHit, SimMatchType};
use crate::step::TransformRegistry;
use crate::walk::TextVariant;

verus! {

/// A matcher that tests a text, or lists its matches, after running the
/// text through the matcher's pipelines.
pub trait TextMatcherTrait<'a, T> {
    /// Whether `text` matches any rule.
    fn is_match(&'a self, registry: &TransformRegistry, text: &'a str) -> bool;

    /// Every match of the rules in `text`.
    fn process(&'a self, registry: &TransformRegistry, text: &'a str) -> Vec<T>;

    /// Whether any of the already transformed variants matches a rule.
    fn is_match_preprocessed(&'a self, processed_text_process_type_masks: &Vec<TextVariant<'a>>) -> bool;

    /// Every match of the rules in the already transformed variants.
    fn process_preprocessed(&'a self, processed_text_process_type_masks: &Vec<TextVariant<'a>>) -> Vec<T>;
}


/// Which engine matches a table's words, and through which pipeline. The
/// similarity threshold of a `Similar` table is kept by the caller.
#[derive(Clone, Copy, Debug, PartialEq, Eq, Structural)]
pub enum MatchTableType {
    /// Exact word patterns.
    Simple { process_type: ProcessType },
    /// Regular expressions, built from the words as `regex_match_type` says.
    Regex { process_type: ProcessType, regex_match_type: RegexMatchType },
    /// Words matched by similarity.
    Similar { process_type: ProcessType, sim_match_type: SimMatchType },
}

/// The pipeline of a table type.
pub open spec fn kind_pipeline(k: MatchTableType) -> ProcessType {
    match k {
        MatchTableType::Simple { process_type } => process_type,
        MatchTableType::Regex { process_type, .. } => process_type,
        MatchTableType::Similar { process_type, .. } => process_type,
    }
}

/// A table of words under one match id, with its exemption words: a hit of
/// an exemption word suppresses every hit of the table.
pub struct MatchTable {
    /// Identifier reported with each match.
    pub match_id: u32,
    /// Identifier of the table.
    pub table_id: u32,
    /// The engine and pipeline of the words.
    pub match_table_type: MatchTableType,
    /// The words.
    pub word_list: Vec<String>,
    /// The pipeline of the exemption words.
    pub exemption_process_type: ProcessType,
    /// The exemption words, matched exactly.
    pub exemption_word_list: Vec<String>,
}

/// Where a simple word id belongs: the table's ids, the first id of its
/// words, and whether the words are exemptions.
#[derive(Clone, Copy, Debug, PartialEq, Eq, Structural)]
pub struct WordTableConf {
    /// Identifier of the table's match.
    pub match_id: u32,
    /// Identifier of the table.
    pub table_id: u32,
    /// The simple id of the table's first word.
    pub offset: u32,
    /// Whether the words are exemption words.
    pub is_exemption: bool,
}

/// A word for the simple matcher: its pipeline, its id and the word.
pub struct SimpleWord<'a> {
    /// The pipeline the text goes through before matching.
    pub process_type: ProcessType,
    /// The simple id of the word.
    pub word_id: u32,
    /// The word.
    pub word: &'a str,
}

/// A table for the similarity matcher; `table_index` is the table's place
/// in the list given to [`plan_matcher`], where its threshold is kept.
pub struct SimTablePlan<'a> {
    /// The table's place in the list of tables.
    pub table_index: usize,
    /// Identifier of the table.
    pub table_id: u32,
    /// Identifier reported with each match.
    pub match_id: u32,
    /// The pipeline the text goes through before matching.
    pub process_type: ProcessType,
    /// How similarity is measured.
    pub sim_match_type: SimMatchType,
    /// The words.
    pub word_list: Vec<&'a str>,
}

/// The tables sorted by engine, with the simple words' ids and one trie for
/// every pipeline in use.
pub struct MatcherPlan<'a> {
    /// Every pipeline that a word list or an exemption list uses, in order.
    pub process_types: Vec<ProcessType>,
    /// The trie of those pipelines.
    pub process_type_tree: Vec<ProcessTypeBitNode>,
    /// One entry per simple word list and per exemption list.
    pub word_confs: Vec<WordTableConf>,
    /// For each simple word id, the index of its entry in `word_confs`.
    pub conf_index: Vec<usize>,
    /// The simple and exemption words with their ids.
    pub simple_words: Vec<SimpleWord<'a>>,
    /// The regex tables.
    pub regex_tables: Vec<RegexTable<'a>>,
    /// The similarity tables.
    pub sim_tables: Vec<SimTablePlan<'a>>,
}

/// The texts of a list of strings.
pub open spec fn strings_view(v: Seq<String>) -> Seq<Seq<char>> {
    v.map_values(|w: String| w@)
}

/// Whether table `t` has words, and they go to the simple matcher.
pub open spec fn simple_part(t: MatchTable) -> bool {
    t.word_list@.len() > 0 && t.match_table_type is Simple
}

/// Whether table `t` has exemption words.
pub open spec fn exemption_part(t: MatchTable) -> bool {
    t.exemption_word_list@.len() > 0
}

/// The pipelines table `t` uses: its words' when it has words, then its
/// exemption words' when it has those.
pub open spec fn table_pipelines(t: MatchTable) -> Seq<ProcessType> {
    (if t.word_list@.len() > 0 {
        seq![kind_pipeline(t.match_table_type)]
    } else {
        Seq::empty()
    }) + (if exemption_part(t) {
        seq![t.exemption_process_type]
    } else {
        Seq::empty()
    })
}

/// The number of simple ids table `t` takes.
pub open spec fn table_simple_count(t: MatchTable) -> nat {
    (if simple_part(t) {
        t.word_list@.len()
    } else {
        0nat
    }) + (if exemption_part(t) {
        t.exemption_word_list@.len()
    } else {
        0nat
    })
}

/// The number of simple ids the tables take.
pub open spec fn simple_count(ts: Seq<MatchTable>) -> nat
    decreases ts.len(),
{
    if ts.len() == 0 {
        0
    } else {
        simple_count(ts.drop_last()) + table_simple_count(ts.last())
    }
}

/// The entries of table `t`, whose first simple id is `base`.
pub open spec fn table_confs(t: MatchTable, base: nat) -> Seq<WordTableConf> {
    (if simple_part(t) {
        seq![WordTableConf { match_id: t.match_id, table_id: t.table_id, offset: base as u32, is_exemption: false }]
    } else {
        Seq::empty()
    }) + (if exemption_part(t) {
        seq![
            WordTableConf {
                match_id: t.match_id,
                table_id: t.table_id,
                offset: (base + if simple_part(t) {
                    t.word_list@.len()
                } else {
                    0nat
                }) as u32,
                is_exemption: true,
            },
        ]
    } else {
        Seq::empty()
    })
}

/// The pipelines of the tables, in order.
pub open spec fn pipelines_of(ts: Seq<MatchTable>) -> Seq<ProcessType>
    decreases ts.len(),
{
    if ts.len() == 0 {
        Seq::empty()
    } else {
        pipelines_of(ts.drop_last()) + table_pipelines(ts.last())
    }
}

/// The entries of the tables, in order.
pub open spec fn confs_of(ts: Seq<MatchTable>) -> Seq<WordTableConf>
    decreases ts.len(),
{
    if ts.len() == 0 {
        Seq::empty()
    } else {
        confs_of(ts.drop_last()) + table_confs(ts.last(), simple_count(ts.drop_last()))
    }
}

/// The entry index of each simple id of table `t`, whose first entry index
/// is `c`.
pub open spec fn table_index(t: MatchTable, c: nat) -> Seq<usize> {
    (if simple_part(t) {
        Seq::new(t.word_list@.len(), |k: int| c as usize)
    } else {
        Seq::empty()
    }) + (if exemption_part(t) {
        Seq::new(
            t.exemption_word_list@.len(),
            |k: int|
                (c + if simple_part(t) {
                    1nat
                } else {
                    0nat
                }) as usize,
        )
    } else {
        Seq::empty()
    })
}

/// The entry index of each simple id, in id order.
pub open spec fn index_of(ts: Seq<MatchTable>) -> Seq<usize>
    decreases ts.len(),
{
    if ts.len() == 0 {
        Seq::empty()
    } else {
        index_of(ts.drop_last()) + table_index(ts.last(), confs_of(ts.drop_last()).len())
    }
}

/// The simple words of table `t` as (pipeline, id, word), first id `base`.
pub open spec fn table_words(t: MatchTable, base: nat) -> Seq<(ProcessType, u32, Seq<char>)> {
    let n = if simple_part(t) {
        t.word_list@.len()
    } else {
        0nat
    };
    (if simple_part(t) {
        Seq::new(
            n,
            |k: int| (kind_pipeline(t.match_table_type), (base + k) as u32, t.word_list@[k]@),
        )
    } else {
        Seq::empty()
    }) + (if exemption_part(t) {
        Seq::new(
            t.exemption_word_list@.len(),
            |k: int| (t.exemption_process_type, (base + n + k) as u32, t.exemption_word_list@[k]@),
        )
    } else {
        Seq::empty()
    })
}

/// The simple words of the tables, in id order.
pub open spec fn words_of(ts: Seq<MatchTable>) -> Seq<(ProcessType, u32, Seq<char>)>
    decreases ts.len(),
{
    if ts.len() == 0 {
        Seq::empty()
    } else {
        words_of(ts.drop_last()) + table_words(ts.last(), simple_count(ts.drop_last()))
    }
}

/// A regex table seen as (table id, match id, pipeline, kind, words).
pub open spec fn regex_table_view(t: RegexTable) -> (u32, u32, ProcessType, RegexMatchType, Seq<Seq<char>>) {
    (t.table_id, t.match_id, t.process_type, t.regex_match_type, words_view(t.word_list@))
}

/// The regex table of table `t`, when it has words and is a regex table.
pub open spec fn table_regex(t: MatchTable) -> Seq<(u32, u32, ProcessType, RegexMatchType, Seq<Seq<char>>)> {
    if t.word_list@.len() > 0 {
        match t.match_table_type {
            MatchTableType::Regex { process_type, regex_match_type } => seq![
                (t.table_id, t.match_id, process_type, regex_match_type, strings_view(t.word_list@)),
            ],
            _ => Seq::empty(),
        }
    } else {
        Seq::empty()
    }
}

/// The regex tables of the tables, in order.
pub open spec fn regex_of(ts: Seq<MatchTable>) -> Seq<(u32, u32, ProcessType, RegexMatchType, Seq<Seq<char>>)>
    decreases ts.len(),
{
    if ts.len() == 0 {
        Seq::empty()
    } else {
        regex_of(ts.drop_last()) + table_regex(ts.last())
    }
}

/// A similarity table seen as (index, table id, match id, pipeline, kind, words).
pub open spec fn sim_table_view(t: SimTablePlan) -> (usize, u32, u32, ProcessType, SimMatchType, Seq<Seq<char>>) {
    (t.table_index, t.table_id, t.match_id, t.process_type, t.sim_match_type, words_view(t.word_list@))
}

/// The similarity table of table `t`, the `i`-th, when it has words and is
/// a similarity table.
pub open spec fn table_sim(t: MatchTable, i: int) -> Seq<(usize, u32, u32, ProcessType, SimMatchType, Seq<Seq<char>>)> {
    if t.word_list@.len() > 0 {
        match t.match_table_type {
            MatchTableType::Similar { process_type, sim_match_type } => seq![
                (i as usize, t.table_id, t.match_id, process_type, sim_match_type, strings_view(t.word_list@)),
            ],
            _ => Seq::empty(),
        }
    } else {
        Seq::empty()
    }
}

/// The similarity tables of the tables, in order, with their indices.
pub open spec fn sim_of(ts: Seq<MatchTable>) -> Seq<(usize, u32, u32, ProcessType, SimMatchType, Seq<Seq<char>>)>
    decreases ts.len(),
{
    if ts.len() == 0 {
        Seq::empty()
    } else {
        sim_of(ts.drop_last()) + table_sim(ts.last(), ts.len() - 1)
    }
}

/// The simple words seen as (pipeline, id, word).
pub open spec fn simple_words_view(v: Seq<SimpleWord>) -> Seq<(ProcessType, u32, Seq<char>)> {
    v.map_values(|w: SimpleWord| (w.process_type, w.word_id, w.word@))
}

/// Every pipeline of the tables has bits below `0x80`.
pub open spec fn tables_supported(ts: Seq<MatchTable>) -> bool {
    forall|i: int|
        0 <= i < ts.len() ==> kind_pipeline((#[trigger] ts[i]).match_table_type).spec_bits() < 0x80
            && ts[i].exemption_process_type.spec_bits() < 0x80
}


/// The simple ids the first `n` tables take are no more than all tables'.
proof fn lemma_simple_count_prefix(ts: Seq<MatchTable>, n: int)
    requires
        0 <= n <= ts.len(),
    ensures
        simple_count(ts.take(n)) <= simple_count(ts),
    decreases ts.len() - n,
{
    if n < ts.len() {
        lemma_simple_count_prefix(ts, n + 1);
        assert(ts.take(n + 1).drop_last() =~= ts.take(n));
    } else {
        assert(ts.take(n) =~= ts);
    }
}

/// Borrows the strings of `v`.
fn borrow_words<'a>(v: &'a Vec<String>) -> (r: Vec<&'a str>)
    ensures
        words_view(r@) == strings_view(v@),
{
    let mut out: Vec<&'a str> = Vec::new();
    let mut i: usize = 0;
    while i < v.len()
        invariant
            i <= v@.len(),
            words_view(out@) == strings_view(v@).take(i as int),
        decreases v@.len() - i,
    {
        let ghost prev = out@;
        out.push(v[i].as_str());
        proof {
            assert(words_view(out@) =~= words_view(prev).push(v@[i as int]@));
            assert(strings_view(v@).take(i + 1) =~= strings_view(v@).take(i as int).push(v@[i as int]@));
        }
        i += 1;
    }
    proof {
        assert(strings_view(v@).take(v@.len() as int) =~= strings_view(v@));
    }
    out
}

/// Gives the words of `words` the simple ids from `first` on, all under
/// entry `conf`.
fn push_simple_words<'a>(
    simple_words: &mut Vec<SimpleWord<'a>>,
    conf_index: &mut Vec<usize>,
    words: &'a Vec<String>,
    process_type: ProcessType,
    conf: usize,
    first: u32,
) -> (next: u32)
    requires
        first + words@.len() <= u32::MAX,
    ensures
        next == first + words@.len(),
        simple_words_view(final(simple_words)@) == simple_words_view(old(simple_words)@) + Seq::new(
            words@.len(),
            |k: int| (process_type, (first + k) as u32, words@[k]@),
        ),
        final(conf_index)@ == old(conf_index)@ + Seq::new(words@.len(), |k: int| conf),
{
    let mut id = first;
    let mut k: usize = 0;
    let ghost sw0 = simple_words_view(simple_words@);
    let ghost ci0 = conf_index@;
    while k < words.len()
        invariant
            first + words@.len() <= u32::MAX,
            k <= words@.len(),
            id == first + k,
            simple_words_view(simple_words@) == sw0 + Seq::new(
                k as nat,
                |j: int| (process_type, (first + j) as u32, words@[j]@),
            ),
            conf_index@ == ci0 + Seq::new(k as nat, |j: int| conf),
        decreases words@.len() - k,
    {
        let ghost prev = simple_words@;
        simple_words.push(SimpleWord { process_type, word_id: id, word: words[k].as_str() });
        conf_index.push(conf);
        proof {
            assert(simple_words_view(simple_words@) =~= simple_words_view(prev).push(
                (process_type, id, words@[k as int]@),
            ));
            assert(sw0 + Seq::new((k + 1) as nat, |j: int| (process_type, (first + j) as u32, words@[j]@))
                =~= (sw0 + Seq::new(k as nat, |j: int| (process_type, (first + j) as u32, words@[j]@))).push(
                (process_type, id, words@[k as int]@),
            ));
            assert(ci0 + Seq::new((k + 1) as nat, |j: int| conf) =~= (ci0 + Seq::new(
                k as nat,
                |j: int| conf,
            )).push(conf));
        }
        id = id + 1;
        k += 1;
    }
    id
}

/// The views of regex tables.
pub open spec fn regex_tables_view(v: Seq<RegexTable>) -> Seq<(u32, u32, ProcessType, RegexMatchType, Seq<Seq<char>>)> {
    v.map_values(|t: RegexTable| regex_table_view(t))
}

/// The views of similarity tables.
pub open spec fn sim_tables_view(v: Seq<SimTablePlan>) -> Seq<(usize, u32, u32, ProcessType, SimMatchType, Seq<Seq<char>>)> {
    v.map_values(|t: SimTablePlan| sim_table_view(t))
}

/// Adds what the words of table `t`, the `i`-th, contribute: their
/// pipeline, and their entry and simple ids or their regex or similarity
/// table.
fn plan_words<'a>(
    t: &'a MatchTable,
    i: usize,
    process_types: &mut Vec<ProcessType>,
    word_confs: &mut Vec<WordTableConf>,
    conf_index: &mut Vec<usize>,
    simple_words: &mut Vec<SimpleWord<'a>>,
    regex_tables: &mut Vec<RegexTable<'a>>,
    sim_tables: &mut Vec<SimTablePlan<'a>>,
    simple_id: u32,
) -> (next: u32)
    requires
        simple_id + table_simple_count(*t) <= u32::MAX,
        kind_pipeline(t.match_table_type).spec_bits() < 0x80,
        forall|k: int|
            0 <= k < old(regex_tables)@.len() ==> (#[trigger] old(regex_tables)@[k]).process_type.spec_bits()
                < 0x80,
    ensures
        forall|k: int|
            0 <= k < final(regex_tables)@.len() ==> (#[trigger] final(regex_tables)@[k]).process_type.spec_bits()
                < 0x80,
        final(process_types)@ == old(process_types)@ + (if t.word_list@.len() > 0 {
            seq![kind_pipeline(t.match_table_type)]
        } else {
            Seq::empty()
        }),
        final(word_confs)@ == old(word_confs)@ + (if simple_part(*t) {
            seq![WordTableConf { match_id: t.match_id, table_id: t.table_id, offset: simple_id, is_exemption: false }]
        } else {
            Seq::empty()
        }),
        final(conf_index)@ == old(conf_index)@ + (if simple_part(*t) {
            Seq::new(t.word_list@.len(), |k: int| old(word_confs)@.len() as usize)
        } else {
            Seq::empty()
        }),
        simple_words_view(final(simple_words)@) == simple_words_view(old(simple_words)@) + (if simple_part(*t) {
            Seq::new(
                t.word_list@.len(),
                |k: int| (kind_pipeline(t.match_table_type), (simple_id + k) as u32, t.word_list@[k]@),
            )
        } else {
            Seq::empty()
        }),
        regex_tables_view(final(regex_tables)@) == regex_tables_view(old(regex_tables)@) + table_regex(*t),
        sim_tables_view(final(sim_tables)@) == sim_tables_view(old(sim_tables)@) + table_sim(*t, i as int),
        next == simple_id + if simple_part(*t) {
            t.word_list@.len()
        } else {
            0nat
        },
{
    let conf0 = word_confs.len();
    let ghost rt0 = regex_tables@;
    let ghost st0 = sim_tables@;
    if t.word_list.len() > 0 {
        match t.match_table_type {
            MatchTableType::Simple { process_type } => {
                process_types.push(process_type);
                word_confs.push(
                    WordTableConf {
                        match_id: t.match_id,
                        table_id: t.table_id,
                        offset: simple_id,
                        is_exemption: false,
                    },
                );
                let next = push_simple_words(
                    simple_words,
                    conf_index,
                    &t.word_list,
                    process_type,
                    conf0,
                    simple_id,
                );
                proof {
                    assert(regex_tables_view(regex_tables@) =~= regex_tables_view(rt0) + table_regex(*t));
                    assert(sim_tables_view(sim_tables@) =~= sim_tables_view(st0) + table_sim(*t, i as int));
                }
                next
            },
            MatchTableType::Regex { process_type, regex_match_type } => {
                process_types.push(process_type);
                let words = borrow_words(&t.word_list);
                regex_tables.push(
                    RegexTable {
                        table_id: t.table_id,
                        match_id: t.match_id,
                        process_type,
                        regex_match_type,
                        word_list: words,
                    },
                );
                proof {
                    assert(regex_tables_view(regex_tables@) =~= regex_tables_view(rt0) + table_regex(*t));
                    assert(sim_tables_view(sim_tables@) =~= sim_tables_view(st0) + table_sim(*t, i as int));
                    assert(conf_index@ =~= old(conf_index)@ + Seq::<usize>::empty());
                    assert(word_confs@ =~= old(word_confs)@ + Seq::<WordTableConf>::empty());
                    assert(simple_words_view(simple_words@) =~= simple_words_view(old(simple_words)@)
                        + Seq::<(ProcessType, u32, Seq<char>)>::empty());
                }
                simple_id
            },
            MatchTableType::Similar { process_type, sim_match_type } => {
                process_types.push(process_type);
                let words = borrow_words(&t.word_list);
                sim_tables.push(
                    SimTablePlan {
                        table_index: i,
                        table_id: t.table_id,
                        match_id: t.match_id,
                        process_type,
                        sim_match_type,
                        word_list: words,
                    },
                );
                proof {
                    assert(regex_tables_view(regex_tables@) =~= regex_tables_view(rt0) + table_regex(*t));
                    assert(sim_tables_view(sim_tables@) =~= sim_tables_view(st0) + table_sim(*t, i as int));
                    assert(conf_index@ =~= old(conf_index)@ + Seq::<usize>::empty());
                    assert(word_confs@ =~= old(word_confs)@ + Seq::<WordTableConf>::empty());
                    assert(simple_words_view(simple_words@) =~= simple_words_view(old(simple_words)@)
                        + Seq::<(ProcessType, u32, Seq<char>)>::empty());
                }
                simple_id
            },
        }
    } else {
        proof {
            assert(regex_tables_view(regex_tables@) =~= regex_tables_view(rt0) + table_regex(*t));
            assert(sim_tables_view(sim_tables@) =~= sim_tables_view(st0) + table_sim(*t, i as int));
            assert(conf_index@ =~= old(conf_index)@ + Seq::<usize>::empty());
            assert(word_confs@ =~= old(word_confs)@ + Seq::<WordTableConf>::empty());
            assert(process_types@ =~= old(process_types)@ + Seq::<ProcessType>::empty());
            assert(simple_words_view(simple_words@) =~= simple_words_view(old(simple_words)@)
                + Seq::<(ProcessType, u32, Seq<char>)>::empty());
        }
        simple_id
    }
}

/// Adds what the exemption words of table `t` contribute: their pipeline,
/// an exemption entry and their simple ids.
fn plan_exemptions<'a>(
    t: &'a MatchTable,
    process_types: &mut Vec<ProcessType>,
    word_confs: &mut Vec<WordTableConf>,
    conf_index: &mut Vec<usize>,
    simple_words: &mut Vec<SimpleWord<'a>>,
    simple_id: u32,
) -> (next: u32)
    requires
        simple_id + t.exemption_word_list@.len() <= u32::MAX,
    ensures
        final(process_types)@ == old(process_types)@ + (if exemption_part(*t) {
            seq![t.exemption_process_type]
        } else {
            Seq::empty()
        }),
        final(word_confs)@ == old(word_confs)@ + (if exemption_part(*t) {
            seq![WordTableConf { match_id: t.match_id, table_id: t.table_id, offset: simple_id, is_exemption: true }]
        } else {
            Seq::empty()
        }),
        final(conf_index)@ == old(conf_index)@ + (if exemption_part(*t) {
            Seq::new(t.exemption_word_list@.len(), |k: int| old(word_confs)@.len() as usize)
        } else {
            Seq::empty()
        }),
        simple_words_view(final(simple_words)@) == simple_words_view(old(simple_words)@) + (if exemption_part(*t) {
            Seq::new(
                t.exemption_word_list@.len(),
                |k: int| (t.exemption_process_type, (simple_id + k) as u32, t.exemption_word_list@[k]@),
            )
        } else {
            Seq::empty()
        }),
        next == simple_id + if exemption_part(*t) {
            t.exemption_word_list@.len()
        } else {
            0nat
        },
{
    if t.exemption_word_list.len() > 0 {
        let conf1 = word_confs.len();
        process_types.push(t.exemption_process_type);
        word_confs.push(
            WordTableConf {
                match_id: t.match_id,
                table_id: t.table_id,
                offset: simple_id,
                is_exemption: true,
            },
        );
        push_simple_words(
            simple_words,
            conf_index,
            &t.exemption_word_list,
            t.exemption_process_type,
            conf1,
            simple_id,
        )
    } else {
        proof {
            assert(conf_index@ =~= old(conf_index)@ + Seq::<usize>::empty());
            assert(word_confs@ =~= old(word_confs)@ + Seq::<WordTableConf>::empty());
            assert(process_types@ =~= old(process_types)@ + Seq::<ProcessType>::empty());
            assert(simple_words_view(simple_words@) =~= simple_words_view(old(simple_words)@)
                + Seq::<(ProcessType, u32, Seq<char>)>::empty());
        }
        simple_id
    }
}

/// The two parts of a table's contribution make up the table's whole
/// contribution.
proof fn lemma_table_parts(t: MatchTable)
    ensures
        table_pipelines(t) == (if t.word_list@.len() > 0 {
            seq![kind_pipeline(t.match_table_type)]
        } else {
            Seq::<ProcessType>::empty()
        }) + (if exemption_part(t) {
            seq![t.exemption_process_type]
        } else {
            Seq::<ProcessType>::empty()
        }),
        table_simple_count(t) == (if simple_part(t) {
            t.word_list@.len()
        } else {
            0nat
        }) + (if exemption_part(t) {
            t.exemption_word_list@.len()
        } else {
            0nat
        }),
{
}

/// Sorts the tables by engine, as the combined matcher is built: each table
/// with words adds its pipeline, and, for the simple engine, an entry and
/// its words under consecutive simple ids; a regex or similarity table is
/// passed on with its words. A table with exemption words then adds their
/// pipeline, an exemption entry and the words under the next ids. The trie
/// holds every pipeline added.
pub fn plan_matcher<'a>(tables: &'a Vec<MatchTable>) -> (r: MatcherPlan<'a>)
    requires
        tables_supported(tables@),
        simple_count(tables@) <= u32::MAX,
    ensures
        r.process_types@ == pipelines_of(tables@),
        tree_of(r.process_type_tree@, r.process_types@),
        r.word_confs@ == confs_of(tables@),
        r.conf_index@ == index_of(tables@),
        simple_words_view(r.simple_words@) == words_of(tables@),
        regex_tables_view(r.regex_tables@) == regex_of(tables@),
        sim_tables_view(r.sim_tables@) == sim_of(tables@),
        forall|k: int|
            0 <= k < r.regex_tables@.len() ==> (#[trigger] r.regex_tables@[k]).process_type.spec_bits()
                < 0x80,
{
    let ghost ts = tables@;
    let mut process_types: Vec<ProcessType> = Vec::new();
    let mut word_confs: Vec<WordTableConf> = Vec::new();
    let mut conf_index: Vec<usize> = Vec::new();
    let mut simple_words: Vec<SimpleWord<'a>> = Vec::new();
    let mut regex_tables: Vec<RegexTable<'a>> = Vec::new();
    let mut sim_tables: Vec<SimTablePlan<'a>> = Vec::new();
    let mut simple_id: u32 = 0;
    let mut i: usize = 0;
    proof {
        assert(ts.take(0) =~= Seq::<MatchTable>::empty());
        assert(simple_words_view(simple_words@) =~= Seq::<(ProcessType, u32, Seq<char>)>::empty());
        assert(regex_tables_view(regex_tables@) =~= Seq::<
            (u32, u32, ProcessType, RegexMatchType, Seq<Seq<char>>),
        >::empty());
        assert(sim_tables_view(sim_tables@) =~= Seq::<
            (usize, u32, u32, ProcessType, SimMatchType, Seq<Seq<char>>),
        >::empty());
    }
    while i < tables.len()
        invariant
            ts == tables@,
            tables_supported(ts),
            simple_count(ts) <= u32::MAX,
            i <= ts.len(),
            simple_id == simple_count(ts.take(i as int)),
            process_types@ == pipelines_of(ts.take(i as int)),
            forall|k: int| 0 <= k < process_types@.len() ==> (#[trigger] process_types@[k]).spec_bits()
                < 0x80,
            word_confs@ == confs_of(ts.take(i as int)),
            conf_index@ == index_of(ts.take(i as int)),
            simple_words_view(simple_words@) == words_of(ts.take(i as int)),
            regex_tables_view(regex_tables@) == regex_of(ts.take(i as int)),
            sim_tables_view(sim_tables@) == sim_of(ts.take(i as int)),
            forall|k: int|
                0 <= k < regex_tables@.len() ==> (#[trigger] regex_tables@[k]).process_type.spec_bits()
                    < 0x80,
        decreases ts.len() - i,
    {
        let t: &'a MatchTable = &tables[i];
        let ghost pre = ts.take(i as int);
        let ghost pt0 = process_types@;
        let ghost wc0 = word_confs@;
        let ghost ci0 = conf_index@;
        let ghost sw0 = simple_words_view(simple_words@);
        proof {
            assert(ts.take(i + 1).drop_last() =~= pre);
            assert(ts.take(i + 1).last() == *t);
            lemma_simple_count_prefix(ts, i + 1);
            assert(ts[i as int] == *t);
            lemma_table_parts(*t);
            assert(kind_pipeline(t.match_table_type).spec_bits() < 0x80);
        }
        let mid = plan_words(
            t,
            i,
            &mut process_types,
            &mut word_confs,
            &mut conf_index,
            &mut simple_words,
            &mut regex_tables,
            &mut sim_tables,
            simple_id,
        );
        simple_id = plan_exemptions(
            t,
            &mut process_types,
            &mut word_confs,
            &mut conf_index,
            &mut simple_words,
            mid,
        );
        proof {
            let tt = *t;
            assert(process_types@ =~= pt0 + table_pipelines(tt));
            assert(word_confs@ =~= wc0 + table_confs(tt, simple_count(pre)));
            assert(conf_index@ =~= ci0 + table_index(tt, confs_of(pre).len()));
            assert(simple_words_view(simple_words@) =~= sw0 + table_words(tt, simple_count(pre)));
            assert forall|k: int| 0 <= k < process_types@.len() implies (#[trigger] process_types@[k]).spec_bits()
                < 0x80 by {
                if k >= pt0.len() {
                    assert(kind_pipeline(tt.match_table_type).spec_bits() < 0x80);
                    assert(tt.exemption_process_type.spec_bits() < 0x80);
                }
            }
        }
        i += 1;
    }
    proof {
        assert(ts.take(ts.len() as int) =~= ts);
    }
    let process_type_tree = build_process_type_tree(&process_types);
    MatcherPlan {
        process_types,
        process_type_tree,
        word_confs,
        conf_index,
        simple_words,
        regex_tables,
        sim_tables,
    }
}


/// One result of the combined matcher. `similar` is the index of the
/// similarity hit it comes from, whose score the caller holds.
pub struct MatchHit {
    /// Identifier of the table's match.
    pub match_id: u32,
    /// Identifier of the table.
    pub table_id: u32,
    /// Index of the word in its table.
    pub word_id: u32,
    /// The word.
    pub word: String,
    /// For a similarity hit, its index in the similarity hits.
    pub similar: Option<usize>,
}

/// A hit seen as (match id, table id, word id, word, similarity index).
pub open spec fn hit_view(h: MatchHit) -> (u32, u32, u32, Seq<char>, Option<usize>) {
    (h.match_id, h.table_id, h.word_id, h.word@, h.similar)
}

/// The views of a list of hits.
pub open spec fn hits_view(v: Seq<MatchHit>) -> Seq<(u32, u32, u32, Seq<char>, Option<usize>)> {
    v.map_values(|h: MatchHit| hit_view(h))
}

/// The entry that simple id `id` belongs to.
pub open spec fn conf_of(confs: Seq<WordTableConf>, index: Seq<usize>, id: u32) -> WordTableConf {
    confs[index[id as int] as int]
}

/// The simple hits seen as (simple id, word).
pub open spec fn simple_view(v: Seq<SimpleResult>) -> Seq<(u32, Seq<char>)> {
    v.map_values(|s: SimpleResult| (s.word_id, s.word@))
}

/// Whether a simple hit of an exemption word of match `m`, table `t` occurs.
pub open spec fn exempted(
    confs: Seq<WordTableConf>,
    index: Seq<usize>,
    simple: Seq<(u32, Seq<char>)>,
    m: u32,
    t: u32,
) -> bool {
    exists|k: int|
        0 <= k < simple.len() && #[trigger] conf_of(confs, index, simple[k].0).is_exemption
            && conf_of(confs, index, simple[k].0).match_id == m && conf_of(
            confs,
            index,
            simple[k].0,
        ).table_id == t
}

/// The regex hits as results.
pub open spec fn regex_hits_view(v: Seq<RegexResult>) -> Seq<(u32, u32, u32, Seq<char>, Option<usize>)> {
    v.map_values(|r: RegexResult| (r.match_id, r.table_id, r.word_id, r.word@, None::<usize>))
}

/// The similarity hits as results, each with its index.
pub open spec fn sim_hits_view(v: Seq<SimHit>) -> Seq<(u32, u32, u32, Seq<char>, Option<usize>)> {
    Seq::new(v.len(), |k: int| (v[k].match_id, v[k].table_id, v[k].word_id, v[k].word@, Some(k as usize)))
}

/// The simple hits of ordinary words as results: the entry gives the match
/// and table ids, and the word id is the simple id less the entry's
/// offset; hits of exemption words give no result.
pub open spec fn simple_hits_view(
    confs: Seq<WordTableConf>,
    index: Seq<usize>,
    simple: Seq<(u32, Seq<char>)>,
) -> Seq<(u32, u32, u32, Seq<char>, Option<usize>)>
    decreases simple.len(),
{
    if simple.len() == 0 {
        Seq::empty()
    } else {
        let rest = simple_hits_view(confs, index, simple.drop_last());
        let s = simple.last();
        let c = conf_of(confs, index, s.0);
        if c.is_exemption {
            rest
        } else {
            rest.push((c.match_id, c.table_id, (s.0 - c.offset) as u32, s.1, None))
        }
    }
}

/// The hits of `hs` whose match and table are not exempted.
pub open spec fn not_exempted(
    hs: Seq<(u32, u32, u32, Seq<char>, Option<usize>)>,
    confs: Seq<WordTableConf>,
    index: Seq<usize>,
    simple: Seq<(u32, Seq<char>)>,
) -> Seq<(u32, u32, u32, Seq<char>, Option<usize>)>
    decreases hs.len(),
{
    if hs.len() == 0 {
        Seq::empty()
    } else {
        let rest = not_exempted(hs.drop_last(), confs, index, simple);
        let h = hs.last();
        if exempted(confs, index, simple, h.0, h.1) {
            rest
        } else {
            rest.push(h)
        }
    }
}

/// The hits of `hs` with match id `m`, in order.
pub open spec fn by_match(hs: Seq<(u32, u32, u32, Seq<char>, Option<usize>)>, m: u32) -> Seq<
    (u32, u32, u32, Seq<char>, Option<usize>),
>
    decreases hs.len(),
{
    if hs.len() == 0 {
        Seq::empty()
    } else {
        let rest = by_match(hs.drop_last(), m);
        if hs.last().0 == m {
            rest.push(hs.last())
        } else {
            rest
        }
    }
}

/// The results the combined matcher keeps: the regex hits, then the
/// similarity hits, then the simple hits of ordinary words, without those
/// of an exempted match and table.
pub open spec fn kept_hits(
    confs: Seq<WordTableConf>,
    index: Seq<usize>,
    simple: Seq<(u32, Seq<char>)>,
    regex: Seq<RegexResult>,
    sim: Seq<SimHit>,
) -> Seq<(u32, u32, u32, Seq<char>, Option<usize>)> {
    not_exempted(
        regex_hits_view(regex) + sim_hits_view(sim) + simple_hits_view(confs, index, simple),
        confs,
        index,
        simple,
    )
}

/// A copy of a hit.
fn copy_hit(h: &MatchHit) -> (r: MatchHit)
    ensures
        hit_view(r) == hit_view(*h),
{
    MatchHit {
        match_id: h.match_id,
        table_id: h.table_id,
        word_id: h.word_id,
        word: h.word.clone(),
        similar: h.similar,
    }
}

/// The text of a `Cow`, owned.
fn cow_to_string(c: &Cow<'_, str>) -> (r: String)
    ensures
        r@ == c@,
{
    match c {
        Cow::Borrowed(b) => (*b).to_owned(),
        Cow::Owned(o) => o.clone(),
    }
}

/// Whether `(m, t)` is in `keys`.
fn has_key(keys: &Vec<(u32, u32)>, m: u32, t: u32) -> (r: bool)
    ensures
        r == keys@.contains((m, t)),
{
    let mut i: usize = 0;
    while i < keys.len()
        invariant
            i <= keys@.len(),
            forall|j: int| 0 <= j < i ==> keys@[j] != (m, t),
        decreases keys@.len() - i,
    {
        if keys[i].0 == m && keys[i].1 == t {
            assert(keys@[i as int] == (m, t));
            return true;
        }
        i += 1;
    }
    proof {
        if keys@.contains((m, t)) {
            let j = choose|j: int| 0 <= j < keys@.len() && keys@[j] == (m, t);
        }
    }
    false
}

/// Every simple id of the hits has an entry.
pub open spec fn hits_indexed(confs: Seq<WordTableConf>, index: Seq<usize>, simple: Seq<(u32, Seq<char>)>) -> bool {
    forall|k: int|
        0 <= k < simple.len() ==> (#[trigger] simple[k]).0 < index.len() && index[simple[k].0 as int]
            < confs.len() && conf_of(confs, index, simple[k].0).offset <= simple[k].0
}

/// The (match id, table id) pairs that a simple hit of an exemption word
/// exempts.
fn exempt_keys(confs: &Vec<WordTableConf>, conf_index: &Vec<usize>, simple_hits: &Vec<SimpleResult>) -> (r: Vec<(u32, u32)>)
    requires
        hits_indexed(confs@, conf_index@, simple_view(simple_hits@)),
    ensures
        forall|m: u32, t: u32|
            #[trigger] r@.contains((m, t)) <==> exempted(confs@, conf_index@, simple_view(simple_hits@), m, t),
{
    let ghost simple = simple_view(simple_hits@);
    let mut keys: Vec<(u32, u32)> = Vec::new();
    let mut i: usize = 0;
    while i < simple_hits.len()
        invariant
            simple == simple_view(simple_hits@),
            hits_indexed(confs@, conf_index@, simple),
            i <= simple_hits@.len(),
            forall|m: u32, t: u32|
                #[trigger] keys@.contains((m, t)) <==> exempted(confs@, conf_index@, simple.take(i as int), m, t),
        decreases simple_hits@.len() - i,
    {
        let id = simple_hits[i].word_id;
        proof {
            assert(simple[i as int].0 == id);
        }
        let c = confs[conf_index[id as usize]];
        let ghost prev = keys@;
        if c.is_exemption {
            keys.push((c.match_id, c.table_id));
        }
        proof {
            let st = simple.take(i as int);
            let st1 = simple.take(i + 1);
            assert(st1[i as int] == simple[i as int]);
            assert forall|m: u32, t: u32| #[trigger] keys@.contains((m, t)) <==> exempted(confs@, conf_index@, st1, m, t) by {
                if exempted(confs@, conf_index@, st1, m, t) {
                    let k = choose|k: int|
                        0 <= k < st1.len() && #[trigger] conf_of(confs@, conf_index@, st1[k].0).is_exemption
                            && conf_of(confs@, conf_index@, st1[k].0).match_id == m && conf_of(
                            confs@,
                            conf_index@,
                            st1[k].0,
                        ).table_id == t;
                    if k < i {
                        assert(st[k] == st1[k]);
                        assert(exempted(confs@, conf_index@, st, m, t));
                        assert(prev.contains((m, t)));
                        let j = choose|j: int| 0 <= j < prev.len() && prev[j] == (m, t);
                        assert(keys@[j] == (m, t));
                    } else {
                        assert(keys@[keys@.len() - 1] == (m, t));
                    }
                }
                if keys@.contains((m, t)) {
                    let j = choose|j: int| 0 <= j < keys@.len() && keys@[j] == (m, t);
                    if j < prev.len() {
                        assert(prev.contains((m, t)));
                        let k = choose|k: int|
                            0 <= k < st.len() && #[trigger] conf_of(confs@, conf_index@, st[k].0).is_exemption
                                && conf_of(confs@, conf_index@, st[k].0).match_id == m && conf_of(
                                confs@,
                                conf_index@,
                                st[k].0,
                            ).table_id == t;
                        assert(st1[k] == st[k]);
                        assert(conf_of(confs@, conf_index@, st1[k].0).is_exemption);
                    } else {
                        assert(conf_of(confs@, conf_index@, st1[i as int].0).is_exemption);
                    }
                }
            }
        }
        i += 1;
    }
    proof {
        assert(simple.take(simple_hits@.len() as int) =~= simple);
    }
    keys
}

/// The regex hits, then the similarity hits, then the simple hits of
/// ordinary words, as results.
fn collect_hits<'a>(
    confs: &Vec<WordTableConf>,
    conf_index: &Vec<usize>,
    simple_hits: &Vec<SimpleResult<'a>>,
    regex_hits: &Vec<RegexResult<'a>>,
    sim_hits: &Vec<SimHit>,
) -> (r: Vec<MatchHit>)
    requires
        hits_indexed(confs@, conf_index@, simple_view(simple_hits@)),
    ensures
        hits_view(r@) == regex_hits_view(regex_hits@) + sim_hits_view(sim_hits@) + simple_hits_view(
            confs@,
            conf_index@,
            simple_view(simple_hits@),
        ),
{
    let ghost rv = regex_hits_view(regex_hits@);
    let ghost sv = sim_hits_view(sim_hits@);
    let ghost simple = simple_view(simple_hits@);
    let mut out: Vec<MatchHit> = Vec::new();
    let mut i: usize = 0;
    proof {
        assert(hits_view(out@) =~= rv.take(0));
    }
    while i < regex_hits.len()
        invariant
            rv == regex_hits_view(regex_hits@),
            i <= regex_hits@.len(),
            hits_view(out@) == rv.take(i as int),
        decreases regex_hits@.len() - i,
    {
        let h = &regex_hits[i];
        let w = cow_to_string(&h.word);
        let ghost prev = out@;
        out.push(MatchHit { match_id: h.match_id, table_id: h.table_id, word_id: h.word_id, word: w, similar: None });
        proof {
            assert(hits_view(out@) =~= hits_view(prev).push(rv[i as int]));
            assert(rv.take(i + 1) =~= rv.take(i as int).push(rv[i as int]));
        }
        i += 1;
    }
    proof {
        assert(rv.take(regex_hits@.len() as int) =~= rv);
        assert(hits_view(out@) =~= rv + sv.take(0));
    }
    let mut j: usize = 0;
    while j < sim_hits.len()
        invariant
            rv == regex_hits_view(regex_hits@),
            sv == sim_hits_view(sim_hits@),
            j <= sim_hits@.len(),
            hits_view(out@) == rv + sv.take(j as int),
        decreases sim_hits@.len() - j,
    {
        let h = &sim_hits[j];
        let ghost prev = out@;
        out.push(MatchHit { match_id: h.match_id, table_id: h.table_id, word_id: h.word_id, word: h.word.clone(), similar: Some(j) });
        proof {
            assert(hits_view(out@) =~= hits_view(prev).push(sv[j as int]));
            assert(rv + sv.take(j + 1) =~= (rv + sv.take(j as int)).push(sv[j as int]));
        }
        j += 1;
    }
    proof {
        assert(sv.take(sim_hits@.len() as int) =~= sv);
        assert(simple.take(0) =~= Seq::<(u32, Seq<char>)>::empty());
        assert(hits_view(out@) =~= rv + sv + simple_hits_view(confs@, conf_index@, simple.take(0)));
    }
    let mut k: usize = 0;
    while k < simple_hits.len()
        invariant
            rv == regex_hits_view(regex_hits@),
            sv == sim_hits_view(sim_hits@),
            simple == simple_view(simple_hits@),
            hits_indexed(confs@, conf_index@, simple),
            k <= simple_hits@.len(),
            hits_view(out@) == rv + sv + simple_hits_view(confs@, conf_index@, simple.take(k as int)),
        decreases simple_hits@.len() - k,
    {
        let s = &simple_hits[k];
        proof {
            assert(simple[k as int] == (s.word_id, s.word@));
            assert(simple.take(k + 1).drop_last() =~= simple.take(k as int));
            assert(simple.take(k + 1).last() == simple[k as int]);
        }
        let c = confs[conf_index[s.word_id as usize]];
        if !c.is_exemption {
            let w = cow_to_string(&s.word);
            let ghost prev = out@;
            out.push(MatchHit { match_id: c.match_id, table_id: c.table_id, word_id: s.word_id - c.offset, word: w, similar: None });
            proof {
                assert(hits_view(out@) =~= hits_view(prev).push(
                    (c.match_id, c.table_id, (s.word_id - c.offset) as u32, s.word@, None),
                ));
            }
        }
        k += 1;
    }
    proof {
        assert(simple.take(simple_hits@.len() as int) =~= simple);
    }
    out
}

/// The hits of `all` whose match and table are not in `exempt`.
fn drop_exempted(
    all: &Vec<MatchHit>,
    exempt: &Vec<(u32, u32)>,
    Ghost(confs): Ghost<Seq<WordTableConf>>,
    Ghost(index): Ghost<Seq<usize>>,
    Ghost(simple): Ghost<Seq<(u32, Seq<char>)>>,
) -> (r: Vec<MatchHit>)
    requires
        forall|m: u32, t: u32| #[trigger] exempt@.contains((m, t)) <==> exempted(confs, index, simple, m, t),
    ensures
        hits_view(r@) == not_exempted(hits_view(all@), confs, index, simple),
{
    let ghost hv = hits_view(all@);
    let mut out: Vec<MatchHit> = Vec::new();
    let mut i: usize = 0;
    proof {
        assert(hv.take(0) =~= Seq::<(u32, u32, u32, Seq<char>, Option<usize>)>::empty());
        assert(hits_view(out@) =~= Seq::<(u32, u32, u32, Seq<char>, Option<usize>)>::empty());
    }
    while i < all.len()
        invariant
            hv == hits_view(all@),
            forall|m: u32, t: u32| #[trigger] exempt@.contains((m, t)) <==> exempted(confs, index, simple, m, t),
            i <= all@.len(),
            hits_view(out@) == not_exempted(hv.take(i as int), confs, index, simple),
        decreases all@.len() - i,
    {
        let h = &all[i];
        proof {
            assert(hv[i as int] == hit_view(*h));
            assert(hv.take(i + 1).drop_last() =~= hv.take(i as int));
            assert(hv.take(i + 1).last() == hv[i as int]);
        }
        if !has_key(exempt, h.match_id, h.table_id) {
            let c = copy_hit(h);
            let ghost prev = out@;
            out.push(c);
            proof {
                assert(hits_view(out@) =~= hits_view(prev).push(hit_view(*h)));
            }
        }
        i += 1;
    }
    proof {
        assert(hv.take(all@.len() as int) =~= hv);
    }
    out
}

/// Whether `ids` holds `m`.
fn has_id(ids: &Vec<u32>, m: u32) -> (r: bool)
    ensures
        r == ids@.contains(m),
{
    let mut i: usize = 0;
    while i < ids.len()
        invariant
            i <= ids@.len(),
            forall|j: int| 0 <= j < i ==> ids@[j] != m,
        decreases ids@.len() - i,
    {
        if ids[i] == m {
            assert(ids@[i as int] == m);
            return true;
        }
        i += 1;
    }
    false
}

/// A hit with match id `m` is among `hs` exactly when its group is not
/// empty.
proof fn lemma_by_match_nonempty(hs: Seq<(u32, u32, u32, Seq<char>, Option<usize>)>, m: u32)
    ensures
        by_match(hs, m).len() > 0 <==> exists|j: int| 0 <= j < hs.len() && #[trigger] hs[j].0 == m,
    decreases hs.len(),
{
    if hs.len() > 0 {
        lemma_by_match_nonempty(hs.drop_last(), m);
        if exists|j: int| 0 <= j < hs.drop_last().len() && #[trigger] hs.drop_last()[j].0 == m {
            let j = choose|j: int| 0 <= j < hs.drop_last().len() && #[trigger] hs.drop_last()[j].0 == m;
            assert(hs[j].0 == m);
        }
        if exists|j: int| 0 <= j < hs.len() && #[trigger] hs[j].0 == m {
            let j = choose|j: int| 0 <= j < hs.len() && #[trigger] hs[j].0 == m;
            if j < hs.len() - 1 {
                assert(hs.drop_last()[j].0 == m);
            }
        }
    }
}

/// The hits of `hs` with match id `m`.
fn filter_match(hs: &Vec<MatchHit>, m: u32) -> (r: Vec<MatchHit>)
    ensures
        hits_view(r@) == by_match(hits_view(hs@), m),
{
    let ghost hv = hits_view(hs@);
    let mut out: Vec<MatchHit> = Vec::new();
    let mut i: usize = 0;
    proof {
        assert(hv.take(0) =~= Seq::<(u32, u32, u32, Seq<char>, Option<usize>)>::empty());
        assert(hits_view(out@) =~= Seq::<(u32, u32, u32, Seq<char>, Option<usize>)>::empty());
    }
    while i < hs.len()
        invariant
            hv == hits_view(hs@),
            i <= hs@.len(),
            hits_view(out@) == by_match(hv.take(i as int), m),
        decreases hs@.len() - i,
    {
        let h = &hs[i];
        proof {
            assert(hv[i as int] == hit_view(*h));
            assert(hv.take(i + 1).drop_last() =~= hv.take(i as int));
            assert(hv.take(i + 1).last() == hv[i as int]);
        }
        if h.match_id == m {
            let c = copy_hit(h);
            let ghost prev = out@;
            out.push(c);
            proof {
                assert(hits_view(out@) =~= hits_view(prev).push(hit_view(*h)));
            }
        }
        i += 1;
    }
    proof {
        assert(hv.take(hs@.len() as int) =~= hv);
    }
    out
}

/// Groups `kept` by match id, one group per match id, in the order the ids
/// first occur.
fn group_by_match(kept: &Vec<MatchHit>) -> (r: Vec<(u32, Vec<MatchHit>)>)
    ensures
        forall|i: int, j: int| 0 <= i < j < r@.len() ==> (#[trigger] r@[i]).0 != (#[trigger] r@[j]).0,
        forall|i: int|
            0 <= i < r@.len() ==> hits_view((#[trigger] r@[i]).1@) == by_match(hits_view(kept@), r@[i].0)
                && r@[i].1@.len() > 0,
        forall|m: u32|
            (exists|i: int| 0 <= i < r@.len() && #[trigger] r@[i].0 == m) <==> by_match(
                hits_view(kept@),
                m,
            ).len() > 0,
{
    let ghost hv = hits_view(kept@);
    let mut ids: Vec<u32> = Vec::new();
    let mut i: usize = 0;
    while i < kept.len()
        invariant
            hv == hits_view(kept@),
            i <= kept@.len(),
            forall|a: int, b: int| 0 <= a < b < ids@.len() ==> ids@[a] != ids@[b],
            forall|m: u32| #[trigger] ids@.contains(m) <==> exists|j: int| 0 <= j < i && #[trigger] hv[j].0 == m,
        decreases kept@.len() - i,
    {
        let m = kept[i].match_id;
        proof {
            assert(hv[i as int].0 == m);
        }
        let ghost prev = ids@;
        if !has_id(&ids, m) {
            ids.push(m);
        }
        proof {
            assert forall|x: u32| #[trigger] ids@.contains(x) <==> exists|j: int| 0 <= j < i + 1 && #[trigger] hv[j].0 == x by {
                if ids@.contains(x) {
                    let a = choose|a: int| 0 <= a < ids@.len() && ids@[a] == x;
                    if a < prev.len() {
                        assert(prev.contains(x));
                    } else {
                        assert(hv[i as int].0 == x);
                    }
                }
                if exists|j: int| 0 <= j < i + 1 && #[trigger] hv[j].0 == x {
                    let j = choose|j: int| 0 <= j < i + 1 && #[trigger] hv[j].0 == x;
                    if j < i {
                        assert(prev.contains(x));
                        let a = choose|a: int| 0 <= a < prev.len() && prev[a] == x;
                        assert(ids@[a] == x);
                    } else if prev.contains(x) {
                        let a = choose|a: int| 0 <= a < prev.len() && prev[a] == x;
                        assert(ids@[a] == x);
                    } else {
                        assert(ids@[ids@.len() - 1] == x);
                    }
                }
            }
        }
        i += 1;
    }
    let mut out: Vec<(u32, Vec<MatchHit>)> = Vec::new();
    let mut k: usize = 0;
    while k < ids.len()
        invariant
            hv == hits_view(kept@),
            k <= ids@.len(),
            forall|a: int, b: int| 0 <= a < b < ids@.len() ==> ids@[a] != ids@[b],
            forall|m: u32| #[trigger] ids@.contains(m) <==> exists|j: int| 0 <= j < hv.len() && #[trigger] hv[j].0 == m,
            out@.len() == k,
            forall|a: int| 0 <= a < k ==> (#[trigger] out@[a]).0 == ids@[a],
            forall|a: int|
                0 <= a < k ==> hits_view((#[trigger] out@[a]).1@) == by_match(hv, out@[a].0) && out@[a].1@.len() > 0,
        decreases ids@.len() - k,
    {
        let m = ids[k];
        let g = filter_match(kept, m);
        proof {
            assert(ids@.contains(m));
            lemma_by_match_nonempty(hv, m);
            assert(hits_view(g@).len() == g@.len());
        }
        out.push((m, g));
        k += 1;
    }
    proof {
        assert forall|m: u32| (exists|a: int| 0 <= a < out@.len() && #[trigger] out@[a].0 == m) <==> by_match(
            hv,
            m,
        ).len() > 0 by {
            lemma_by_match_nonempty(hv, m);
            if exists|a: int| 0 <= a < out@.len() && #[trigger] out@[a].0 == m {
                let a = choose|a: int| 0 <= a < out@.len() && #[trigger] out@[a].0 == m;
                assert(ids@[a] == m);
                assert(ids@.contains(m));
            }
            if by_match(hv, m).len() > 0 {
                assert(ids@.contains(m));
                let a = choose|a: int| 0 <= a < ids@.len() && ids@[a] == m;
                assert(out@[a].0 == m);
            }
        }
        assert forall|a: int, b: int| 0 <= a < b < out@.len() implies (#[trigger] out@[a]).0 != (#[trigger] out@[b]).0 by {
            assert(out@[a].0 == ids@[a]);
            assert(out@[b].0 == ids@[b]);
        }
    }
    out
}

/// Combines the hits of the engines as the combined matcher does: a simple
/// hit of an exemption word exempts its match and table, and every hit of an
/// exempted match and table is dropped; a simple hit's word id is its simple
/// id less its entry's offset. The results are grouped by match id, one
/// group per match id that keeps a hit, each holding the regex hits, then
/// the similarity hits, then the simple hits of that match id, in order.
pub fn merge_word_matches<'a>(
    confs: &Vec<WordTableConf>,
    conf_index: &Vec<usize>,
    simple_hits: &Vec<SimpleResult<'a>>,
    regex_hits: &Vec<RegexResult<'a>>,
    sim_hits: &Vec<SimHit>,
) -> (r: Vec<(u32, Vec<MatchHit>)>)
    requires
        hits_indexed(confs@, conf_index@, simple_view(simple_hits@)),
    ensures
        forall|i: int, j: int| 0 <= i < j < r@.len() ==> (#[trigger] r@[i]).0 != (#[trigger] r@[j]).0,
        forall|i: int|
            0 <= i < r@.len() ==> hits_view((#[trigger] r@[i]).1@) == by_match(
                kept_hits(confs@, conf_index@, simple_view(simple_hits@), regex_hits@, sim_hits@),
                r@[i].0,
            ) && r@[i].1@.len() > 0,
        forall|m: u32|
            (exists|i: int| 0 <= i < r@.len() && #[trigger] r@[i].0 == m) <==> by_match(
                kept_hits(confs@, conf_index@, simple_view(simple_hits@), regex_hits@, sim_hits@),
                m,
            ).len() > 0,
{
    let ghost simple = simple_view(simple_hits@);
    let ghost kept_spec = kept_hits(confs@, conf_index@, simple, regex_hits@, sim_hits@);
    let exempt = exempt_keys(confs, conf_index, simple_hits);
    let all = collect_hits(confs, conf_index, simple_hits, regex_hits, sim_hits);
    let kept = drop_exempted(&all, &exempt, Ghost(confs@), Ghost(conf_index@), Ghost(simple));
    group_by_match(&kept)
}


/// The exemption rule: no kept hit belongs to an exempted match and table,
/// and every hit whose match and table are not exempted is kept.
pub proof fn law_exemption_suppresses_table(
    hs: Seq<(u32, u32, u32, Seq<char>, Option<usize>)>,
    confs: Seq<WordTableConf>,
    index: Seq<usize>,
    simple: Seq<(u32, Seq<char>)>,
)
    ensures
        forall|k: int|
            0 <= k < not_exempted(hs, confs, index, simple).len() ==> !exempted(
                confs,
                index,
                simple,
                (#[trigger] not_exempted(hs, confs, index, simple)[k]).0,
                not_exempted(hs, confs, index, simple)[k].1,
            ),
        forall|k: int|
            0 <= k < hs.len() && !exempted(confs, index, simple, (#[trigger] hs[k]).0, hs[k].1)
                ==> not_exempted(hs, confs, index, simple).contains(hs[k]),
    decreases hs.len(),
{
    if hs.len() > 0 {
        let d = hs.drop_last();
        law_exemption_suppresses_table(d, confs, index, simple);
        let rest = not_exempted(d, confs, index, simple);
        let r = not_exempted(hs, confs, index, simple);
        assert forall|k: int| 0 <= k < r.len() implies !exempted(
            confs,
            index,
            simple,
            (#[trigger] r[k]).0,
            r[k].1,
        ) by {
            if k < rest.len() {
                assert(r[k] == rest[k]);
            }
        }
        assert forall|k: int|
            0 <= k < hs.len() && !exempted(confs, index, simple, (#[trigger] hs[k]).0, hs[k].1)
                implies r.contains(hs[k]) by {
            if k < hs.len() - 1 {
                assert(d[k] == hs[k]);
                assert(rest.contains(d[k]));
                let j = choose|j: int| 0 <= j < rest.len() && rest[j] == d[k];
                assert(r[j] == rest[j]);
            } else {
                assert(r[r.len() - 1] == hs[k]);
            }
        }
    }
}

} // verus!
