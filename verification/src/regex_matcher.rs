//! Regular-expression matching over the transformed variants of a text.
//!
//! A [`RegexMatcher`] turns each [`RegexTable`] into patterns according to its
//! [`RegexMatchType`], keeps those that compile, and matches them all at once
//! with one `regex::RegexSet` over every text variant that the tables'
//! pipelines produce.
use std::borrow::Cow;
use std::collections::HashSet;

use vstd::prelude::*;
use vstd::utf8::*;

use crate::filter::{
    action_wf, filter_chars, filter_replace, lemma_filter_identity, replacement_chars, unit_chars,
    CodepointFilter, FilterAction,
};
use crate::graph::{build_process_type_tree, tree_of, ProcessTypeBitNode};
use crate::matcher::TextMatcherTrait;
use crate::process_type::ProcessType;
use crate::step::TransformRegistry;
use crate::walk::{
    bit_set, mask_contains, mask_justified, node_text, variant_str, walk_process_tree, walk_result,
    TextVariant,
};

verus! {

broadcast use vstd::std_specs::hash::group_hash_axioms;

#[verifier::external_type_specification]
#[verifier::external_body]
pub struct ExRegexSet(regex::RegexSet);

/// Whether `pattern` compiles as a regular expression.
pub uninterp spec fn regex_compiles(pattern: Seq<char>) -> bool;

/// Whether all of `patterns` compile together as one regex set.
pub uninterp spec fn regex_set_compiles(patterns: Seq<Seq<char>>) -> bool;

/// The patterns a regex set was built from, in order.
pub uninterp spec fn regex_set_patterns(set: regex::RegexSet) -> Seq<Seq<char>>;

/// Whether `pattern` matches somewhere in `haystack`.
pub uninterp spec fn regex_is_match(pattern: Seq<char>, haystack: Seq<char>) -> bool;

/// Whether `c` has a meaning of its own in a regular expression.
pub open spec fn is_meta_char(c: char) -> bool {
    c == '\\' || c == '.' || c == '+' || c == '*' || c == '?' || c == '(' || c == ')' || c == '|'
        || c == '[' || c == ']' || c == '{' || c == '}' || c == '^' || c == '$' || c == '#' || c
        == '&' || c == '-' || c == '~'
}

/// `s` with a backslash before every meta character.
pub open spec fn escape_chars(s: Seq<char>) -> Seq<char>
    decreases s.len(),
{
    if s.len() == 0 {
        s
    } else {
        escape_chars(s.drop_last()) + if is_meta_char(s.last()) {
            seq!['\\', s.last()]
        } else {
            seq![s.last()]
        }
    }
}

/// `s` with every comma replaced by `rep`.
pub open spec fn replace_commas(s: Seq<char>, rep: Seq<char>) -> Seq<char>
    decreases s.len(),
{
    if s.len() == 0 {
        s
    } else {
        replace_commas(s.drop_last(), rep) + if s.last() == ',' {
            rep
        } else {
            seq![s.last()]
        }
    }
}

/// `regex::escape`: escapes every regex meta character of `pattern` with a
/// backslash. Its source pushes a backslash before each of the characters
/// `\ . + * ? ( ) | [ ] { } ^ $ # & - ~` and copies every character, which
/// is what the contract states.
#[verifier::external_body]
fn regex_escape(pattern: &str) -> (r: String)
    ensures
        r@ == escape_chars(pattern@),
{
    regex::escape(pattern)
}

/// `regex::Regex::new`, reporting only whether `pattern` compiles.
#[verifier::external_body]
fn regex_compiles_check(pattern: &str) -> (r: bool)
    ensures
        r == regex_compiles(pattern@),
{
    regex::Regex::new(pattern).is_ok()
}

/// The texts of a list of strings.
pub open spec fn string_views(v: Seq<String>) -> Seq<Seq<char>> {
    v.map_values(|s: String| s@)
}

/// `regex::RegexSet::new`: a set of `patterns`, or `None` when they do not
/// compile together. A built set remembers its patterns in order.
#[verifier::external_body]
fn regex_set_new(patterns: &Vec<String>) -> (r: Option<regex::RegexSet>)
    ensures
        r is Some <==> regex_set_compiles(string_views(patterns@)),
        r matches Some(s) ==> regex_set_patterns(s) == string_views(patterns@),
{
    regex::RegexSet::new(patterns).ok()
}

/// `regex::RegexSet::empty`: a set without patterns.
#[verifier::external_body]
fn regex_set_empty() -> (r: regex::RegexSet)
    ensures
        regex_set_patterns(r) == Seq::<Seq<char>>::empty(),
{
    regex::RegexSet::empty()
}

/// Each index is below the next.
pub open spec fn strictly_ascending(s: Seq<usize>) -> bool {
    forall|a: int, b: int| 0 <= a < b < s.len() ==> s[a] < s[b]
}

/// `regex::RegexSet::matches`, iterated: the indices of the set's patterns
/// that match `haystack`, in ascending order.
#[verifier::external_body]
fn regex_set_matches(set: &regex::RegexSet, haystack: &str) -> (r: Vec<usize>)
    ensures
        strictly_ascending(r@),
        forall|i: usize|
            r@.contains(i) <==> (i < regex_set_patterns(*set).len() && regex_is_match(
                regex_set_patterns(*set)[i as int],
                haystack@,
            )),
{
    set.matches(haystack).into_iter().collect()
}

/// Replaces each comma by a fixed string.
pub struct CommaReplace<'r> {
    pub rep: &'r str,
}

impl<'r> CodepointFilter for CommaReplace<'r> {
    open spec fn spec_buffer(&self) -> Seq<u8> {
        encode_utf8(self.rep@)
    }

    open spec fn spec_action(&self, cp: u32) -> FilterAction {
        if cp == 0x2C && encode_utf8(self.rep@).len() <= usize::MAX {
            FilterAction::ReplaceRange(0, encode_utf8(self.rep@).len() as usize)
        } else {
            FilterAction::Keep
        }
    }

    open spec fn spec_keeps_ascii(&self) -> bool {
        false
    }

    fn buffer(&self) -> (r: &[u8]) {
        self.rep.as_bytes()
    }

    fn keeps_ascii(&self) -> (r: bool) {
        false
    }

    fn filter_ascii(&self, byte: u8) -> (r: FilterAction) {
        let n = self.rep.as_bytes().len();
        if byte == 0x2C {
            FilterAction::ReplaceRange(0, n)
        } else {
            FilterAction::Keep
        }
    }

    fn filter_codepoint(&self, cp: u32) -> (r: FilterAction) {
        FilterAction::Keep
    }

    proof fn lemma_action_wf(&self, cp: u32) {
        encode_utf8_valid_utf8(self.rep@);
        assert(encode_utf8(self.rep@).subrange(0, encode_utf8(self.rep@).len() as int) =~= encode_utf8(
            self.rep@,
        ));
    }
}

/// Filtering with [`CommaReplace`] replaces the commas.
proof fn lemma_comma_filter(f: &CommaReplace, s: Seq<char>)
    requires
        encode_utf8(f.rep@).len() <= usize::MAX,
    ensures
        filter_chars(f, s) == replace_commas(s, f.rep@),
    decreases s.len(),
{
    if s.len() > 0 {
        lemma_comma_filter(f, s.drop_last());
        let buf = encode_utf8(f.rep@);
        assert(buf.subrange(0, buf.len() as int) =~= buf);
        encode_utf8_decode_utf8(f.rep@);
        assert((',' as u32) == 0x2Cu32);
        if s.last() == ',' {
            assert(s.last() as u32 == 0x2C);
        } else {
            if s.last() as u32 == 0x2C {
                char_u32_cast(s.last(), 0x2Cu32);
                char_u32_cast(',', 0x2Cu32);
            }
        }
    }
}

/// `s` with every comma replaced by `rep`.
fn replace_commas_exec(s: &str, rep: &str) -> (r: String)
    ensures
        r@ == replace_commas(s@, rep@),
{
    let f = CommaReplace { rep };
    let rep_len = rep.as_bytes().len();
    proof {
        lemma_comma_filter(&f, s@);
    }
    match filter_replace(&f, s) {
        Some(out) => out,
        None => {
            proof {
                lemma_filter_identity(&f, s@);
            }
            s.to_owned()
        },
    }
}

/// The group that matches one similar-character list: the escaped list with
/// its commas turned into alternatives.
pub open spec fn similar_char_group(w: Seq<char>) -> Seq<char> {
    "(?:"@ + replace_commas(escape_chars(w), "|"@) + ")"@
}

/// The groups of `words`, joined so that at most one character may stand
/// between neighbours.
pub open spec fn similar_char_pattern(words: Seq<Seq<char>>) -> Seq<char>
    decreases words.len(),
{
    if words.len() == 0 {
        Seq::empty()
    } else if words.len() == 1 {
        similar_char_group(words[0])
    } else {
        similar_char_pattern(words.drop_last()) + ".?"@ + similar_char_group(words.last())
    }
}

/// The acrostic pattern of `w`: its comma-separated heads, each at the start
/// of the text or after whitespace or punctuation, case-insensitively.
pub open spec fn acrostic_pattern(w: Seq<char>) -> Seq<char> {
    "(?i)(?:^|[\\s\\pP]+?)"@ + replace_commas(escape_chars(w), ".*?[\\s\\pP]+?"@)
}

/// The concatenation of `words`.
pub open spec fn concat_words(words: Seq<Seq<char>>) -> Seq<char>
    decreases words.len(),
{
    if words.len() == 0 {
        Seq::empty()
    } else {
        concat_words(words.drop_last()) + words.last()
    }
}

/// The texts of a list of string slices.
pub open spec fn words_view(v: Seq<&str>) -> Seq<Seq<char>> {
    v.map_values(|w: &str| w@)
}

/// Builds the similar-character pattern of `words`.
fn build_similar_char_pattern(words: &Vec<&str>) -> (r: String)
    ensures
        r@ == similar_char_pattern(words_view(words@)),
{
    let ghost ws = words_view(words@);
    let mut pattern = String::new();
    let mut i: usize = 0;
    proof {
        assert(ws.take(0) =~= Seq::<Seq<char>>::empty());
    }
    while i < words.len()
        invariant
            ws == words_view(words@),
            i <= words@.len(),
            pattern@ == similar_char_pattern(ws.take(i as int)),
        decreases words@.len() - i,
    {
        let ghost before = pattern@;
        if i > 0 {
            pattern.append(".?");
        }
        let escaped = regex_escape(words[i]);
        let group = replace_commas_exec(escaped.as_str(), "|");
        pattern.append("(?:");
        pattern.append(group.as_str());
        pattern.append(")");
        proof {
            let t = ws.take(i + 1);
            assert(t.drop_last() =~= ws.take(i as int));
            assert(t.last() == words@[i as int]@);
            if i == 0 {
                assert(t.len() == 1 && t[0] == words@[0]@);
                assert(pattern@ =~= similar_char_group(t[0]));
            } else {
                assert(pattern@ =~= before + ".?"@ + similar_char_group(t.last()));
            }
        }
        i += 1;
    }
    proof {
        assert(ws.take(words@.len() as int) =~= ws);
    }
    pattern
}

/// Builds the acrostic pattern of `word`.
fn build_acrostic_pattern(word: &str) -> (r: String)
    ensures
        r@ == acrostic_pattern(word@),
{
    let escaped = regex_escape(word);
    let heads = replace_commas_exec(escaped.as_str(), ".*?[\\s\\pP]+?");
    let mut pattern = String::new();
    pattern.append("(?i)(?:^|[\\s\\pP]+?)");
    pattern.append(heads.as_str());
    proof {
        assert(pattern@ =~= acrostic_pattern(word@));
    }
    pattern
}

/// Escaping a concatenation escapes each part.
proof fn lemma_escape_concat(x: Seq<char>, y: Seq<char>)
    ensures
        escape_chars(x + y) == escape_chars(x) + escape_chars(y),
    decreases y.len(),
{
    if y.len() == 0 {
        assert(x + y =~= x);
        assert(escape_chars(x) + escape_chars(y) =~= escape_chars(x));
    } else {
        lemma_escape_concat(x, y.drop_last());
        assert((x + y).drop_last() =~= x + y.drop_last());
        assert((x + y).last() == y.last());
    }
}

/// Replacing the commas of a concatenation replaces those of each part.
proof fn lemma_replace_commas_concat(x: Seq<char>, y: Seq<char>, rep: Seq<char>)
    ensures
        replace_commas(x + y, rep) == replace_commas(x, rep) + replace_commas(y, rep),
    decreases y.len(),
{
    if y.len() == 0 {
        assert(x + y =~= x);
        assert(replace_commas(x, rep) + replace_commas(y, rep) =~= replace_commas(x, rep));
    } else {
        lemma_replace_commas_concat(x, y.drop_last(), rep);
        assert((x + y).drop_last() =~= x + y.drop_last());
        assert((x + y).last() == y.last());
    }
}

/// Escaping a text without commas adds none, and so leaves nothing for
/// comma replacement to change.
proof fn lemma_escape_comma_free(a: Seq<char>, rep: Seq<char>)
    requires
        !a.contains(','),
    ensures
        !escape_chars(a).contains(','),
        replace_commas(escape_chars(a), rep) == escape_chars(a),
    decreases a.len(),
{
    if a.len() > 0 {
        let d = a.drop_last();
        assert(!d.contains(',')) by {
            if d.contains(',') {
                let i = choose|i: int| 0 <= i < d.len() && d[i] == ',';
                assert(a[i] == ',');
            }
        }
        assert(a.last() != ',') by {
            assert(a[a.len() - 1] == a.last());
        }
        lemma_escape_comma_free(d, rep);
        let tail = if is_meta_char(a.last()) {
            seq!['\\', a.last()]
        } else {
            seq![a.last()]
        };
        assert(escape_chars(a) == escape_chars(d) + tail);
        assert(!escape_chars(a).contains(',')) by {
            if escape_chars(a).contains(',') {
                let i = choose|i: int| 0 <= i < escape_chars(a).len() && escape_chars(a)[i] == ',';
                if i < escape_chars(d).len() {
                    assert(escape_chars(d)[i] == ',');
                } else {
                    assert(tail[i - escape_chars(d).len()] == ',');
                }
            }
        }
        lemma_replace_commas_concat(escape_chars(d), tail, rep);
        assert(replace_commas(tail, rep) == tail) by {
            assert(tail.last() == a.last());
            if is_meta_char(a.last()) {
                let bs = seq!['\\'];
                assert(tail.drop_last() =~= bs);
                assert(bs.drop_last() =~= Seq::<char>::empty());
                assert(bs.last() == '\\');
                assert(replace_commas(bs.drop_last(), rep) =~= Seq::<char>::empty());
                assert(replace_commas(bs, rep) =~= bs);
            } else {
                assert(tail.drop_last() =~= Seq::<char>::empty());
                assert(replace_commas(tail.drop_last(), rep) =~= Seq::<char>::empty());
            }
            assert(replace_commas(tail, rep) =~= tail);
        }
    }
}

/// An acrostic pattern is case-insensitive and lets its first head follow
/// the start of the text or a run of whitespace or Unicode punctuation; a
/// single head is the head's text, escaped; and a comma in the word puts
/// any text and then a run of whitespace or Unicode punctuation between the
/// heads on either side of it.
pub proof fn law_acrostic_pattern(a: Seq<char>, b: Seq<char>)
    requires
        !a.contains(','),
    ensures
        acrostic_pattern(a).take("(?i)(?:^|[\\s\\pP]+?)"@.len() as int) == "(?i)(?:^|[\\s\\pP]+?)"@,
        acrostic_pattern(a) == "(?i)(?:^|[\\s\\pP]+?)"@ + escape_chars(a),
        acrostic_pattern(a + seq![','] + b) == acrostic_pattern(a) + ".*?[\\s\\pP]+?"@
            + acrostic_pattern(b).skip("(?i)(?:^|[\\s\\pP]+?)"@.len() as int),
{
    let pre = "(?i)(?:^|[\\s\\pP]+?)"@;
    let sep = ".*?[\\s\\pP]+?"@;
    lemma_escape_comma_free(a, sep);
    assert(acrostic_pattern(a).take(pre.len() as int) =~= pre);
    let comma = seq![','];
    lemma_escape_concat(a + comma, b);
    lemma_escape_concat(a, comma);
    assert(comma.drop_last() =~= Seq::<char>::empty());
    assert(comma.last() == ',');
    assert(!is_meta_char(','));
    assert(escape_chars(comma.drop_last()) =~= Seq::<char>::empty());
    assert(escape_chars(comma) =~= comma);
    assert(replace_commas(comma.drop_last(), sep) =~= Seq::<char>::empty());
    lemma_replace_commas_concat(escape_chars(a) + comma, escape_chars(b), sep);
    lemma_replace_commas_concat(escape_chars(a), comma, sep);
    assert(replace_commas(comma, sep) =~= sep);
    assert((pre + replace_commas(escape_chars(b), sep)).skip(pre.len() as int) =~= replace_commas(
        escape_chars(b),
        sep,
    ));
    assert(acrostic_pattern(a + comma + b) =~= acrostic_pattern(a) + sep + acrostic_pattern(b).skip(
        pre.len() as int,
    ));
}

/// Concatenates `words`.
fn join_words(words: &Vec<&str>) -> (r: String)
    ensures
        r@ == concat_words(words_view(words@)),
{
    let ghost ws = words_view(words@);
    let mut out = String::new();
    let mut i: usize = 0;
    proof {
        assert(ws.take(0) =~= Seq::<Seq<char>>::empty());
    }
    while i < words.len()
        invariant
            ws == words_view(words@),
            i <= words@.len(),
            out@ == concat_words(ws.take(i as int)),
        decreases words@.len() - i,
    {
        out.append(words[i]);
        proof {
            assert(ws.take(i + 1).drop_last() =~= ws.take(i as int));
        }
        i += 1;
    }
    proof {
        assert(ws.take(words@.len() as int) =~= ws);
    }
    out
}

/// How the words of a [`RegexTable`] become patterns.
#[derive(Clone, Copy, Debug, PartialEq, Eq, Structural)]
pub enum RegexMatchType {
    /// The words are lists of interchangeable characters separated by
    /// commas; together they make one pattern, with at most one character
    /// between neighbouring lists.
    SimilarChar,
    /// Each word lists, separated by commas, the heads of consecutive
    /// segments of the text.
    Acrostic,
    /// Each word is a regular expression.
    Regex,
}

/// A table of regex rules.
#[derive(Debug, Clone)]
pub struct RegexTable<'a> {
    /// Identifier of the table.
    pub table_id: u32,
    /// Identifier reported with each match.
    pub match_id: u32,
    /// The pipeline the text goes through before matching.
    pub process_type: ProcessType,
    /// How the words become patterns.
    pub regex_match_type: RegexMatchType,
    /// The words.
    pub word_list: Vec<&'a str>,
}

/// What a compiled pattern reports when it matches.
struct RegexConf {
    table_id: u32,
    match_id: u32,
    process_type: ProcessType,
    word_id: u32,
    word: String,
}

/// A match of a regex rule.
#[derive(Debug)]
pub struct RegexResult<'a> {
    /// Identifier of the table's match.
    pub match_id: u32,
    /// Identifier of the table.
    pub table_id: u32,
    /// Index of the word in the table (zero for a similar-character table).
    pub word_id: u32,
    /// The word (all words, concatenated, for a similar-character table).
    pub word: Cow<'a, str>,
}

/// What a compiled pattern reports: table id, match id, pipeline, word id
/// and word.
pub type ConfView = (u32, u32, ProcessType, u32, Seq<char>);

/// The view of a pattern's report.
spec fn conf_view(c: RegexConf) -> ConfView {
    (c.table_id, c.match_id, c.process_type, c.word_id, c.word@)
}

/// The candidate patterns of table `t`, each with its report.
pub open spec fn table_candidates(t: RegexTable) -> Seq<(Seq<char>, ConfView)> {
    let words = words_view(t.word_list@);
    match t.regex_match_type {
        RegexMatchType::SimilarChar => seq![
            (
                similar_char_pattern(words),
                (t.table_id, t.match_id, t.process_type, 0u32, concat_words(words)),
            ),
        ],
        RegexMatchType::Acrostic => Seq::new(
            words.len(),
            |i: int|
                (
                    acrostic_pattern(words[i]),
                    (t.table_id, t.match_id, t.process_type, i as u32, words[i]),
                ),
        ),
        RegexMatchType::Regex => Seq::new(
            words.len(),
            |i: int| (words[i], (t.table_id, t.match_id, t.process_type, i as u32, words[i])),
        ),
    }
}

/// A candidate pattern is kept when it is at most 1024 bytes long and
/// compiles.
pub open spec fn pattern_kept(p: Seq<char>) -> bool {
    encode_utf8(p).len() <= 1024 && regex_compiles(p)
}

/// The kept candidates, in order.
pub open spec fn kept(c: Seq<(Seq<char>, ConfView)>) -> Seq<(Seq<char>, ConfView)>
    decreases c.len(),
{
    if c.len() == 0 {
        c
    } else if pattern_kept(c.last().0) {
        kept(c.drop_last()).push(c.last())
    } else {
        kept(c.drop_last())
    }
}

/// The patterns of `entries`.
pub open spec fn entry_patterns(entries: Seq<(Seq<char>, ConfView)>) -> Seq<Seq<char>> {
    entries.map_values(|e: (Seq<char>, ConfView)| e.0)
}

/// The reports of `entries`.
pub open spec fn entry_confs(entries: Seq<(Seq<char>, ConfView)>) -> Seq<ConfView> {
    entries.map_values(|e: (Seq<char>, ConfView)| e.1)
}

/// The kept patterns of all tables, in order, with their reports.
pub open spec fn regex_entries(tables: Seq<RegexTable>) -> Seq<(Seq<char>, ConfView)>
    decreases tables.len(),
{
    if tables.len() == 0 {
        Seq::empty()
    } else {
        regex_entries(tables.drop_last()) + kept(table_candidates(tables.last()))
    }
}

/// The pattern list and the report list hold the patterns and the reports of
/// `entries`, in order.
spec fn lists_hold(patterns: Seq<String>, confs: Seq<RegexConf>, entries: Seq<(Seq<char>, ConfView)>) -> bool {
    &&& patterns.len() == confs.len()
    &&& string_views(patterns) == entry_patterns(entries)
    &&& conf_views(confs) == entry_confs(entries)
}

/// The reports of a list of pattern reports.
spec fn conf_views(confs: Seq<RegexConf>) -> Seq<ConfView> {
    confs.map_values(|c: RegexConf| conf_view(c))
}

/// Adds `pattern` with its report when it is at most 1024 bytes long and
/// compiles.
fn try_add_pattern(
    patterns: &mut Vec<String>,
    confs: &mut Vec<RegexConf>,
    pattern: String,
    conf: RegexConf,
    entries: Ghost<Seq<(Seq<char>, ConfView)>>,
)
    requires
        lists_hold(old(patterns)@, old(confs)@, entries@),
    ensures
        lists_hold(
            final(patterns)@,
            final(confs)@,
            if pattern_kept(pattern@) {
                entries@.push((pattern@, conf_view(conf)))
            } else {
                entries@
            },
        ),
{
    let ghost e = (pattern@, conf_view(conf));
    let ghost old_p = patterns@;
    let ghost old_c = confs@;
    if pattern.as_str().as_bytes().len() <= 1024 && regex_compiles_check(pattern.as_str()) {
        patterns.push(pattern);
        confs.push(conf);
        proof {
            let ne = entries@.push(e);
            assert(old_p == old(patterns)@);
            assert(string_views(old_p).len() == old_p.len());
            assert(entry_patterns(entries@).len() == entries@.len());
            assert(old_p.len() == entries@.len());
            assert forall|i: int| 0 <= i < patterns@.len() implies #[trigger] string_views(
                patterns@,
            )[i] == entry_patterns(ne)[i] by {
                if i < old_p.len() {
                    assert(patterns@[i] == old_p[i]);
                    assert(string_views(old_p)[i] == entry_patterns(entries@)[i]);
                    assert(ne[i] == entries@[i]);
                }
            }
            assert(string_views(patterns@) =~= entry_patterns(ne));
            assert forall|i: int| 0 <= i < confs@.len() implies #[trigger] conf_views(confs@)[i]
                == entry_confs(ne)[i] by {
                if i < old_c.len() {
                    assert(confs@[i] == old_c[i]);
                    assert(conf_views(old_c)[i] == entry_confs(entries@)[i]);
                    assert(ne[i] == entries@[i]);
                }
            }
            assert(conf_views(confs@) =~= entry_confs(ne));
        }
    }
}

/// The bit of a report's pipeline in a variant's mask.
pub open spec fn conf_bit(c: ConfView) -> u64 {
    (c.2.spec_bits() % 64) as u64
}

/// Pattern `i` matches variant `j`, and the variant was produced by the
/// pipeline of pattern `i`'s report.
pub open spec fn variant_hits(
    patterns: Seq<Seq<char>>,
    confs: Seq<ConfView>,
    variants: Seq<TextVariant>,
    j: int,
    i: int,
) -> bool {
    regex_is_match(patterns[i], variants[j].text@) && bit_set(variants[j].mask, conf_bit(confs[i]))
}

/// Pattern `i` matches some variant produced by its pipeline.
pub open spec fn hit_in_variants(
    patterns: Seq<Seq<char>>,
    confs: Seq<ConfView>,
    variants: Seq<TextVariant>,
    i: int,
) -> bool {
    exists|j: int| 0 <= j < variants.len() && #[trigger] variant_hits(patterns, confs, variants, j, i)
}

/// Pattern `i` matches the text of trie node `m`, whose mask carries the
/// bit of pattern `i`'s pipeline.
pub open spec fn node_hits(
    reg: &TransformRegistry,
    tree: Seq<ProcessTypeBitNode>,
    text: Seq<char>,
    patterns: Seq<Seq<char>>,
    confs: Seq<ConfView>,
    m: int,
    i: int,
) -> bool {
    regex_is_match(patterns[i], node_text(reg, tree, m, text)) && bit_set(
        tree[m].folded_mask,
        conf_bit(confs[i]),
    )
}

/// Pattern `i` matches the text of some trie node that carries its bit.
pub open spec fn hit_in_tree(
    reg: &TransformRegistry,
    tree: Seq<ProcessTypeBitNode>,
    text: Seq<char>,
    patterns: Seq<Seq<char>>,
    confs: Seq<ConfView>,
    i: int,
) -> bool {
    exists|m: int| 0 <= m < tree.len() && #[trigger] node_hits(reg, tree, text, patterns, confs, m, i)
}

/// A result reports what report `c` says.
pub open spec fn reports(r: RegexResult, c: ConfView) -> bool {
    r.match_id == c.1 && r.table_id == c.0 && r.word_id == c.3 && r.word@ == c.4
}

/// `r` reports what the report of some hit says.
pub open spec fn from_hit(r: RegexResult, confs: Seq<ConfView>, hit: spec_fn(int) -> bool, n: int) -> bool {
    exists|i: int| 0 <= i < n && #[trigger] hit(i) && reports(r, confs[i])
}

/// The results of `results` that are produced by a hit, with pairwise
/// distinct table and word ids, and one for every hit.
pub open spec fn results_exact(
    results: Seq<RegexResult>,
    confs: Seq<ConfView>,
    hit: spec_fn(int) -> bool,
    n: int,
) -> bool {
    &&& forall|k: int| 0 <= k < results.len() ==> #[trigger] from_hit(results[k], confs, hit, n)
    &&& forall|a: int, b: int|
        0 <= a < b < results.len() ==> (#[trigger] results[a].table_id, results[a].word_id) != (
            #[trigger] results[b].table_id,
            results[b].word_id,
        )
    &&& forall|i: int|
        0 <= i < n && #[trigger] hit(i) ==> exists|k: int|
            0 <= k < results.len() && results[k].table_id == confs[i].0 && results[k].word_id
                == confs[i].3
}

/// Exact results are empty exactly when there is no hit, so a matcher's
/// `is_match` answers whether its `process` finds anything.
pub proof fn law_results_empty_iff_no_hit(
    results: Seq<RegexResult>,
    confs: Seq<ConfView>,
    hit: spec_fn(int) -> bool,
    n: int,
)
    requires
        results_exact(results, confs, hit, n),
    ensures
        (results.len() > 0) <==> exists|i: int| 0 <= i < n && #[trigger] hit(i),
{
    if results.len() > 0 {
        assert(from_hit(results[0], confs, hit, n));
    }
    if exists|i: int| 0 <= i < n && #[trigger] hit(i) {
        let i = choose|i: int| 0 <= i < n && #[trigger] hit(i);
        assert(hit(i));
    }
}

/// On a walk's variants, a hit in the variants is a hit in the trie.
proof fn lemma_walk_hits<'a>(
    reg: &TransformRegistry,
    tree: Seq<ProcessTypeBitNode>,
    text: &'a str,
    variants: Seq<TextVariant<'a>>,
    patterns: Seq<Seq<char>>,
    confs: Seq<ConfView>,
    i: int,
)
    requires
        walk_result(reg, tree, text, variants),
    ensures
        hit_in_variants(patterns, confs, variants, i) <==> hit_in_tree(
            reg,
            tree,
            text@,
            patterns,
            confs,
            i,
        ),
{
    let b = conf_bit(confs[i]);
    if hit_in_variants(patterns, confs, variants, i) {
        let j = choose|j: int|
            0 <= j < variants.len() && #[trigger] variant_hits(patterns, confs, variants, j, i);
        assert(mask_justified(reg, tree, text@, variants[j].text@, variants[j].mask));
        assert(b < 64);
        let m = choose|m: int|
            0 <= m < tree.len() && #[trigger] node_text(reg, tree, m, text@) == variants[j].text@
                && bit_set(tree[m].folded_mask, b);
        assert(node_hits(reg, tree, text@, patterns, confs, m, i));
    }
    if hit_in_tree(reg, tree, text@, patterns, confs, i) {
        let m = choose|m: int|
            0 <= m < tree.len() && #[trigger] node_hits(reg, tree, text@, patterns, confs, m, i);
        let j = choose|j: int|
            0 <= j < variants.len() && #[trigger] variants[j].text@ == #[trigger] node_text(
                reg,
                tree,
                m,
                text@,
            ) && mask_contains(variants[j].mask, tree[m].folded_mask);
        lemma_mask_bit_contained(variants[j].mask, tree[m].folded_mask, b);
        assert(variant_hits(patterns, confs, variants, j, i));
    }
}

/// A bit of a contained mask is set in the containing one.
proof fn lemma_mask_bit_contained(x: u64, y: u64, b: u64)
    requires
        mask_contains(x, y),
        b < 64,
        bit_set(y, b),
    ensures
        bit_set(x, b),
{
    assert(x & y == y && b < 64 && (y >> b) & 1u64 == 1u64 ==> (x >> b) & 1u64 == 1u64)
        by (bit_vector);
}

/// Testing a bit with a shifted one.
fn mask_has_bit(mask: u64, b: u64) -> (r: bool)
    requires
        b < 64,
    ensures
        r == bit_set(mask, b),
{
    assert(b < 64 ==> ((mask & (1u64 << b)) != 0 <==> (mask >> b) & 1u64 == 1u64)) by (bit_vector);
    (mask & (1u64 << b)) != 0
}

/// The dedup key of a result: its table id above its word id.
pub open spec fn result_key(table_id: u32, word_id: u32) -> u64 {
    ((table_id as u64) << 32u64) | (word_id as u64)
}

/// Distinct id pairs have distinct keys.
proof fn lemma_result_key(a: u32, b: u32, c: u32, d: u32)
    ensures
        result_key(a, b) == result_key(c, d) ==> a == c && b == d,
{
    assert(((a as u64) << 32u64) | (b as u64) == ((c as u64) << 32u64) | (d as u64) ==> a == c
        && b == d) by (bit_vector);
}

/// Matches regex rules over the variants of a text that the rules'
/// pipelines produce.
pub struct RegexMatcher {
    process_type_tree: Vec<ProcessTypeBitNode>,
    regex_set: regex::RegexSet,
    regex_dedup_conf_list: Vec<RegexConf>,
    process_types: Ghost<Seq<ProcessType>>,
}

impl RegexMatcher {
    /// Every pattern of the set has its report, and the trie is well formed.
    #[verifier::type_invariant]
    spec fn reports_cover_patterns(self) -> bool {
        &&& regex_set_patterns(self.regex_set).len() <= self.regex_dedup_conf_list@.len()
        &&& tree_of(self.process_type_tree@, self.process_types@)
    }

    /// The trie of the tables' pipelines.
    pub closed spec fn tree(&self) -> Seq<ProcessTypeBitNode> {
        self.process_type_tree@
    }

    /// The distinct pipelines of the tables.
    pub closed spec fn process_types(&self) -> Seq<ProcessType> {
        self.process_types@
    }

    /// The compiled patterns, in order.
    pub closed spec fn patterns(&self) -> Seq<Seq<char>> {
        regex_set_patterns(self.regex_set)
    }

    /// The report of each kept pattern, in order.
    pub closed spec fn confs(&self) -> Seq<ConfView> {
        conf_views(self.regex_dedup_conf_list@)
    }

    /// Compiles the tables: each table's candidate patterns that are at most
    /// 1024 bytes long and compile are kept, with their reports; the kept
    /// patterns form one regex set, or an empty set when they do not compile
    /// together.
    pub fn new(regex_table_list: &[RegexTable]) -> (r: RegexMatcher)
        requires
            forall|i: int|
                0 <= i < regex_table_list@.len() ==> #[trigger] regex_table_list@[i].process_type.spec_bits()
                    < 0x80,
        ensures
            r.confs() == entry_confs(regex_entries(regex_table_list@)),
            r.patterns() == if regex_set_compiles(entry_patterns(regex_entries(regex_table_list@))) {
                entry_patterns(regex_entries(regex_table_list@))
            } else {
                Seq::<Seq<char>>::empty()
            },
            tree_of(r.tree(), r.process_types()),
            forall|t: ProcessType|
                r.process_types().contains(t) <==> exists|i: int|
                    0 <= i < regex_table_list@.len() && #[trigger] regex_table_list@[i].process_type
                        == t,
    {
        let ghost tables = regex_table_list@;
        let mut process_type_set: Vec<ProcessType> = Vec::new();
        let mut regex_pattern_list: Vec<String> = Vec::new();
        let mut regex_conf_list: Vec<RegexConf> = Vec::new();
        let mut ti: usize = 0;
        proof {
            assert(tables.take(0) =~= Seq::<RegexTable>::empty());
            assert(string_views(regex_pattern_list@) =~= entry_patterns(regex_entries(tables.take(0))));
            assert(conf_views(regex_conf_list@) =~= entry_confs(regex_entries(tables.take(0))));
        }
        while ti < regex_table_list.len()
            invariant
                tables == regex_table_list@,
                ti <= tables.len(),
                forall|i: int|
                    0 <= i < tables.len() ==> #[trigger] tables[i].process_type.spec_bits() < 0x80,
                forall|t: ProcessType|
                    process_type_set@.contains(t) <==> exists|i: int|
                        0 <= i < ti && #[trigger] tables[i].process_type == t,
                forall|i: int|
                    0 <= i < process_type_set@.len() ==> #[trigger] process_type_set@[i].spec_bits()
                        < 0x80,
                lists_hold(regex_pattern_list@, regex_conf_list@, regex_entries(tables.take(ti as int))),
            decreases tables.len() - ti,
        {
            let table = &regex_table_list[ti];
            let pt = table.process_type;
            let ghost set_before = process_type_set@;
            let mut seen = false;
            let mut j: usize = 0;
            while j < process_type_set.len()
                invariant
                    j <= process_type_set@.len(),
                    seen ==> process_type_set@.contains(pt),
                    !seen ==> forall|x: int| 0 <= x < j ==> process_type_set@[x] != pt,
                decreases process_type_set@.len() - j,
            {
                if process_type_set[j] == pt {
                    seen = true;
                }
                j += 1;
            }
            if !seen {
                process_type_set.push(pt);
            }
            proof {
                assert forall|t: ProcessType| process_type_set@.contains(t) <==> set_before.contains(t)
                    || t == pt by {
                    if !seen {
                        if process_type_set@.contains(t) {
                            let x = choose|x: int| 0 <= x < process_type_set@.len() && process_type_set@[x] == t;
                            if x < set_before.len() {
                                assert(set_before[x] == t);
                            }
                        }
                        if set_before.contains(t) {
                            let x = choose|x: int| 0 <= x < set_before.len() && set_before[x] == t;
                            assert(process_type_set@[x] == t);
                        }
                        if t == pt {
                            assert(process_type_set@[set_before.len() as int] == t);
                        }
                    }
                }
                assert forall|t: ProcessType| process_type_set@.contains(t) <==> exists|i: int|
                    0 <= i < ti + 1 && #[trigger] tables[i].process_type == t by {
                    if t == pt {
                        assert(tables[ti as int].process_type == t);
                    }
                    if set_before.contains(t) {
                        let i = choose|i: int| 0 <= i < ti && #[trigger] tables[i].process_type == t;
                        assert(tables[i].process_type == t);
                    }
                    if exists|i: int| 0 <= i < ti + 1 && #[trigger] tables[i].process_type == t {
                        let i = choose|i: int| 0 <= i < ti + 1 && #[trigger] tables[i].process_type == t;
                        if i < ti {
                            assert(set_before.contains(t));
                        }
                    }
                }
                assert forall|i: int| 0 <= i < process_type_set@.len() implies #[trigger] process_type_set@[i].spec_bits()
                    < 0x80 by {
                    if i < set_before.len() {
                        assert(process_type_set@[i] == set_before[i]);
                    } else {
                        assert(tables[ti as int].process_type.spec_bits() < 0x80);
                    }
                }
            }
            let ghost acc = regex_entries(tables.take(ti as int));
            let ghost cands = table_candidates(*table);
            let ghost words = words_view(table.word_list@);
            match table.regex_match_type {
                RegexMatchType::SimilarChar => {
                    let pattern = build_similar_char_pattern(&table.word_list);
                    let word = join_words(&table.word_list);
                    let conf = RegexConf {
                        table_id: table.table_id,
                        match_id: table.match_id,
                        process_type: pt,
                        word_id: 0,
                        word,
                    };
                    proof {
                        assert(cands.take(0) =~= Seq::<(Seq<char>, ConfView)>::empty());
                        assert(acc + kept(cands.take(0)) =~= acc);
                    }
                    try_add_pattern(
                        &mut regex_pattern_list,
                        &mut regex_conf_list,
                        pattern,
                        conf,
                        Ghost(acc + kept(cands.take(0))),
                    );
                    proof {
                        assert(cands.take(1) =~= cands);
                        assert(cands.take(1).drop_last() =~= cands.take(0));
                    }
                },
                RegexMatchType::Acrostic => {
                    let mut wi: usize = 0;
                    proof {
                        assert(cands.take(0) =~= Seq::<(Seq<char>, ConfView)>::empty());
                        assert(acc + kept(cands.take(0)) =~= acc);
                    }
                    while wi < table.word_list.len()
                        invariant
                            cands == table_candidates(*table),
                            words == words_view(table.word_list@),
                            table.regex_match_type == RegexMatchType::Acrostic,
                            table.process_type == pt,
                            wi <= table.word_list@.len(),
                            lists_hold(
                                regex_pattern_list@,
                                regex_conf_list@,
                                acc + kept(cands.take(wi as int)),
                            ),
                        decreases table.word_list@.len() - wi,
                    {
                        let word = table.word_list[wi];
                        let pattern = build_acrostic_pattern(word);
                        let conf = RegexConf {
                            table_id: table.table_id,
                            match_id: table.match_id,
                            process_type: pt,
                            word_id: wi as u32,
                            word: word.to_owned(),
                        };
                        try_add_pattern(
                            &mut regex_pattern_list,
                            &mut regex_conf_list,
                            pattern,
                            conf,
                            Ghost(acc + kept(cands.take(wi as int))),
                        );
                        proof {
                            assert(cands.take(wi + 1).drop_last() =~= cands.take(wi as int));
                            assert(cands.take(wi + 1).last() == cands[wi as int]);
                        }
                        wi += 1;
                    }
                    proof {
                        assert(cands.take(table.word_list@.len() as int) =~= cands);
                    }
                },
                RegexMatchType::Regex => {
                    let mut wi: usize = 0;
                    proof {
                        assert(cands.take(0) =~= Seq::<(Seq<char>, ConfView)>::empty());
                        assert(acc + kept(cands.take(0)) =~= acc);
                    }
                    while wi < table.word_list.len()
                        invariant
                            cands == table_candidates(*table),
                            words == words_view(table.word_list@),
                            table.regex_match_type == RegexMatchType::Regex,
                            table.process_type == pt,
                            wi <= table.word_list@.len(),
                            lists_hold(
                                regex_pattern_list@,
                                regex_conf_list@,
                                acc + kept(cands.take(wi as int)),
                            ),
                        decreases table.word_list@.len() - wi,
                    {
                        let word = table.word_list[wi];
                        let conf = RegexConf {
                            table_id: table.table_id,
                            match_id: table.match_id,
                            process_type: pt,
                            word_id: wi as u32,
                            word: word.to_owned(),
                        };
                        try_add_pattern(
                            &mut regex_pattern_list,
                            &mut regex_conf_list,
                            word.to_owned(),
                            conf,
                            Ghost(acc + kept(cands.take(wi as int))),
                        );
                        proof {
                            assert(cands.take(wi + 1).drop_last() =~= cands.take(wi as int));
                            assert(cands.take(wi + 1).last() == cands[wi as int]);
                        }
                        wi += 1;
                    }
                    proof {
                        assert(cands.take(table.word_list@.len() as int) =~= cands);
                    }
                },
            }
            proof {
                assert(tables.take(ti + 1).drop_last() =~= tables.take(ti as int));
                assert(tables.take(ti + 1).last() == tables[ti as int]);
            }
            ti += 1;
        }
        let process_type_tree = build_process_type_tree(&process_type_set);
        let regex_set = match regex_set_new(&regex_pattern_list) {
            Some(set) => set,
            None => regex_set_empty(),
        };
        proof {
            assert(tables.take(tables.len() as int) =~= tables);
        }
        let r = RegexMatcher {
            process_type_tree,
            regex_set,
            regex_dedup_conf_list: regex_conf_list,
            process_types: Ghost(process_type_set@),
        };
        proof {
            assert(r.confs() == entry_confs(regex_entries(tables)));
        }
        r
    }
}

/// Some result carries the table and word ids of report `c`.
pub open spec fn reported(results: Seq<RegexResult>, c: ConfView) -> bool {
    exists|k: int| 0 <= k < results.len() && results[k].table_id == c.0 && results[k].word_id == c.3
}

/// The dedup set holds exactly the keys of the results, the results have
/// distinct ids, and each comes from a hit.
spec fn dedup_state(
    seen: Set<u64>,
    results: Seq<RegexResult>,
    confs: Seq<ConfView>,
    hit: spec_fn(int) -> bool,
    n: int,
) -> bool {
    &&& forall|key: u64|
        seen.contains(key) <==> exists|k: int|
            0 <= k < results.len() && key == #[trigger] result_key(
                results[k].table_id,
                results[k].word_id,
            )
    &&& forall|k: int| 0 <= k < results.len() ==> #[trigger] from_hit(results[k], confs, hit, n)
    &&& forall|a: int, b: int|
        0 <= a < b < results.len() ==> (#[trigger] results[a].table_id, results[a].word_id) != (
            #[trigger] results[b].table_id,
            results[b].word_id,
        )
}

/// Adding the result of a hit whose key is new keeps the dedup state.
proof fn lemma_dedup_push(
    seen0: Set<u64>,
    seen1: Set<u64>,
    results0: Seq<RegexResult>,
    results1: Seq<RegexResult>,
    confs: Seq<ConfView>,
    hit: spec_fn(int) -> bool,
    n: int,
    i: int,
)
    requires
        dedup_state(seen0, results0, confs, hit, n),
        0 <= i < n,
        hit(i),
        !seen0.contains(result_key(confs[i].0, confs[i].3)),
        seen1 == seen0.insert(result_key(confs[i].0, confs[i].3)),
        results1 == results0.push(results1.last()),
        reports(results1.last(), confs[i]),
    ensures
        dedup_state(seen1, results1, confs, hit, n),
        reported(results1, confs[i]),
{
    let last = results1.len() - 1;
    assert forall|key: u64| seen1.contains(key) <==> exists|k: int|
        0 <= k < results1.len() && key == #[trigger] result_key(
            results1[k].table_id,
            results1[k].word_id,
        ) by {
        if seen0.contains(key) {
            let k = choose|k: int| 0 <= k < results0.len() && key == #[trigger] result_key(
                results0[k].table_id,
                results0[k].word_id,
            );
            assert(results1[k] == results0[k]);
        }
        if exists|k: int| 0 <= k < results1.len() && key == #[trigger] result_key(
            results1[k].table_id,
            results1[k].word_id,
        ) {
            let k = choose|k: int| 0 <= k < results1.len() && key == #[trigger] result_key(
                results1[k].table_id,
                results1[k].word_id,
            );
            if k < results0.len() {
                assert(results1[k] == results0[k]);
            }
        }
        assert(key == result_key(results1[last].table_id, results1[last].word_id) ==> seen1.contains(key));
    }
    assert forall|k: int| 0 <= k < results1.len() implies #[trigger] from_hit(results1[k], confs, hit, n) by {
        if k < results0.len() {
            assert(results1[k] == results0[k]);
            assert(from_hit(results0[k], confs, hit, n));
        }
    }
    assert forall|a: int, b: int| 0 <= a < b < results1.len() implies (#[trigger] results1[a].table_id, results1[a].word_id)
        != (#[trigger] results1[b].table_id, results1[b].word_id) by {
        assert(results1[a] == results0[a]);
        if b < results0.len() {
            assert(results1[b] == results0[b]);
        } else {
            assert(seen0.contains(result_key(results0[a].table_id, results0[a].word_id)));
            lemma_result_key(results0[a].table_id, results0[a].word_id, confs[i].0, confs[i].3);
        }
    }
}

/// Adding a result keeps every report reported.
proof fn lemma_reported_grows(results0: Seq<RegexResult>, results1: Seq<RegexResult>)
    requires
        results0.len() <= results1.len(),
        forall|k: int| 0 <= k < results0.len() ==> results1[k] == results0[k],
    ensures
        forall|c: ConfView| reported(results0, c) ==> #[trigger] reported(results1, c),
{
    assert forall|c: ConfView| reported(results0, c) implies #[trigger] reported(results1, c) by {
        let k = choose|k: int|
            0 <= k < results0.len() && results0[k].table_id == c.0 && results0[k].word_id == c.3;
        assert(results1[k] == results0[k]);
    }
}

/// A hit whose key is already seen is already reported.
proof fn lemma_dedup_seen(
    seen: Set<u64>,
    results: Seq<RegexResult>,
    confs: Seq<ConfView>,
    hit: spec_fn(int) -> bool,
    n: int,
    i: int,
)
    requires
        dedup_state(seen, results, confs, hit, n),
        seen.contains(result_key(confs[i].0, confs[i].3)),
    ensures
        reported(results, confs[i]),
{
    let key = result_key(confs[i].0, confs[i].3);
    let k = choose|k: int| 0 <= k < results.len() && key == #[trigger] result_key(
        results[k].table_id,
        results[k].word_id,
    );
    lemma_result_key(results[k].table_id, results[k].word_id, confs[i].0, confs[i].3);
}

/// The patterns below `m` that hit variant `j`, in ascending order.
pub open spec fn hits_below(
    patterns: Seq<Seq<char>>,
    confs: Seq<ConfView>,
    variants: Seq<TextVariant>,
    j: int,
    m: int,
) -> Seq<int>
    decreases m,
{
    if m <= 0 {
        Seq::empty()
    } else {
        hits_below(patterns, confs, variants, j, m - 1) + if variant_hits(
            patterns,
            confs,
            variants,
            j,
            m - 1,
        ) {
            seq![m - 1]
        } else {
            Seq::<int>::empty()
        }
    }
}

/// The hits of the first `upto` variants: variant by variant, and within a
/// variant the patterns in ascending order.
pub open spec fn hit_order(
    patterns: Seq<Seq<char>>,
    confs: Seq<ConfView>,
    variants: Seq<TextVariant>,
    upto: int,
) -> Seq<int>
    decreases upto,
{
    if upto <= 0 {
        Seq::empty()
    } else {
        hit_order(patterns, confs, variants, upto - 1) + hits_below(
            patterns,
            confs,
            variants,
            upto - 1,
            patterns.len() as int,
        )
    }
}

/// The reports of the hits `idx`, each table and word id once, at its first
/// hit.
pub open spec fn first_reports(idx: Seq<int>, confs: Seq<ConfView>) -> Seq<ConfView>
    decreases idx.len(),
{
    if idx.len() == 0 {
        Seq::empty()
    } else {
        let r = first_reports(idx.drop_last(), confs);
        let c = confs[idx.last()];
        if exists|k: int| 0 <= k < r.len() && #[trigger] r[k].0 == c.0 && r[k].3 == c.3 {
            r
        } else {
            r.push(c)
        }
    }
}

/// The results report `fr`, one for one and in order.
pub open spec fn in_order(results: Seq<RegexResult>, fr: Seq<ConfView>) -> bool {
    &&& results.len() == fr.len()
    &&& forall|k: int| 0 <= k < results.len() ==> #[trigger] reports(results[k], fr[k])
}

/// The hits among `ms` on variant `j`, in the order of `ms`.
spec fn hits_among(
    patterns: Seq<Seq<char>>,
    confs: Seq<ConfView>,
    variants: Seq<TextVariant>,
    j: int,
    ms: Seq<usize>,
) -> Seq<int>
    decreases ms.len(),
{
    if ms.len() == 0 {
        Seq::empty()
    } else {
        hits_among(patterns, confs, variants, j, ms.drop_last()) + if variant_hits(
            patterns,
            confs,
            variants,
            j,
            ms.last() as int,
        ) {
            seq![ms.last() as int]
        } else {
            Seq::<int>::empty()
        }
    }
}

/// The ascending list of the patterns below `m` that match variant `j`,
/// kept where they hit, is the ascending list of the hits below `m`.
proof fn lemma_matches_in_order(
    patterns: Seq<Seq<char>>,
    confs: Seq<ConfView>,
    variants: Seq<TextVariant>,
    j: int,
    ms: Seq<usize>,
    m: int,
)
    requires
        0 <= m <= patterns.len(),
        m <= usize::MAX,
        0 <= j < variants.len(),
        strictly_ascending(ms),
        forall|x: usize|
            ms.contains(x) <==> (x < m && regex_is_match(patterns[x as int], variants[j].text@)),
    ensures
        hits_among(patterns, confs, variants, j, ms) == hits_below(patterns, confs, variants, j, m),
    decreases m,
{
    if m == 0 {
        if ms.len() > 0 {
            assert(ms.contains(ms[0]));
        }
        assert(ms.len() == 0);
    } else {
        let y = (m - 1) as usize;
        assert(y as int == m - 1);
        if regex_is_match(patterns[m - 1], variants[j].text@) {
            assert(y < m && regex_is_match(patterns[y as int], variants[j].text@));
            assert(ms.contains(y));
            let a = choose|a: int| 0 <= a < ms.len() && ms[a] == y;
            let l = ms.len() - 1;
            assert(ms.contains(ms[l]));
            assert(ms[l] < m);
            if a < l {
                assert(ms[a] < ms[l]);
            }
            assert(ms.last() == y);
            let d = ms.drop_last();
            assert(strictly_ascending(d)) by {
                assert forall|p: int, q: int| 0 <= p < q < d.len() implies d[p] < d[q] by {
                    assert(d[p] == ms[p] && d[q] == ms[q]);
                }
            }
            assert forall|x: usize|
                d.contains(x) <==> (x < m - 1 && regex_is_match(patterns[x as int], variants[j].text@)) by {
                if d.contains(x) {
                    let b = choose|b: int| 0 <= b < d.len() && d[b] == x;
                    assert(ms[b] == x);
                    assert(ms.contains(x));
                    assert(ms[b] < ms[l]);
                }
                if x < m - 1 && regex_is_match(patterns[x as int], variants[j].text@) {
                    assert(ms.contains(x));
                    let b = choose|b: int| 0 <= b < ms.len() && ms[b] == x;
                    assert(b != l);
                    assert(d[b] == x);
                }
            }
            lemma_matches_in_order(patterns, confs, variants, j, d, m - 1);
        } else {
            assert forall|x: usize|
                ms.contains(x) <==> (x < m - 1 && regex_is_match(patterns[x as int], variants[j].text@)) by {
                if ms.contains(x) {
                    assert(x != y);
                }
            }
            lemma_matches_in_order(patterns, confs, variants, j, ms, m - 1);
            assert(!variant_hits(patterns, confs, variants, j, m - 1));
            assert(hits_below(patterns, confs, variants, j, m) =~= hits_below(
                patterns,
                confs,
                variants,
                j,
                m - 1,
            ));
        }
    }
}

/// One more hit keeps the results in the order of first hits: a hit whose
/// ids are already reported adds nothing, any other adds its report.
proof fn lemma_order_step(
    seen: Set<u64>,
    results: Seq<RegexResult>,
    idx: Seq<int>,
    confs: Seq<ConfView>,
    i: int,
)
    requires
        in_order(results, first_reports(idx, confs)),
        forall|key: u64|
            seen.contains(key) <==> exists|k: int|
                0 <= k < results.len() && key == #[trigger] result_key(
                    results[k].table_id,
                    results[k].word_id,
                ),
    ensures
        seen.contains(result_key(confs[i].0, confs[i].3)) ==> first_reports(idx.push(i), confs)
            == first_reports(idx, confs),
        !seen.contains(result_key(confs[i].0, confs[i].3)) ==> first_reports(idx.push(i), confs)
            == first_reports(idx, confs).push(confs[i]),
{
    let fr = first_reports(idx, confs);
    let c = confs[i];
    assert(idx.push(i).drop_last() =~= idx);
    assert(idx.push(i).last() == i);
    if seen.contains(result_key(c.0, c.3)) {
        let k = choose|k: int|
            0 <= k < results.len() && result_key(c.0, c.3) == #[trigger] result_key(
                results[k].table_id,
                results[k].word_id,
            );
        lemma_result_key(results[k].table_id, results[k].word_id, c.0, c.3);
        assert(reports(results[k], fr[k]));
        assert(fr[k].0 == c.0 && fr[k].3 == c.3);
    } else {
        if exists|k: int| 0 <= k < fr.len() && #[trigger] fr[k].0 == c.0 && fr[k].3 == c.3 {
            let k = choose|k: int| 0 <= k < fr.len() && #[trigger] fr[k].0 == c.0 && fr[k].3 == c.3;
            assert(reports(results[k], fr[k]));
            assert(seen.contains(result_key(results[k].table_id, results[k].word_id)));
        }
    }
}

/// Exactness carries over between two equivalent notions of a hit.
proof fn lemma_results_exact_transfer(
    results: Seq<RegexResult>,
    confs: Seq<ConfView>,
    h1: spec_fn(int) -> bool,
    h2: spec_fn(int) -> bool,
    n: int,
)
    requires
        results_exact(results, confs, h1, n),
        forall|i: int| 0 <= i < n ==> #[trigger] h1(i) == h2(i),
    ensures
        results_exact(results, confs, h2, n),
{
    assert forall|k: int| 0 <= k < results.len() implies #[trigger] from_hit(
        results[k],
        confs,
        h2,
        n,
    ) by {
        assert(from_hit(results[k], confs, h1, n));
        let i = choose|i: int| 0 <= i < n && #[trigger] h1(i) && reports(results[k], confs[i]);
        assert(h2(i));
    }
    assert forall|i: int| 0 <= i < n && #[trigger] h2(i) implies exists|k: int|
        0 <= k < results.len() && results[k].table_id == confs[i].0 && results[k].word_id
            == confs[i].3 by {
        assert(h1(i));
    }
}

impl<'a> TextMatcherTrait<'a, RegexResult<'a>> for RegexMatcher {
    /// Whether some kept pattern matches a text variant produced by its
    /// pipeline; an empty text matches nothing.
    fn is_match(&'a self, registry: &TransformRegistry, text: &'a str) -> (r: bool)
        ensures
            r == (text@.len() > 0 && exists|i: int|
                0 <= i < self.patterns().len() && #[trigger] hit_in_tree(
                    registry,
                    self.tree(),
                    text@,
                    self.patterns(),
                    self.confs(),
                    i,
                )),
    {
        proof {
            use_type_invariant(self);
        }
        if text.is_empty() {
            return false;
        }
        let variants = walk_process_tree(registry, &self.process_type_tree, text);
        let r = self.is_match_preprocessed(&variants);
        proof {
            assert forall|i: int| 0 <= i < self.patterns().len() implies #[trigger] hit_in_tree(
                registry,
                self.tree(),
                text@,
                self.patterns(),
                self.confs(),
                i,
            ) == hit_in_variants(self.patterns(), self.confs(), variants@, i) by {
                lemma_walk_hits(
                    registry,
                    self.tree(),
                    text,
                    variants@,
                    self.patterns(),
                    self.confs(),
                    i,
                );
            }
            if r {
                let i = choose|i: int|
                    0 <= i < self.patterns().len() && #[trigger] hit_in_variants(
                        self.patterns(),
                        self.confs(),
                        variants@,
                        i,
                    );
                assert(hit_in_tree(registry, self.tree(), text@, self.patterns(), self.confs(), i));
            }
        }
        r
    }

    /// Every match of a kept pattern in a text variant produced by its
    /// pipeline, one per table and word id; none for an empty text.
    fn process(&'a self, registry: &TransformRegistry, text: &'a str) -> (r: Vec<RegexResult<'a>>)
        ensures
            text@.len() == 0 ==> r@.len() == 0,
            text@.len() > 0 ==> results_exact(
                r@,
                self.confs(),
                |i: int| hit_in_tree(registry, self.tree(), text@, self.patterns(), self.confs(), i),
                self.patterns().len() as int,
            ),
    {
        proof {
            use_type_invariant(self);
        }
        if text.is_empty() {
            return Vec::new();
        }
        let variants = walk_process_tree(registry, &self.process_type_tree, text);
        let r = self.process_preprocessed(&variants);
        proof {
            let h1 = |i: int| hit_in_variants(self.patterns(), self.confs(), variants@, i);
            let h2 = |i: int|
                hit_in_tree(registry, self.tree(), text@, self.patterns(), self.confs(), i);
            assert forall|i: int| 0 <= i < self.patterns().len() implies #[trigger] h1(i) == h2(i) by {
                lemma_walk_hits(
                    registry,
                    self.tree(),
                    text,
                    variants@,
                    self.patterns(),
                    self.confs(),
                    i,
                );
            }
            lemma_results_exact_transfer(
                r@,
                self.confs(),
                h1,
                h2,
                self.patterns().len() as int,
            );
        }
        r
    }

    /// Whether some kept pattern matches one of the variants whose mask
    /// carries the pattern's pipeline bit.
    fn is_match_preprocessed(&'a self, processed_text_process_type_masks: &Vec<TextVariant<'a>>) -> (r:
        bool)
        ensures
            r == exists|i: int|
                0 <= i < self.patterns().len() && #[trigger] hit_in_variants(
                    self.patterns(),
                    self.confs(),
                    processed_text_process_type_masks@,
                    i,
                ),
    {
        proof {
            use_type_invariant(self);
        }
        let v = processed_text_process_type_masks;
        let ghost pats = self.patterns();
        let ghost confs = self.confs();
        let nconfs = self.regex_dedup_conf_list.len();
        let mut j: usize = 0;
        while j < v.len()
            invariant
                v == processed_text_process_type_masks,
                pats == self.patterns(),
                confs == self.confs(),
                pats.len() <= confs.len(),
                confs.len() == self.regex_dedup_conf_list@.len(),
                confs.len() <= usize::MAX,
                j <= v@.len(),
                forall|jj: int, i: int|
                    0 <= jj < j && 0 <= i < pats.len() ==> !#[trigger] variant_hits(
                        pats,
                        confs,
                        v@,
                        jj,
                        i,
                    ),
            decreases v@.len() - j,
        {
            let matches = regex_set_matches(&self.regex_set, variant_str(&v[j]));
            let mut k: usize = 0;
            while k < matches.len()
                invariant
                    v == processed_text_process_type_masks,
                    pats == self.patterns(),
                    confs == self.confs(),
                    pats.len() <= confs.len(),
                    confs.len() == self.regex_dedup_conf_list@.len(),
                    confs.len() <= usize::MAX,
                    j < v@.len(),
                    k <= matches@.len(),
                    forall|x: usize|
                        matches@.contains(x) <==> (x < pats.len() && regex_is_match(
                            pats[x as int],
                            v@[j as int].text@,
                        )),
                    forall|kk: int|
                        0 <= kk < k ==> !bit_set(
                            v@[j as int].mask,
                            conf_bit(confs[#[trigger] matches@[kk] as int]),
                        ),
                decreases matches@.len() - k,
            {
                let index = matches[k];
                proof {
                    assert(matches@.contains(matches@[k as int]));
                }
                let conf = &self.regex_dedup_conf_list[index];
                let b = (conf.process_type.bits() % 64) as u64;
                proof {
                    assert(confs[index as int] == conf_view(self.regex_dedup_conf_list@[index as int]));
                }
                if mask_has_bit(v[j].mask, b) {
                    proof {
                        assert(variant_hits(pats, confs, v@, j as int, index as int));
                        assert(hit_in_variants(
                            self.patterns(),
                            self.confs(),
                            processed_text_process_type_masks@,
                            index as int,
                        ));
                    }
                    return true;
                }
                k += 1;
            }
            proof {
                assert forall|i: int| 0 <= i < pats.len() implies !#[trigger] variant_hits(
                    pats,
                    confs,
                    v@,
                    j as int,
                    i,
                ) by {
                    if regex_is_match(pats[i], v@[j as int].text@) {
                        assert(matches@.contains(i as usize));
                        let kk = choose|kk: int| 0 <= kk < matches@.len() && matches@[kk] == i as usize;
                        assert(!bit_set(v@[j as int].mask, conf_bit(confs[matches@[kk] as int])));
                    }
                }
            }
            j += 1;
        }
        proof {
            assert forall|i: int| 0 <= i < pats.len() implies !#[trigger] hit_in_variants(
                pats,
                confs,
                v@,
                i,
            ) by {
                if hit_in_variants(pats, confs, v@, i) {
                    let jj = choose|jj: int| 0 <= jj < v@.len() && #[trigger] variant_hits(pats, confs, v@, jj, i);
                    assert(!variant_hits(pats, confs, v@, jj, i));
                }
            }
        }
        false
    }

    /// Every match of a kept pattern in a variant whose mask carries the
    /// pattern's pipeline bit, one per table and word id, in the order the
    /// variants and then the patterns are met.
    fn process_preprocessed(&'a self, processed_text_process_type_masks: &Vec<TextVariant<'a>>) -> (r:
        Vec<RegexResult<'a>>)
        ensures
            results_exact(
                r@,
                self.confs(),
                |i: int|
                    hit_in_variants(
                        self.patterns(),
                        self.confs(),
                        processed_text_process_type_masks@,
                        i,
                    ),
                self.patterns().len() as int,
            ),
            in_order(
                r@,
                first_reports(
                    hit_order(
                        self.patterns(),
                        self.confs(),
                        processed_text_process_type_masks@,
                        processed_text_process_type_masks@.len() as int,
                    ),
                    self.confs(),
                ),
            ),
    {
        proof {
            use_type_invariant(self);
        }
        let v = processed_text_process_type_masks;
        let ghost pats = self.patterns();
        let ghost confs = self.confs();
        let nconfs = self.regex_dedup_conf_list.len();
        let ghost n = pats.len() as int;
        let ghost hit = |i: int| hit_in_variants(pats, confs, v@, i);
        let mut result_list: Vec<RegexResult<'a>> = Vec::new();
        let mut table_id_index_set: HashSet<u64> = HashSet::new();
        let mut j: usize = 0;
        while j < v.len()
            invariant
                v == processed_text_process_type_masks,
                pats == self.patterns(),
                confs == self.confs(),
                n == pats.len(),
                hit == (|i: int| hit_in_variants(pats, confs, v@, i)),
                pats.len() <= confs.len(),
                confs.len() == self.regex_dedup_conf_list@.len(),
                confs.len() <= usize::MAX,
                j <= v@.len(),
                dedup_state(table_id_index_set@, result_list@, confs, hit, n),
                forall|jj: int, i: int|
                    0 <= jj < j && 0 <= i < n && #[trigger] variant_hits(pats, confs, v@, jj, i)
                        ==> reported(result_list@, confs[i]),
                in_order(result_list@, first_reports(hit_order(pats, confs, v@, j as int), confs)),
            decreases v@.len() - j,
        {
            let matches = regex_set_matches(&self.regex_set, variant_str(&v[j]));
            proof {
                assert(matches@.take(0) =~= Seq::<usize>::empty());
                assert(hit_order(pats, confs, v@, j as int) + hits_among(pats, confs, v@, j as int, matches@.take(0))
                    =~= hit_order(pats, confs, v@, j as int));
            }
            let mut k: usize = 0;
            while k < matches.len()
                invariant
                    v == processed_text_process_type_masks,
                    pats == self.patterns(),
                    confs == self.confs(),
                    n == pats.len(),
                    hit == (|i: int| hit_in_variants(pats, confs, v@, i)),
                    pats.len() <= confs.len(),
                    confs.len() == self.regex_dedup_conf_list@.len(),
                    confs.len() <= usize::MAX,
                    j < v@.len(),
                    k <= matches@.len(),
                    forall|x: usize|
                        matches@.contains(x) <==> (x < pats.len() && regex_is_match(
                            pats[x as int],
                            v@[j as int].text@,
                        )),
                    dedup_state(table_id_index_set@, result_list@, confs, hit, n),
                    forall|jj: int, i: int|
                        0 <= jj < j && 0 <= i < n && #[trigger] variant_hits(pats, confs, v@, jj, i)
                            ==> reported(result_list@, confs[i]),
                    forall|kk: int|
                        0 <= kk < k && variant_hits(pats, confs, v@, j as int, #[trigger] matches@[kk] as int)
                            ==> reported(result_list@, confs[matches@[kk] as int]),
                    strictly_ascending(matches@),
                    in_order(
                        result_list@,
                        first_reports(
                            hit_order(pats, confs, v@, j as int) + hits_among(
                                pats,
                                confs,
                                v@,
                                j as int,
                                matches@.take(k as int),
                            ),
                            confs,
                        ),
                    ),
                decreases matches@.len() - k,
            {
                let index = matches[k];
                let ghost idx0 = hit_order(pats, confs, v@, j as int) + hits_among(
                    pats,
                    confs,
                    v@,
                    j as int,
                    matches@.take(k as int),
                );
                proof {
                    assert(matches@.take(k + 1).drop_last() =~= matches@.take(k as int));
                    assert(matches@.take(k + 1).last() == index);
                }
                proof {
                    assert(matches@.contains(matches@[k as int]));
                }
                let conf = &self.regex_dedup_conf_list[index];
                let b = (conf.process_type.bits() % 64) as u64;
                proof {
                    assert(confs[index as int] == conf_view(self.regex_dedup_conf_list@[index as int]));
                }
                if mask_has_bit(v[j].mask, b) {
                    proof {
                        assert(variant_hits(pats, confs, v@, j as int, index as int));
                        assert(hit(index as int));
                    }
                    let key = ((conf.table_id as u64) << 32u64) | (conf.word_id as u64);
                    let ghost results_before = result_list@;
                    let ghost set_before = table_id_index_set@;
                    proof {
                        lemma_order_step(set_before, results_before, idx0, confs, index as int);
                        assert(idx0 + seq![index as int] =~= idx0.push(index as int));
                        assert(hit_order(pats, confs, v@, j as int) + hits_among(
                            pats,
                            confs,
                            v@,
                            j as int,
                            matches@.take(k + 1),
                        ) =~= idx0.push(index as int));
                    }
                    if table_id_index_set.insert(key) {
                        result_list.push(
                            RegexResult {
                                match_id: conf.match_id,
                                table_id: conf.table_id,
                                word_id: conf.word_id,
                                word: Cow::Owned(conf.word.clone()),
                            },
                        );
                        proof {
                            lemma_dedup_push(
                                set_before,
                                table_id_index_set@,
                                results_before,
                                result_list@,
                                confs,
                                hit,
                                n,
                                index as int,
                            );
                            lemma_reported_grows(results_before, result_list@);
                            let fr = first_reports(idx0, confs);
                            assert forall|q: int| 0 <= q < result_list@.len() implies #[trigger] reports(
                                result_list@[q],
                                fr.push(confs[index as int])[q],
                            ) by {
                                if q < results_before.len() {
                                    assert(result_list@[q] == results_before[q]);
                                }
                            }
                        }
                    } else {
                        proof {
                            lemma_dedup_seen(set_before, results_before, confs, hit, n, index as int);
                        }
                    }
                } else {
                    proof {
                        assert(!variant_hits(pats, confs, v@, j as int, index as int));
                        assert(hit_order(pats, confs, v@, j as int) + hits_among(
                            pats,
                            confs,
                            v@,
                            j as int,
                            matches@.take(k + 1),
                        ) =~= idx0);
                    }
                }
                k += 1;
            }
            proof {
                assert forall|i: int| 0 <= i < n && #[trigger] variant_hits(pats, confs, v@, j as int, i)
                    implies reported(result_list@, confs[i]) by {
                    assert(matches@.contains(i as usize));
                    let kk = choose|kk: int| 0 <= kk < matches@.len() && matches@[kk] == i as usize;
                    assert(variant_hits(pats, confs, v@, j as int, matches@[kk] as int));
                }
                assert(matches@.take(matches@.len() as int) =~= matches@);
                lemma_matches_in_order(pats, confs, v@, j as int, matches@, n);
                assert(hit_order(pats, confs, v@, j + 1) == hit_order(pats, confs, v@, j as int)
                    + hits_below(pats, confs, v@, j as int, n));
            }
            j += 1;
        }
        proof {
            assert forall|i: int| 0 <= i < n && #[trigger] hit(i) implies exists|k: int|
                0 <= k < result_list@.len() && result_list@[k].table_id == confs[i].0
                    && result_list@[k].word_id == confs[i].3 by {
                let jj = choose|jj: int| 0 <= jj < v@.len() && #[trigger] variant_hits(pats, confs, v@, jj, i);
                assert(reported(result_list@, confs[i]));
            }
        }
        result_list
    }
}

} // verus!
