//! Parsing the plain-text source maps from which the engines can be built.
//!
//! A source map is a text of lines, each holding a key and a value separated
//! by a tab. The text is trimmed of surrounding whitespace first; lines end at
//! `\n`, and a `\r` before the `\n` is dropped. The delete sources are plain
//! lists of characters. All specifications here work on the codepoints of a
//! text, [`cps`].
use vstd::prelude::*;
use vstd::utf8::*;

use crate::delete::{bitset_contains, DeleteMatcher};
use crate::normalize::NormalizeMatcher;
use crate::page_table::{entries_value, spec_lookup, spec_slot, spec_trim_packed};
use crate::romanize::{concat_values, entries_view, packed_entries, RomanizeMatcher};
use crate::step::{TransformRegistry, TransformStep};
use crate::variant_norm::VariantNormMatcher;
use crate::utf8::{
    at_char, char_bytes, decode_utf8_raw, encode_utf8_raw, lemma_at_char_end, lemma_at_char_start,
    lemma_at_char_step, lemma_char_bytes_shape, lemma_encode_utf8_append, lemma_encode_utf8_single,
    lemma_scalar_char_roundtrip, string_from_utf8,
};

verus! {

/// The codepoints of a text.
pub open spec fn cps(s: Seq<char>) -> Seq<u32> {
    s.map_values(|c: char| c as u32)
}

/// Whether codepoint `v` is Unicode white space (the `White_Space`
/// property, which `str::trim` strips).
pub open spec fn is_ws(v: u32) -> bool {
    (0x09 <= v <= 0x0D) || v == 0x20 || v == 0x85 || v == 0xA0 || v == 0x1680 || (0x2000 <= v
        <= 0x200A) || v == 0x2028 || v == 0x2029 || v == 0x202F || v == 0x205F || v == 0x3000
}

/// `s` without its leading white space.
pub open spec fn trim_start(s: Seq<u32>) -> Seq<u32>
    decreases s.len(),
{
    if s.len() > 0 && is_ws(s[0]) {
        trim_start(s.drop_first())
    } else {
        s
    }
}

/// `s` without its trailing white space.
pub open spec fn trim_end(s: Seq<u32>) -> Seq<u32>
    decreases s.len(),
{
    if s.len() > 0 && is_ws(s.last()) {
        trim_end(s.drop_last())
    } else {
        s
    }
}

/// `s` without leading and trailing white space.
pub open spec fn trimmed(s: Seq<u32>) -> Seq<u32> {
    trim_end(trim_start(s))
}

/// The pieces of `s` between the `\n` codepoints: one more than the number
/// of `\n`.
pub open spec fn pieces(s: Seq<u32>) -> Seq<Seq<u32>>
    decreases s.len(),
{
    if s.len() == 0 {
        seq![Seq::<u32>::empty()]
    } else {
        let p = pieces(s.drop_last());
        if s.last() == 0x0A {
            p.push(Seq::<u32>::empty())
        } else {
            p.update(p.len() - 1, p.last().push(s.last()))
        }
    }
}

/// A line that ended at `\n` without a `\r` before it.
pub open spec fn strip_cr(l: Seq<u32>) -> Seq<u32> {
    if l.len() > 0 && l.last() == 0x0D {
        l.drop_last()
    } else {
        l
    }
}

/// The lines of `s`: none for an empty text; otherwise the pieces between
/// `\n`, without the empty piece after a final `\n`, and with a `\r` dropped
/// from the end of each line that a `\n` ended.
pub open spec fn lines_of(s: Seq<u32>) -> Seq<Seq<u32>> {
    if s.len() == 0 {
        Seq::empty()
    } else {
        let p = pieces(s);
        let body = if s.last() == 0x0A {
            p.drop_last()
        } else {
            p
        };
        Seq::new(
            body.len(),
            |i: int|
                if i < p.len() - 1 {
                    strip_cr(body[i])
                } else {
                    body[i]
                },
        )
    }
}

/// The views of a list of codepoint vectors.
pub open spec fn vec_views(v: Seq<Vec<u32>>) -> Seq<Seq<u32>> {
    v.map_values(|x: Vec<u32>| x@)
}

/// The codepoints of `text`.
fn decode_codepoints(text: &str) -> (r: Vec<u32>)
    ensures
        r@ == cps(text@),
{
    let bytes = text.as_bytes();
    let ghost chars = text@;
    let mut out: Vec<u32> = Vec::new();
    let mut offset: usize = 0;
    let ghost mut k: int = 0;
    proof {
        lemma_at_char_start(chars, bytes@);
    }
    while offset < bytes.len()
        invariant
            bytes@ == encode_utf8(chars),
            chars == text@,
            at_char(chars, bytes@, offset as int, k),
            out@ == cps(chars.take(k)),
        decreases bytes@.len() - offset,
    {
        proof {
            lemma_at_char_end(chars, bytes@, offset as int, k);
            lemma_at_char_step(chars, bytes@, offset as int, k);
            lemma_char_bytes_shape(chars[k]);
        }
        let b = bytes[offset];
        let cp: u32;
        let n: usize;
        if b < 0x80 {
            cp = b as u32;
            n = 1;
        } else {
            let (c, l) = decode_utf8_raw(bytes, offset);
            cp = c;
            n = l;
        }
        out.push(cp);
        offset = offset + n;
        proof {
            assert(chars.take(k + 1) =~= chars.take(k).push(chars[k]));
            assert(cps(chars.take(k + 1)) =~= cps(chars.take(k)).push(chars[k] as u32));
            k = k + 1;
        }
    }
    proof {
        lemma_at_char_end(chars, bytes@, offset as int, k);
        assert(chars.take(k) =~= chars);
    }
    out
}

/// Whether `v` is white space.
fn is_ws_exec(v: u32) -> (r: bool)
    ensures
        r == is_ws(v),
{
    (0x09 <= v && v <= 0x0D) || v == 0x20 || v == 0x85 || v == 0xA0 || v == 0x1680 || (0x2000 <= v
        && v <= 0x200A) || v == 0x2028 || v == 0x2029 || v == 0x202F || v == 0x205F || v == 0x3000
}

/// Trimming the end of `s.subrange(lo, hi)` after white space at `hi - 1`.
proof fn lemma_trim_end_step(s: Seq<u32>, lo: int, hi: int)
    requires
        0 <= lo < hi <= s.len(),
        is_ws(s[hi - 1]),
    ensures
        trim_end(s.subrange(lo, hi)) == trim_end(s.subrange(lo, hi - 1)),
{
    assert(s.subrange(lo, hi).drop_last() =~= s.subrange(lo, hi - 1));
}

/// The codepoints of `text` with surrounding white space removed.
fn trimmed_codepoints(text: &str) -> (r: Vec<u32>)
    ensures
        r@ == trimmed(cps(text@)),
{
    let v = decode_codepoints(text);
    let ghost s = v@;
    proof {
        assert(s.subrange(0, s.len() as int) =~= s);
    }
    let mut lo: usize = 0;
    while lo < v.len() && is_ws_exec(v[lo])
        invariant
            s == v@,
            lo <= s.len(),
            trim_start(s) == trim_start(s.subrange(lo as int, s.len() as int)),
        decreases s.len() - lo,
    {
        proof {
            assert(s.subrange(lo as int, s.len() as int).drop_first() =~= s.subrange(
                lo + 1,
                s.len() as int,
            ));
        }
        lo += 1;
    }
    proof {
        if lo < s.len() {
            assert(s.subrange(lo as int, s.len() as int)[0] == s[lo as int]);
        }
        assert(trim_start(s) == s.subrange(lo as int, s.len() as int));
    }
    let mut hi: usize = v.len();
    while hi > lo && is_ws_exec(v[hi - 1])
        invariant
            s == v@,
            lo <= hi <= s.len(),
            trim_start(s) == s.subrange(lo as int, s.len() as int),
            trimmed(s) == trim_end(s.subrange(lo as int, hi as int)),
        decreases hi - lo,
    {
        proof {
            lemma_trim_end_step(s, lo as int, hi as int);
        }
        hi -= 1;
    }
    proof {
        if hi > lo {
            assert(s.subrange(lo as int, hi as int).last() == s[hi - 1]);
        }
    }
    let mut out: Vec<u32> = Vec::new();
    let mut i: usize = lo;
    while i < hi
        invariant
            s == v@,
            lo <= i <= hi <= s.len(),
            out@ == s.subrange(lo as int, i as int),
        decreases hi - i,
    {
        out.push(v[i]);
        proof {
            assert(s.subrange(lo as int, i + 1) =~= s.subrange(lo as int, i as int).push(s[i as int]));
        }
        i += 1;
    }
    out
}

/// There is always at least one piece.
proof fn lemma_pieces_nonempty(s: Seq<u32>)
    ensures
        pieces(s).len() >= 1,
    decreases s.len(),
{
    if s.len() > 0 {
        lemma_pieces_nonempty(s.drop_last());
    }
}

/// Cuts `s` at its `\n` codepoints.
fn split_pieces(s: &Vec<u32>) -> (r: Vec<Vec<u32>>)
    ensures
        vec_views(r@) == pieces(s@),
{
    let mut done: Vec<Vec<u32>> = Vec::new();
    let mut cur: Vec<u32> = Vec::new();
    let mut i: usize = 0;
    proof {
        assert(s@.take(0) =~= Seq::<u32>::empty());
        assert(vec_views(done@).push(cur@) =~= pieces(s@.take(0)));
    }
    while i < s.len()
        invariant
            i <= s@.len(),
            vec_views(done@).push(cur@) == pieces(s@.take(i as int)),
        decreases s@.len() - i,
    {
        let c = s[i];
        let ghost prev = pieces(s@.take(i as int));
        proof {
            assert(s@.take(i + 1).drop_last() =~= s@.take(i as int));
            assert(s@.take(i + 1).last() == c);
        }
        if c == 0x0A {
            let piece = cur;
            done.push(piece);
            cur = Vec::new();
            proof {
                assert(vec_views(done@) =~= prev);
                assert(vec_views(done@).push(cur@) =~= prev.push(Seq::<u32>::empty()));
            }
        } else {
            cur.push(c);
            proof {
                assert(vec_views(done@).push(cur@) =~= prev.update(prev.len() - 1, prev.last().push(c)));
            }
        }
        i += 1;
    }
    proof {
        assert(s@.take(s@.len() as int) =~= s@);
    }
    let last = cur;
    done.push(last);
    done
}

/// The lines of `s`.
fn split_lines(s: &Vec<u32>) -> (r: Vec<Vec<u32>>)
    ensures
        vec_views(r@) == lines_of(s@),
{
    if s.len() == 0 {
        let out: Vec<Vec<u32>> = Vec::new();
        proof {
            assert(vec_views(out@) =~= lines_of(s@));
        }
        return out;
    }
    let p = split_pieces(s);
    let ghost pv = pieces(s@);
    proof {
        lemma_pieces_nonempty(s@);
        assert(vec_views(p@).len() == p@.len());
    }
    let count = if s[s.len() - 1] == 0x0A {
        p.len() - 1
    } else {
        p.len()
    };
    proof {
        assert(vec_views(p@).len() == p@.len());
    }
    let mut out: Vec<Vec<u32>> = Vec::new();
    let mut i: usize = 0;
    while i < count
        invariant
            s@.len() > 0,
            pv == pieces(s@),
            vec_views(p@) == pv,
            count <= p@.len(),
            count == if s@.last() == 0x0A {
                pv.len() - 1
            } else {
                pv.len() as int
            },
            i <= count,
            vec_views(out@) == lines_of(s@).take(i as int),
            lines_of(s@).len() == count,
        decreases count - i,
    {
        let line = &p[i];
        let mut l: Vec<u32> = Vec::new();
        let n = line.len();
        let keep = if i + 1 < p.len() && n > 0 && line[n - 1] == 0x0D {
            n - 1
        } else {
            n
        };
        let mut j: usize = 0;
        while j < keep
            invariant
                keep <= n == line@.len(),
                j <= keep,
                l@ == line@.take(j as int),
            decreases keep - j,
        {
            l.push(line[j]);
            proof {
                assert(line@.take(j + 1) =~= line@.take(j as int).push(line@[j as int]));
            }
            j += 1;
        }
        proof {
            assert(vec_views(p@)[i as int] == line@);
            assert(pv[i as int] == line@);
            assert(p@.len() == pv.len());
            let body = if s@.last() == 0x0A {
                pv.drop_last()
            } else {
                pv
            };
            assert(body[i as int] == pv[i as int]);
            assert(lines_of(s@)[i as int] == if (i as int) < pv.len() - 1 {
                strip_cr(body[i as int])
            } else {
                body[i as int]
            });
            if i + 1 < p@.len() {
                if n > 0 && line@[n - 1] == 0x0D {
                    assert(l@ =~= strip_cr(line@));
                } else {
                    assert(l@ =~= strip_cr(line@));
                }
                assert((i as int) < pv.len() - 1);
                assert(l@ == strip_cr(body[i as int]));
            } else {
                assert(l@ =~= line@);
                assert(!((i as int) < pv.len() - 1));
            }
            assert(l@ == lines_of(s@)[i as int]);
        }
        let ghost prev_out = out@;
        let ghost lv = l@;
        out.push(l);
        proof {
            assert(vec_views(prev_out) == lines_of(s@).take(i as int));
            assert(lines_of(s@).take(i as int).len() == i);
            assert(vec_views(prev_out).len() == prev_out.len());
            assert(vec_views(out@) =~= vec_views(prev_out).push(lv));
            assert(lines_of(s@).take(i + 1) =~= lines_of(s@).take(i as int).push(lv));
            assert(vec_views(out@) =~= lines_of(s@).take(i + 1));
        }
        i += 1;
    }
    proof {
        assert(lines_of(s@).take(count as int) =~= lines_of(s@));
    }
    out
}


/// Every codepoint of `s` is a Unicode scalar value.
pub open spec fn scalars(s: Seq<u32>) -> bool {
    forall|i: int| 0 <= i < s.len() ==> is_scalar(#[trigger] s[i])
}

/// The codepoints of a text are scalar values.
proof fn lemma_cps_scalars(s: Seq<char>)
    ensures
        scalars(cps(s)),
{
    assert forall|i: int| 0 <= i < cps(s).len() implies is_scalar(#[trigger] cps(s)[i]) by {
        char_is_scalar(s[i]);
    }
}

/// Trimming keeps the codepoints scalar.
proof fn lemma_trimmed_scalars(s: Seq<u32>)
    requires
        scalars(s),
    ensures
        scalars(trimmed(s)),
{
    lemma_trim_start_scalars(s);
    lemma_trim_end_scalars(trim_start(s));
}

proof fn lemma_trim_start_scalars(s: Seq<u32>)
    requires
        scalars(s),
    ensures
        scalars(trim_start(s)),
    decreases s.len(),
{
    if s.len() > 0 && is_ws(s[0]) {
        assert forall|i: int| 0 <= i < s.drop_first().len() implies is_scalar(
            #[trigger] s.drop_first()[i],
        ) by {
            assert(s.drop_first()[i] == s[i + 1]);
        }
        lemma_trim_start_scalars(s.drop_first());
    }
}

proof fn lemma_trim_end_scalars(s: Seq<u32>)
    requires
        scalars(s),
    ensures
        scalars(trim_end(s)),
    decreases s.len(),
{
    if s.len() > 0 && is_ws(s.last()) {
        assert forall|i: int| 0 <= i < s.drop_last().len() implies is_scalar(
            #[trigger] s.drop_last()[i],
        ) by {
            assert(s.drop_last()[i] == s[i]);
        }
        lemma_trim_end_scalars(s.drop_last());
    }
}

/// Cutting at `\n` keeps the codepoints scalar.
proof fn lemma_pieces_scalars(s: Seq<u32>)
    requires
        scalars(s),
    ensures
        forall|i: int| 0 <= i < pieces(s).len() ==> scalars(#[trigger] pieces(s)[i]),
    decreases s.len(),
{
    if s.len() > 0 {
        let d = s.drop_last();
        assert forall|i: int| 0 <= i < d.len() implies is_scalar(#[trigger] d[i]) by {
            assert(d[i] == s[i]);
        }
        lemma_pieces_scalars(d);
        lemma_pieces_nonempty(d);
        let p = pieces(d);
        assert(is_scalar(s[s.len() - 1]));
        if s.last() != 0x0A {
            let q = p.last().push(s.last());
            assert(scalars(p[p.len() - 1]));
            assert forall|j: int| 0 <= j < q.len() implies is_scalar(#[trigger] q[j]) by {
                if j < p.last().len() {
                    assert(q[j] == p[p.len() - 1][j]);
                }
            }
            assert forall|i: int| 0 <= i < pieces(s).len() implies scalars(#[trigger] pieces(s)[i]) by {
                if i < p.len() - 1 {
                    assert(pieces(s)[i] == p[i]);
                }
            }
        } else {
            assert forall|i: int| 0 <= i < pieces(s).len() implies scalars(#[trigger] pieces(s)[i]) by {
                if i < p.len() {
                    assert(pieces(s)[i] == p[i]);
                } else {
                    assert(pieces(s)[i] =~= Seq::<u32>::empty());
                }
            }
        }
    }
}

/// Every line of a scalar text is scalar.
proof fn lemma_lines_scalars(s: Seq<u32>)
    requires
        scalars(s),
    ensures
        forall|i: int| 0 <= i < lines_of(s).len() ==> scalars(#[trigger] lines_of(s)[i]),
{
    if s.len() > 0 {
        lemma_pieces_scalars(s);
        let p = pieces(s);
        assert forall|i: int| 0 <= i < lines_of(s).len() implies scalars(#[trigger] lines_of(s)[i]) by {
            assert(scalars(p[i]));
            let l = lines_of(s)[i];
            assert forall|j: int| 0 <= j < l.len() implies is_scalar(#[trigger] l[j]) by {
                assert(l[j] == p[i][j]);
            }
        }
    }
}

/// The end of the field that starts at `i`: the index of the first tab at
/// or after `i`, or the length of `l`.
pub open spec fn find_tab(l: Seq<u32>, i: int) -> int
    decreases l.len() - i,
{
    if i < 0 || i >= l.len() {
        l.len() as int
    } else if l[i] == 0x09 {
        i
    } else {
        find_tab(l, i + 1)
    }
}

/// The second tab-separated field of `l`, when `l` holds a tab.
pub open spec fn second_field(l: Seq<u32>) -> Seq<u32> {
    let t1 = find_tab(l, 0);
    l.subrange(t1 + 1, find_tab(l, t1 + 1))
}

/// One line of a character map: `None` when it is malformed (its key field
/// is empty, or it has no tab, or its value field is empty), `Some(None)`
/// when the first characters of key and value are equal, and otherwise
/// those two characters.
pub open spec fn char_line(l: Seq<u32>) -> Option<Option<(u32, u32)>> {
    let t1 = find_tab(l, 0);
    if t1 == 0 || t1 >= l.len() || second_field(l).len() == 0 {
        None
    } else if l[0] == second_field(l)[0] {
        Some(None)
    } else {
        Some(Some((l[0], second_field(l)[0])))
    }
}

/// One line of a string map: `None` when it is malformed (its key field is
/// empty, or it has no tab), and otherwise the first character of the key
/// with the whole value field.
pub open spec fn string_line(l: Seq<u32>) -> Option<(u32, Seq<u32>)> {
    let t1 = find_tab(l, 0);
    if t1 == 0 || t1 >= l.len() {
        None
    } else {
        Some((l[0], second_field(l)))
    }
}

/// The entries of character-map lines, in order; `None` when a line is
/// malformed.
pub open spec fn char_entries(ls: Seq<Seq<u32>>) -> Option<Seq<(u32, u32)>>
    decreases ls.len(),
{
    if ls.len() == 0 {
        Some(Seq::empty())
    } else {
        match (char_entries(ls.drop_last()), char_line(ls.last())) {
            (Some(es), Some(None)) => Some(es),
            (Some(es), Some(Some(e))) => Some(es.push(e)),
            _ => None,
        }
    }
}

/// The entries of string-map lines, in order; `None` when a line is
/// malformed.
pub open spec fn string_entries(ls: Seq<Seq<u32>>) -> Option<Seq<(u32, Seq<u32>)>>
    decreases ls.len(),
{
    if ls.len() == 0 {
        Some(Seq::empty())
    } else {
        match (string_entries(ls.drop_last()), string_line(ls.last())) {
            (Some(es), Some(e)) => Some(es.push(e)),
            _ => None,
        }
    }
}

/// The lines of a source map text.
pub open spec fn source_lines(text: Seq<char>) -> Seq<Seq<u32>> {
    lines_of(trimmed(cps(text)))
}

/// A character map parsed: one `(key, value)` entry per line whose key and
/// value characters differ, in order.
pub open spec fn spec_parse_char_map(text: Seq<char>) -> Option<Seq<(u32, u32)>> {
    char_entries(source_lines(text))
}

/// A string map parsed: one `(key, value)` entry per line, in order.
pub open spec fn spec_parse_string_map(text: Seq<char>) -> Option<Seq<(u32, Seq<u32>)>> {
    string_entries(source_lines(text))
}

/// The lines of `text` with their codepoints, all scalar.
fn source_lines_exec(text: &str) -> (r: Vec<Vec<u32>>)
    ensures
        vec_views(r@) == source_lines(text@),
        forall|i: int| 0 <= i < r@.len() ==> scalars(#[trigger] r@[i]@),
{
    let t = trimmed_codepoints(text);
    let r = split_lines(&t);
    proof {
        lemma_cps_scalars(text@);
        lemma_trimmed_scalars(cps(text@));
        lemma_lines_scalars(trimmed(cps(text@)));
        assert forall|i: int| 0 <= i < r@.len() implies scalars(#[trigger] r@[i]@) by {
            assert(vec_views(r@)[i] == r@[i]@);
        }
    }
    r
}

/// The index of the first tab at or after `i`, or the length.
fn find_tab_exec(l: &Vec<u32>, i: usize) -> (r: usize)
    requires
        i <= l@.len(),
    ensures
        r == find_tab(l@, i as int),
{
    let mut j = i;
    while j < l.len() && l[j] != 0x09
        invariant
            i <= j <= l@.len(),
            find_tab(l@, i as int) == find_tab(l@, j as int),
        decreases l@.len() - j,
    {
        j += 1;
    }
    j
}

/// Parses one character-map line.
fn char_line_exec(l: &Vec<u32>) -> (r: Option<Option<(u32, u32)>>)
    ensures
        r == char_line(l@),
{
    let t1 = find_tab_exec(l, 0);
    if t1 == 0 || t1 >= l.len() {
        return None;
    }
    let t2 = find_tab_exec(l, t1 + 1);
    proof {
        lemma_find_tab_bounds(l@, t1 + 1);
    }
    if t2 == t1 + 1 {
        proof {
            assert(second_field(l@).len() == 0);
        }
        return None;
    }
    proof {
        assert(second_field(l@)[0] == l@[t1 + 1]);
    }
    let k = l[0];
    let v = l[t1 + 1];
    if k == v {
        Some(None)
    } else {
        Some(Some((k, v)))
    }
}

/// Parses one string-map line.
fn string_line_exec(l: &Vec<u32>) -> (r: Option<(u32, Vec<u32>)>)
    ensures
        r is None <==> string_line(l@) is None,
        r matches Some(e) ==> string_line(l@) == Some((e.0, e.1@)),
{
    let t1 = find_tab_exec(l, 0);
    if t1 == 0 || t1 >= l.len() {
        return None;
    }
    let t2 = find_tab_exec(l, t1 + 1);
    let mut v: Vec<u32> = Vec::new();
    let mut j = t1 + 1;
    proof {
        lemma_find_tab_bounds(l@, t1 + 1);
        assert(l@.subrange(t1 + 1, t1 + 1) =~= Seq::<u32>::empty());
    }
    while j < t2
        invariant
            t1 + 1 <= j <= t2 <= l@.len(),
            v@ == l@.subrange(t1 + 1, j as int),
        decreases t2 - j,
    {
        v.push(l[j]);
        proof {
            assert(l@.subrange(t1 + 1, j + 1) =~= l@.subrange(t1 + 1, j as int).push(l@[j as int]));
        }
        j += 1;
    }
    Some((l[0], v))
}

/// The field end lies between the start and the length.
proof fn lemma_find_tab_bounds(l: Seq<u32>, i: int)
    requires
        0 <= i <= l.len(),
    ensures
        i <= find_tab(l, i) <= l.len(),
    decreases l.len() - i,
{
    if i < l.len() && l[i] != 0x09 {
        lemma_find_tab_bounds(l, i + 1);
    }
}

/// Parses a character map: each line holds a key and a value separated by a
/// tab; the first character of each is taken, and a line whose two
/// characters are equal is skipped. `None` when a line is malformed.
pub fn parse_char_map(text: &str) -> (r: Option<Vec<(u32, u32)>>)
    ensures
        r is None <==> spec_parse_char_map(text@) is None,
        r matches Some(v) ==> Some(v@) == spec_parse_char_map(text@),
        r matches Some(v) ==> forall|i: int| 0 <= i < v@.len() ==> (#[trigger] v@[i]).0 <= 0x10FFFF,
{
    let lines = source_lines_exec(text);
    let ghost ls = source_lines(text@);
    let mut out: Vec<(u32, u32)> = Vec::new();
    let mut i: usize = 0;
    proof {
        assert(ls.take(0) =~= Seq::<Seq<u32>>::empty());
    }
    while i < lines.len()
        invariant
            vec_views(lines@) == ls,
            ls == source_lines(text@),
            forall|k: int| 0 <= k < lines@.len() ==> scalars(#[trigger] lines@[k]@),
            i <= lines@.len(),
            char_entries(ls.take(i as int)) == Some(out@),
            forall|k: int| 0 <= k < out@.len() ==> (#[trigger] out@[k]).0 <= 0x10FFFF,
        decreases lines@.len() - i,
    {
        let line = &lines[i];
        let parsed = char_line_exec(line);
        proof {
            assert(ls[i as int] == line@);
            assert(ls.take(i + 1).drop_last() =~= ls.take(i as int));
            assert(ls.take(i + 1).last() == line@);
        }
        match parsed {
            None => {
                proof {
                    lemma_char_entries_none(ls, i as int);
                }
                return None;
            },
            Some(None) => {},
            Some(Some(e)) => {
                proof {
                    assert(scalars(line@));
                    assert(is_scalar(line@[0]));
                }
                out.push(e);
            },
        }
        i += 1;
    }
    proof {
        assert(ls.take(lines@.len() as int) =~= ls);
    }
    Some(out)
}

/// A malformed line makes the whole parse fail.
proof fn lemma_char_entries_none(ls: Seq<Seq<u32>>, i: int)
    requires
        0 <= i < ls.len(),
        char_line(ls[i]) is None,
    ensures
        char_entries(ls) is None,
    decreases ls.len(),
{
    if i < ls.len() - 1 {
        assert(ls.drop_last()[i] == ls[i]);
        lemma_char_entries_none(ls.drop_last(), i);
    }
}

/// A malformed line makes the whole parse fail.
proof fn lemma_string_entries_none(ls: Seq<Seq<u32>>, i: int)
    requires
        0 <= i < ls.len(),
        string_line(ls[i]) is None,
    ensures
        string_entries(ls) is None,
    decreases ls.len(),
{
    if i < ls.len() - 1 {
        assert(ls.drop_last()[i] == ls[i]);
        lemma_string_entries_none(ls.drop_last(), i);
    }
}


/// The characters of a sequence of scalar values.
pub open spec fn chars_of(v: Seq<u32>) -> Seq<char> {
    Seq::new(v.len(), |i: int| v[i] as char)
}

/// The text whose codepoints are `v`.
fn string_of_scalars(v: &Vec<u32>) -> (r: String)
    requires
        scalars(v@),
    ensures
        r@ == chars_of(v@),
        cps(r@) == v@,
{
    let ghost ch = chars_of(v@);
    let mut bytes: Vec<u8> = Vec::new();
    let mut i: usize = 0;
    while i < v.len()
        invariant
            scalars(v@),
            ch == chars_of(v@),
            i <= v@.len(),
            bytes@ == encode_utf8(ch.take(i as int)),
        decreases v@.len() - i,
    {
        let x = v[i];
        proof {
            assert(is_scalar(v@[i as int]));
        }
        let (buf, n) = encode_utf8_raw(x);
        let mut j: usize = 0;
        let ghost before = bytes@;
        while j < n
            invariant
                1 <= n <= 4,
                j <= n,
                buf@.len() == 4,
                bytes@ == before + buf@.subrange(0, j as int),
            decreases n - j,
        {
            bytes.push(buf[j]);
            proof {
                assert(buf@.subrange(0, j + 1) =~= buf@.subrange(0, j as int).push(buf@[j as int]));
                assert(before + buf@.subrange(0, j + 1) =~= (before + buf@.subrange(0, j as int)).push(
                    buf@[j as int],
                ));
            }
            j += 1;
        }
        proof {
            lemma_scalar_char_roundtrip(x);
            assert(ch[i as int] == x as char);
            assert(ch.take(i + 1) =~= ch.take(i as int) + seq![ch[i as int]]);
            lemma_encode_utf8_append(ch.take(i as int), seq![ch[i as int]]);
            lemma_encode_utf8_single(ch[i as int]);
            assert(char_bytes(ch[i as int]) == encode_scalar(x));
        }
        i += 1;
    }
    proof {
        assert(ch.take(v@.len() as int) =~= ch);
        encode_utf8_valid_utf8(ch);
        encode_utf8_decode_utf8(ch);
    }
    match string_from_utf8(bytes) {
        Some(s) => {
            proof {
                assert forall|k: int| 0 <= k < v@.len() implies #[trigger] cps(s@)[k] == v@[k] by {
                    lemma_scalar_char_roundtrip(v@[k]);
                    assert(is_scalar(v@[k]));
                }
                assert(cps(s@) =~= v@);
            }
            s
        },
        None => {
            proof {
                assert(false);
            }
            String::new()
        },
    }
}

/// The view of parsed string-map entries as codepoint entries.
pub open spec fn string_entries_view(v: Seq<(u32, String)>) -> Seq<(u32, Seq<u32>)> {
    v.map_values(|e: (u32, String)| (e.0, cps(e.1@)))
}

/// The view of codepoint entries.
pub open spec fn cp_entries_view(v: Seq<(u32, Vec<u32>)>) -> Seq<(u32, Seq<u32>)> {
    v.map_values(|e: (u32, Vec<u32>)| (e.0, e.1@))
}

/// Every key and value of the entries is scalar.
pub open spec fn entries_scalar(es: Seq<(u32, Seq<u32>)>) -> bool {
    forall|i: int| 0 <= i < es.len() ==> is_scalar((#[trigger] es[i]).0) && scalars(es[i].1)
}

/// The string-map entries of `text`, with codepoint values.
fn parse_cp_entries(text: &str) -> (r: Option<Vec<(u32, Vec<u32>)>>)
    ensures
        r is None <==> spec_parse_string_map(text@) is None,
        r matches Some(v) ==> Some(cp_entries_view(v@)) == spec_parse_string_map(text@),
        r matches Some(v) ==> entries_scalar(cp_entries_view(v@)),
{
    let lines = source_lines_exec(text);
    let ghost ls = source_lines(text@);
    let mut out: Vec<(u32, Vec<u32>)> = Vec::new();
    let mut i: usize = 0;
    proof {
        assert(ls.take(0) =~= Seq::<Seq<u32>>::empty());
        assert(cp_entries_view(out@) =~= Seq::<(u32, Seq<u32>)>::empty());
    }
    while i < lines.len()
        invariant
            vec_views(lines@) == ls,
            ls == source_lines(text@),
            forall|k: int| 0 <= k < lines@.len() ==> scalars(#[trigger] lines@[k]@),
            i <= lines@.len(),
            string_entries(ls.take(i as int)) == Some(cp_entries_view(out@)),
            entries_scalar(cp_entries_view(out@)),
        decreases lines@.len() - i,
    {
        let line = &lines[i];
        let parsed = string_line_exec(line);
        proof {
            assert(ls[i as int] == line@);
            assert(ls.take(i + 1).drop_last() =~= ls.take(i as int));
            assert(ls.take(i + 1).last() == line@);
        }
        match parsed {
            None => {
                proof {
                    lemma_string_entries_none(ls, i as int);
                }
                return None;
            },
            Some((k, val)) => {
                proof {
                    assert(scalars(line@));
                    let t1 = find_tab(line@, 0);
                    lemma_find_tab_bounds(line@, 0);
                    lemma_find_tab_bounds(line@, t1 + 1);
                    assert(is_scalar(line@[0]));
                    assert forall|j: int| 0 <= j < val@.len() implies is_scalar(#[trigger] val@[j]) by {
                        assert(val@[j] == line@[t1 + 1 + j]);
                    }
                }
                let ghost prev = out@;
                let ghost vv = val@;
                out.push((k, val));
                proof {
                    assert(cp_entries_view(out@) =~= cp_entries_view(prev).push((k, vv)));
                }
            },
        }
        i += 1;
    }
    proof {
        assert(ls.take(lines@.len() as int) =~= ls);
    }
    Some(out)
}

/// The entries with their values as strings.
fn to_string_entries(v: &Vec<(u32, Vec<u32>)>) -> (r: Vec<(u32, String)>)
    requires
        entries_scalar(cp_entries_view(v@)),
    ensures
        string_entries_view(r@) == cp_entries_view(v@),
        forall|i: int| 0 <= i < r@.len() ==> (#[trigger] r@[i]).0 <= 0x10FFFF,
{
    let mut out: Vec<(u32, String)> = Vec::new();
    let mut i: usize = 0;
    while i < v.len()
        invariant
            entries_scalar(cp_entries_view(v@)),
            i <= v@.len(),
            string_entries_view(out@) == cp_entries_view(v@).take(i as int),
            forall|k: int| 0 <= k < out@.len() ==> (#[trigger] out@[k]).0 <= 0x10FFFF,
        decreases v@.len() - i,
    {
        let e = &v[i];
        proof {
            assert(cp_entries_view(v@)[i as int] == (e.0, e.1@));
        }
        let sv = string_of_scalars(&e.1);
        let ghost prev = out@;
        out.push((e.0, sv));
        proof {
            assert(string_entries_view(out@) =~= string_entries_view(prev).push((e.0, e.1@)));
            assert(cp_entries_view(v@).take(i + 1) =~= cp_entries_view(v@).take(i as int).push(
                (e.0, e.1@),
            ));
        }
        i += 1;
    }
    proof {
        assert(cp_entries_view(v@).take(v@.len() as int) =~= cp_entries_view(v@));
    }
    out
}

/// Parses a string map: each line holds a key and a value separated by a
/// tab; the first character of the key is taken with the whole value
/// field. `None` when a line is malformed.
pub fn parse_string_map(text: &str) -> (r: Option<Vec<(u32, String)>>)
    ensures
        r is None <==> spec_parse_string_map(text@) is None,
        r matches Some(v) ==> Some(string_entries_view(v@)) == spec_parse_string_map(text@),
        r matches Some(v) ==> forall|i: int| 0 <= i < v@.len() ==> (#[trigger] v@[i]).0 <= 0x10FFFF,
{
    match parse_cp_entries(text) {
        Some(v) => Some(to_string_entries(&v)),
        None => None,
    }
}

/// `es` without its entries for key `k`.
pub open spec fn without_key(es: Seq<(u32, Seq<u32>)>, k: u32) -> Seq<(u32, Seq<u32>)>
    decreases es.len(),
{
    if es.len() == 0 {
        es
    } else {
        let r = without_key(es.drop_last(), k);
        if es.last().0 == k {
            r
        } else {
            r.push(es.last())
        }
    }
}

/// One entry merged into `r`: an entry mapping its key to itself removes
/// every entry of that key, any other entry is appended.
pub open spec fn drop_step(r: Seq<(u32, Seq<u32>)>, e: (u32, Seq<u32>)) -> Seq<(u32, Seq<u32>)> {
    if e.1 == seq![e.0] {
        without_key(r, e.0)
    } else {
        r.push(e)
    }
}

/// Merging entries into a map where a later entry replaces an earlier one
/// for the same key, and then dropping every key that maps to itself: an
/// identity entry removes all entries of its key before it.
pub open spec fn drop_identities(es: Seq<(u32, Seq<u32>)>) -> Seq<(u32, Seq<u32>)>
    decreases es.len(),
{
    if es.len() == 0 {
        es
    } else {
        drop_step(drop_identities(es.drop_last()), es.last())
    }
}

/// The normalization entries of the two source maps: those of `norm`, then
/// those of `num_norm`, which override them, with every key that ends up
/// mapping to itself dropped.
pub open spec fn spec_normalize_entries(norm: Seq<char>, num_norm: Seq<char>) -> Option<
    Seq<(u32, Seq<u32>)>,
> {
    match (spec_parse_string_map(norm), spec_parse_string_map(num_norm)) {
        (Some(a), Some(b)) => Some(drop_identities(a + b)),
        _ => None,
    }
}

/// A copy of `v`.
fn copy_cps(v: &Vec<u32>) -> (r: Vec<u32>)
    ensures
        r@ == v@,
{
    let mut out: Vec<u32> = Vec::new();
    let mut i: usize = 0;
    while i < v.len()
        invariant
            i <= v@.len(),
            out@ == v@.take(i as int),
        decreases v@.len() - i,
    {
        out.push(v[i]);
        proof {
            assert(v@.take(i + 1) =~= v@.take(i as int).push(v@[i as int]));
        }
        i += 1;
    }
    proof {
        assert(v@.take(v@.len() as int) =~= v@);
    }
    out
}

/// Whether `v` is exactly the one codepoint `k`.
fn is_single(v: &Vec<u32>, k: u32) -> (r: bool)
    ensures
        r == (v@ == seq![k]),
{
    if v.len() == 1 && v[0] == k {
        assert(v@ =~= seq![k]);
        true
    } else {
        proof {
            if v@ == seq![k] {
                assert(v@[0] == k);
            }
        }
        false
    }
}

/// Entries without key `k` keep being scalar.
proof fn lemma_without_key_scalar(es: Seq<(u32, Seq<u32>)>, k: u32)
    requires
        entries_scalar(es),
    ensures
        entries_scalar(without_key(es, k)),
    decreases es.len(),
{
    if es.len() > 0 {
        assert(entries_scalar(es.drop_last())) by {
            assert forall|i: int| 0 <= i < es.drop_last().len() implies is_scalar(
                (#[trigger] es.drop_last()[i]).0,
            ) && scalars(es.drop_last()[i].1) by {
                assert(es.drop_last()[i] == es[i]);
            }
        }
        lemma_without_key_scalar(es.drop_last(), k);
        let r = without_key(es.drop_last(), k);
        if es.last().0 != k {
            assert(es.last() == es[es.len() - 1]);
            assert forall|i: int| 0 <= i < r.push(es.last()).len() implies is_scalar(
                (#[trigger] r.push(es.last())[i]).0,
            ) && scalars(r.push(es.last())[i].1) by {
                if i < r.len() {
                    assert(r.push(es.last())[i] == r[i]);
                }
            }
        }
    }
}

/// `out` without its entries for key `k`.
fn without_key_exec(out: &Vec<(u32, Vec<u32>)>, k: u32) -> (r: Vec<(u32, Vec<u32>)>)
    ensures
        cp_entries_view(r@) == without_key(cp_entries_view(out@), k),
{
    let ghost es = cp_entries_view(out@);
    let mut r: Vec<(u32, Vec<u32>)> = Vec::new();
    let mut i: usize = 0;
    proof {
        assert(es.take(0) =~= Seq::<(u32, Seq<u32>)>::empty());
        assert(cp_entries_view(r@) =~= Seq::<(u32, Seq<u32>)>::empty());
    }
    while i < out.len()
        invariant
            es == cp_entries_view(out@),
            i <= out@.len(),
            cp_entries_view(r@) == without_key(es.take(i as int), k),
        decreases out@.len() - i,
    {
        let e = &out[i];
        proof {
            assert(es[i as int] == (e.0, e.1@));
            assert(es.take(i + 1).drop_last() =~= es.take(i as int));
            assert(es.take(i + 1).last() == es[i as int]);
        }
        if e.0 != k {
            let c = copy_cps(&e.1);
            let ghost prev = r@;
            r.push((e.0, c));
            proof {
                assert(cp_entries_view(r@) =~= cp_entries_view(prev).push((e.0, e.1@)));
            }
        }
        i += 1;
    }
    proof {
        assert(es.take(out@.len() as int) =~= es);
    }
    r
}

/// Merges entry `e` into `out` (see [`drop_step`]).
fn merge_entry(out: &mut Vec<(u32, Vec<u32>)>, e: &(u32, Vec<u32>))
    requires
        entries_scalar(cp_entries_view(old(out)@)),
        is_scalar(e.0),
        scalars(e.1@),
    ensures
        cp_entries_view(final(out)@) == drop_step(cp_entries_view(old(out)@), (e.0, e.1@)),
        entries_scalar(cp_entries_view(final(out)@)),
{
    if is_single(&e.1, e.0) {
        let filtered = without_key_exec(out, e.0);
        proof {
            lemma_without_key_scalar(cp_entries_view(out@), e.0);
        }
        *out = filtered;
    } else {
        let c = copy_cps(&e.1);
        let ghost prev = out@;
        out.push((e.0, c));
        proof {
            assert(cp_entries_view(out@) =~= cp_entries_view(prev).push((e.0, e.1@)));
            assert forall|j: int| 0 <= j < cp_entries_view(out@).len() implies is_scalar(
                (#[trigger] cp_entries_view(out@)[j]).0,
            ) && scalars(cp_entries_view(out@)[j].1) by {
                if j < prev.len() {
                    assert(cp_entries_view(out@)[j] == cp_entries_view(prev)[j]);
                }
            }
        }
    }
}

/// Builds the normalization entries of the two source maps (see
/// [`spec_normalize_entries`]); `None` when a line of either is malformed.
pub fn normalize_entries(norm: &str, num_norm: &str) -> (r: Option<Vec<(u32, String)>>)
    ensures
        r is None <==> spec_normalize_entries(norm@, num_norm@) is None,
        r matches Some(v) ==> Some(string_entries_view(v@)) == spec_normalize_entries(
            norm@,
            num_norm@,
        ),
        r matches Some(v) ==> forall|i: int| 0 <= i < v@.len() ==> (#[trigger] v@[i]).0 <= 0x10FFFF,
{
    let a = match parse_cp_entries(norm) {
        Some(a) => a,
        None => {
            return None;
        },
    };
    let b = match parse_cp_entries(num_norm) {
        Some(b) => b,
        None => {
            return None;
        },
    };
    let ghost av = cp_entries_view(a@);
    let ghost bv = cp_entries_view(b@);
    let mut out: Vec<(u32, Vec<u32>)> = Vec::new();
    proof {
        assert(av.take(0) =~= Seq::<(u32, Seq<u32>)>::empty());
        assert(cp_entries_view(out@) =~= Seq::<(u32, Seq<u32>)>::empty());
    }
    let mut i: usize = 0;
    while i < a.len()
        invariant
            av == cp_entries_view(a@),
            entries_scalar(av),
            i <= a@.len(),
            cp_entries_view(out@) == drop_identities(av.take(i as int)),
            entries_scalar(cp_entries_view(out@)),
        decreases a@.len() - i,
    {
        proof {
            assert(av[i as int] == (a@[i as int].0, a@[i as int].1@));
            assert(av.take(i + 1).drop_last() =~= av.take(i as int));
            assert(av.take(i + 1).last() == av[i as int]);
        }
        merge_entry(&mut out, &a[i]);
        i += 1;
    }
    proof {
        assert(av.take(a@.len() as int) =~= av);
        assert(av + bv.take(0) =~= av);
    }
    let mut j: usize = 0;
    while j < b.len()
        invariant
            av == cp_entries_view(a@),
            bv == cp_entries_view(b@),
            entries_scalar(bv),
            j <= b@.len(),
            cp_entries_view(out@) == drop_identities(av + bv.take(j as int)),
            entries_scalar(cp_entries_view(out@)),
        decreases b@.len() - j,
    {
        proof {
            assert(bv[j as int] == (b@[j as int].0, b@[j as int].1@));
            assert((av + bv.take(j + 1)).drop_last() =~= av + bv.take(j as int));
            assert((av + bv.take(j + 1)).last() == bv[j as int]);
        }
        merge_entry(&mut out, &b[j]);
        j += 1;
    }
    proof {
        assert(bv.take(b@.len() as int) =~= bv);
    }
    Some(to_string_entries(&out))
}


/// The codepoints that occur in the lines `ls`.
pub open spec fn line_cps(ls: Seq<Seq<u32>>) -> Set<u32> {
    Set::new(
        |v: u32|
            exists|i: int, j: int| 0 <= i < ls.len() && 0 <= j < ls[i].len() && #[trigger] ls[i][j] == v,
    )
}

/// The characters of a delete source: those of its lines.
pub open spec fn source_chars(text: Seq<char>) -> Set<u32> {
    line_cps(source_lines(text))
}

/// The characters of a list of strings.
pub open spec fn list_chars(list: Seq<&str>) -> Set<u32> {
    Set::new(
        |v: u32|
            exists|k: int, j: int|
                0 <= k < list.len() && 0 <= j < list[k]@.len() && #[trigger] list[k]@[j] as u32 == v,
    )
}

/// The white-space characters that the `Delete` step removes besides those
/// of its delete source.
pub const WHITE_SPACE: [&'static str; 27] = [
    "\u{0009}",
    "\u{000A}",
    "\u{000B}",
    "\u{000C}",
    "\u{000D}",
    "\u{0020}",
    "\u{0085}",
    "\u{00A0}",
    "\u{1680}",
    "\u{2000}",
    "\u{2001}",
    "\u{2002}",
    "\u{2003}",
    "\u{2004}",
    "\u{2005}",
    "\u{2006}",
    "\u{2007}",
    "\u{2008}",
    "\u{2009}",
    "\u{200A}",
    "\u{200D}",
    "\u{200F}",
    "\u{2028}",
    "\u{2029}",
    "\u{202F}",
    "\u{205F}",
    "\u{3000}",
];

/// Number of bytes of a bitset over all Unicode codepoints.
pub const UNICODE_BITSET_SIZE: usize = 139264;

/// Marks codepoint `cp` in `bits`.
fn set_bit(bits: &mut Vec<u8>, cp: u32)
    requires
        old(bits)@.len() == UNICODE_BITSET_SIZE,
        cp <= 0x10FFFF,
    ensures
        final(bits)@.len() == UNICODE_BITSET_SIZE,
        forall|c: u32|
            c <= 0x10FFFF ==> (#[trigger] bitset_contains(final(bits)@, c) <==> bitset_contains(
                old(bits)@,
                c,
            ) || c == cp),
{
    let idx = (cp / 8) as usize;
    let shift = (cp % 8) as u8;
    let old_byte = bits[idx];
    let new_byte = old_byte | (1u8 << shift);
    bits.set(idx, new_byte);
    proof {
        assert forall|c: u32| c <= 0x10FFFF implies (#[trigger] bitset_contains(bits@, c)
            <==> bitset_contains(old(bits)@, c) || c == cp) by {
            let ci = (c / 8) as int;
            let cs = (c % 8) as u8;
            assert(ci < UNICODE_BITSET_SIZE);
            if ci == idx as int {
                assert(cs < 8 && shift < 8);
                assert(bits@[ci] == (old_byte | (1u8 << shift)));
                assert(old(bits)@[ci] == old_byte);
                assert(((old_byte | (1u8 << shift)) & (1u8 << cs)) != 0 <==> (old_byte & (1u8 << cs))
                    != 0 || shift == cs) by (bit_vector)
                    requires
                        shift < 8,
                        cs < 8,
                ;
                assert(c == 8 * (c / 8) + c % 8);
                assert(cp == 8 * (cp / 8) + cp % 8);
                assert((c == cp) <==> (cs == shift));
            } else {
                assert(bits@[ci] == old(bits)@[ci]);
                assert(c != cp);
            }
        }
    }
}

/// Marks every codepoint of `v` in `bits`.
fn mark_all(bits: &mut Vec<u8>, v: &Vec<u32>)
    requires
        old(bits)@.len() == UNICODE_BITSET_SIZE,
        scalars(v@),
    ensures
        final(bits)@.len() == UNICODE_BITSET_SIZE,
        forall|c: u32|
            c <= 0x10FFFF ==> (#[trigger] bitset_contains(final(bits)@, c) <==> bitset_contains(
                old(bits)@,
                c,
            ) || v@.contains(c)),
{
    let mut i: usize = 0;
    while i < v.len()
        invariant
            scalars(v@),
            i <= v@.len(),
            bits@.len() == UNICODE_BITSET_SIZE,
            forall|c: u32|
                c <= 0x10FFFF ==> (#[trigger] bitset_contains(bits@, c) <==> bitset_contains(
                    old(bits)@,
                    c,
                ) || v@.take(i as int).contains(c)),
        decreases v@.len() - i,
    {
        proof {
            assert(is_scalar(v@[i as int]));
        }
        let ghost before = bits@;
        set_bit(bits, v[i]);
        proof {
            assert(v@.take(i + 1) =~= v@.take(i as int).push(v@[i as int]));
            assert forall|c: u32| c <= 0x10FFFF implies (#[trigger] bitset_contains(bits@, c)
                <==> bitset_contains(old(bits)@, c) || v@.take(i + 1).contains(c)) by {
                if v@.take(i + 1).contains(c) && !v@.take(i as int).contains(c) {
                    let k = choose|k: int| 0 <= k < i + 1 && #[trigger] v@.take(i + 1)[k] == c;
                    if k < i {
                        assert(v@.take(i as int)[k] == c);
                    }
                }
                if v@.take(i as int).contains(c) {
                    let k = choose|k: int| 0 <= k < i && #[trigger] v@.take(i as int)[k] == c;
                    assert(v@.take(i + 1)[k] == c);
                }
                if c == v@[i as int] {
                    assert(v@.take(i + 1)[i as int] == c);
                }
            }
        }
        i += 1;
    }
    proof {
        assert(v@.take(v@.len() as int) =~= v@);
    }
}

/// Builds the delete bitset from its sources: every character of the lines
/// of `text_delete` and every character of the strings of `white_space` is
/// marked, and nothing else.
pub fn delete_bitset_from_sources(text_delete: &str, white_space: &[&str]) -> (r: Vec<u8>)
    ensures
        r@.len() == UNICODE_BITSET_SIZE,
        forall|cp: u32|
            cp <= 0x10FFFF ==> (#[trigger] bitset_contains(r@, cp) <==> source_chars(
                text_delete@,
            ).contains(cp) || list_chars(white_space@).contains(cp)),
{
    let mut bits: Vec<u8> = Vec::new();
    let mut z: usize = 0;
    while z < UNICODE_BITSET_SIZE
        invariant
            z <= UNICODE_BITSET_SIZE,
            bits@.len() == z,
            forall|k: int| 0 <= k < z ==> #[trigger] bits@[k] == 0u8,
        decreases UNICODE_BITSET_SIZE - z,
    {
        bits.push(0u8);
        z += 1;
    }
    proof {
        assert(forall|y: u8| (0u8 & y) == 0u8) by (bit_vector);
        assert forall|c: u32| c <= 0x10FFFF implies !#[trigger] bitset_contains(bits@, c) by {
            assert(bits@[(c / 8) as int] == 0u8);
        }
    }
    let lines = source_lines_exec(text_delete);
    let ghost ls = source_lines(text_delete@);
    let mut i: usize = 0;
    while i < lines.len()
        invariant
            vec_views(lines@) == ls,
            forall|k: int| 0 <= k < lines@.len() ==> scalars(#[trigger] lines@[k]@),
            i <= lines@.len(),
            bits@.len() == UNICODE_BITSET_SIZE,
            forall|c: u32|
                c <= 0x10FFFF ==> (#[trigger] bitset_contains(bits@, c) <==> line_cps(
                    ls.take(i as int),
                ).contains(c)),
        decreases lines@.len() - i,
    {
        let ghost before = bits@;
        proof {
            assert(ls[i as int] == lines@[i as int]@);
        }
        mark_all(&mut bits, &lines[i]);
        proof {
            let lt = ls.take(i as int);
            let lt1 = ls.take(i + 1);
            assert forall|c: u32| c <= 0x10FFFF implies (#[trigger] bitset_contains(bits@, c)
                <==> line_cps(lt1).contains(c)) by {
                if line_cps(lt1).contains(c) {
                    let (a, b) = choose|a: int, b: int|
                        0 <= a < lt1.len() && 0 <= b < lt1[a].len() && #[trigger] lt1[a][b] == c;
                    if a < i {
                        assert(lt[a][b] == c);
                        assert(line_cps(lt).contains(c));
                    } else {
                        assert(ls[i as int][b] == c);
                        assert(lines@[i as int]@.contains(c));
                    }
                }
                if line_cps(lt).contains(c) {
                    let (a, b) = choose|a: int, b: int|
                        0 <= a < lt.len() && 0 <= b < lt[a].len() && #[trigger] lt[a][b] == c;
                    assert(lt1[a][b] == c);
                }
                if lines@[i as int]@.contains(c) {
                    let b = choose|b: int| 0 <= b < lines@[i as int]@.len() && #[trigger] lines@[i as int]@[b] == c;
                    assert(lt1[i as int][b] == c);
                }
            }
        }
        i += 1;
    }
    proof {
        assert(ls.take(lines@.len() as int) =~= ls);
    }
    let ghost wl = white_space@;
    let mut k: usize = 0;
    while k < white_space.len()
        invariant
            wl == white_space@,
            k <= wl.len(),
            bits@.len() == UNICODE_BITSET_SIZE,
            forall|c: u32|
                c <= 0x10FFFF ==> (#[trigger] bitset_contains(bits@, c) <==> source_chars(
                    text_delete@,
                ).contains(c) || list_chars(wl.take(k as int)).contains(c)),
        decreases wl.len() - k,
    {
        let ws = decode_codepoints(white_space[k]);
        proof {
            lemma_cps_scalars(wl[k as int]@);
        }
        mark_all(&mut bits, &ws);
        proof {
            let lt = wl.take(k as int);
            let lt1 = wl.take(k + 1);
            assert forall|c: u32| c <= 0x10FFFF implies (#[trigger] bitset_contains(bits@, c)
                <==> source_chars(text_delete@).contains(c) || list_chars(lt1).contains(c)) by {
                if list_chars(lt1).contains(c) {
                    let (a, b) = choose|a: int, b: int|
                        0 <= a < lt1.len() && 0 <= b < lt1[a]@.len() && #[trigger] lt1[a]@[b] as u32
                            == c;
                    if a < k {
                        assert(lt[a]@[b] as u32 == c);
                        assert(list_chars(lt).contains(c));
                    } else {
                        assert(ws@[b] == c);
                    }
                }
                if list_chars(lt).contains(c) {
                    let (a, b) = choose|a: int, b: int|
                        0 <= a < lt.len() && 0 <= b < lt[a]@.len() && #[trigger] lt[a]@[b] as u32 == c;
                    assert(lt1[a]@[b] as u32 == c);
                }
                if ws@.contains(c) {
                    let b = choose|b: int| 0 <= b < ws@.len() && #[trigger] ws@[b] == c;
                    assert(lt1[k as int]@[b] as u32 == c);
                }
            }
        }
        k += 1;
    }
    proof {
        assert(wl.take(wl.len() as int) =~= wl);
    }
    bits
}


/// The entries with their values as characters.
pub open spec fn char_entries_of(es: Seq<(u32, Seq<u32>)>) -> Seq<(u32, Seq<char>)> {
    es.map_values(|e: (u32, Seq<u32>)| (e.0, chars_of(e.1)))
}

/// The values fit the packed string tables: each below 256 bytes, all
/// together below 2^24 bytes.
pub open spec fn packs(es: Seq<(u32, Seq<char>)>) -> bool {
    &&& forall|i: int| 0 <= i < es.len() ==> encode_utf8(#[trigger] es[i].1).len() < 256
    &&& encode_utf8(concat_values(es)).len() < 0x1000000
}

/// Parsed string entries seen as characters are the strings themselves.
proof fn lemma_char_entries_of_strings(v: Seq<(u32, String)>)
    ensures
        char_entries_of(string_entries_view(v)) == entries_view(v),
{
    assert forall|i: int| 0 <= i < v.len() implies #[trigger] char_entries_of(string_entries_view(v))[i]
        == entries_view(v)[i] by {
        let s = v[i].1@;
        assert(chars_of(cps(s)) =~= s) by {
            assert forall|j: int| 0 <= j < s.len() implies #[trigger] chars_of(cps(s))[j] == s[j] by {
                char_u32_cast(s[j], s[j] as u32);
                assert(cps(s)[j] == s[j] as u32);
            }
        }
    }
    assert(char_entries_of(string_entries_view(v)) =~= entries_view(v));
}

/// Whether the values of `entries` fit the packed string tables.
fn packs_exec(entries: &Vec<(u32, String)>) -> (r: bool)
    ensures
        r == packs(entries_view(entries@)),
{
    let ghost es = entries_view(entries@);
    let mut total: usize = 0;
    let mut i: usize = 0;
    proof {
        assert(es.take(0) =~= Seq::<(u32, Seq<char>)>::empty());
        assert(encode_utf8(Seq::<char>::empty()) =~= Seq::<u8>::empty());
    }
    while i < entries.len()
        invariant
            es == entries_view(entries@),
            i <= entries@.len(),
            total < 0x1000000,
            total == encode_utf8(concat_values(es.take(i as int))).len(),
            forall|j: int| 0 <= j < i ==> encode_utf8(#[trigger] es[j].1).len() < 256,
        decreases entries@.len() - i,
    {
        let bytes = entries[i].1.as_str().as_bytes();
        let n = bytes.len();
        proof {
            assert(es[i as int].1 == entries@[i as int].1@);
            assert(bytes@ == encode_utf8(es[i as int].1));
            assert(es.take(i + 1).drop_last() =~= es.take(i as int));
            assert(es.take(i + 1).last() == es[i as int]);
            lemma_encode_utf8_append(concat_values(es.take(i as int)), es[i as int].1);
        }
        if n >= 256 {
            return false;
        }
        if total + n >= 0x1000000 {
            proof {
                lemma_concat_prefix_bytes(es, i + 1);
            }
            return false;
        }
        total = total + n;
        i += 1;
    }
    proof {
        assert(es.take(entries@.len() as int) =~= es);
    }
    true
}

/// The bytes of a prefix's values are no more than those of all values.
proof fn lemma_concat_prefix_bytes(es: Seq<(u32, Seq<char>)>, n: int)
    requires
        0 <= n <= es.len(),
    ensures
        encode_utf8(concat_values(es.take(n))).len() <= encode_utf8(concat_values(es)).len(),
    decreases es.len() - n,
{
    if n < es.len() {
        lemma_concat_prefix_bytes(es, n + 1);
        assert(es.take(n + 1).drop_last() =~= es.take(n));
        assert(es.take(n + 1).last() == es[n]);
        lemma_encode_utf8_append(concat_values(es.take(n)), es[n].1);
    } else {
        assert(es.take(n) =~= es);
    }
}

/// Whether the source maps can build a registry: every map parses and the
/// string maps fit the packed tables.
pub open spec fn sources_build(
    fanjian: Seq<char>,
    norm: Seq<char>,
    num_norm: Seq<char>,
    pinyin: Seq<char>,
    emoji: Seq<char>,
) -> bool {
    &&& spec_parse_char_map(fanjian) is Some
    &&& spec_normalize_entries(norm, num_norm) matches Some(ne) && packs(char_entries_of(ne))
    &&& spec_parse_string_map(pinyin) matches Some(pe) && packs(char_entries_of(pe))
    &&& spec_parse_string_map(emoji) matches Some(ee) && packs(char_entries_of(ee))
}

impl TransformRegistry {
    /// Builds every engine from the plain-text source maps: `VariantNorm`
    /// from the character map `fanjian`, `Delete` from the delete source and
    /// [`WHITE_SPACE`],
    /// `Normalize` from `norm` overridden by `num_norm`, `Romanize` and
    /// `RomanizeChar` (trimmed of spaces) from the string map `pinyin`, and
    /// `EmojiNorm` from the string map `emoji` of emoji to English words.
    /// `None` when a map has a malformed line or a string map does not fit
    /// the packed tables.
    pub fn from_sources(
        fanjian: &str,
        text_delete: &str,
        norm: &str,
        num_norm: &str,
        pinyin: &str,
        emoji: &str,
    ) -> (r: Option<TransformRegistry>)
        ensures
            r is Some <==> sources_build(fanjian@, norm@, num_norm@, pinyin@, emoji@),
            r matches Some(reg) ==> reg.step(0x01) == TransformStep::Raw,
            r matches Some(reg) ==> (reg.step(0x02) matches TransformStep::VariantNorm(m)
                && spec_parse_char_map(fanjian@) matches Some(fe) && forall|cp: u32|
                #![trigger spec_lookup(m.l1@, m.l2@, cp)]
                spec_lookup(m.l1@, m.l2@, cp) == if entries_value(fe, cp) == 0 {
                    None
                } else {
                    Some(entries_value(fe, cp))
                }),
            r matches Some(reg) ==> (reg.step(0x04) matches TransformStep::Delete(d) && forall|
                cp: u32,
            |
                cp <= 0x10FFFF ==> (#[trigger] d.deletes(cp) <==> source_chars(text_delete@).contains(
                    cp,
                ) || list_chars(WHITE_SPACE@).contains(cp))),
            r matches Some(reg) ==> (reg.step(0x08) matches TransformStep::Normalize(m)
                && spec_normalize_entries(norm@, num_norm@) matches Some(ne) && m.strings@
                == concat_values(char_entries_of(ne)) && forall|cp: u32|
                #![trigger spec_slot(m.l1@, m.l2@, cp)]
                cp <= 0x10FFFF ==> spec_slot(m.l1@, m.l2@, cp) == entries_value(
                    packed_entries(char_entries_of(ne)),
                    cp,
                )),
            r matches Some(reg) ==> (reg.step(0x10) matches TransformStep::Romanize(m)
                && spec_parse_string_map(pinyin@) matches Some(pe) && m.strings@ == concat_values(
                char_entries_of(pe),
            ) && forall|cp: u32|
                #![trigger spec_slot(m.l1@, m.l2@, cp)]
                cp <= 0x10FFFF ==> spec_slot(m.l1@, m.l2@, cp) == entries_value(
                    packed_entries(char_entries_of(pe)),
                    cp,
                )),
            r matches Some(reg) ==> (reg.step(0x20) matches TransformStep::RomanizeChar(m)
                && spec_parse_string_map(pinyin@) matches Some(pe) && m.strings@ == concat_values(
                char_entries_of(pe),
            ) && forall|cp: u32|
                #![trigger spec_slot(m.l1@, m.l2@, cp)]
                cp <= 0x10FFFF ==> spec_slot(m.l1@, m.l2@, cp) == spec_trim_packed(
                    entries_value(packed_entries(char_entries_of(pe)), cp),
                    encode_utf8(m.strings@),
                )),
            r matches Some(reg) ==> (reg.step(0x40) matches TransformStep::EmojiNorm(m)
                && spec_parse_string_map(emoji@) matches Some(ee) && m.strings@ == concat_values(
                char_entries_of(ee),
            ) && forall|cp: u32|
                #![trigger spec_slot(m.l1@, m.l2@, cp)]
                cp <= 0x10FFFF ==> spec_slot(m.l1@, m.l2@, cp) == entries_value(
                    packed_entries(char_entries_of(ee)),
                    cp,
                )),
    {
        let fj = match parse_char_map(fanjian) {
            Some(v) => v,
            None => {
                return None;
            },
        };
        let ne = match normalize_entries(norm, num_norm) {
            Some(v) => v,
            None => {
                return None;
            },
        };
        let py = match parse_string_map(pinyin) {
            Some(v) => v,
            None => {
                return None;
            },
        };
        let em = match parse_string_map(emoji) {
            Some(v) => v,
            None => {
                return None;
            },
        };
        proof {
            lemma_char_entries_of_strings(ne@);
            lemma_char_entries_of_strings(py@);
            lemma_char_entries_of_strings(em@);
        }
        if !packs_exec(&ne) || !packs_exec(&py) || !packs_exec(&em) {
            return None;
        }
        proof {
            assert forall|i: int| 0 <= i < ne@.len() implies encode_utf8(#[trigger] ne@[i].1@).len()
                < 256 by {
                assert(entries_view(ne@)[i].1 == ne@[i].1@);
            }
            assert forall|i: int| 0 <= i < py@.len() implies encode_utf8(#[trigger] py@[i].1@).len()
                < 256 by {
                assert(entries_view(py@)[i].1 == py@[i].1@);
            }
            assert forall|i: int| 0 <= i < em@.len() implies encode_utf8(#[trigger] em@[i].1@).len()
                < 256 by {
                assert(entries_view(em@)[i].1 == em@[i].1@);
            }
        }
        let white_space: &[&str] = &WHITE_SPACE;
        let bits = delete_bitset_from_sources(text_delete, white_space);
        let variant_norm = VariantNormMatcher::from_map(&fj);
        let delete = DeleteMatcher::new(bits.as_slice());
        let normalize = NormalizeMatcher::from_map(&ne);
        let romanize = RomanizeMatcher::from_map(&py, false);
        let romanize_char = RomanizeMatcher::from_map(&py, true);
        let emoji_norm = RomanizeMatcher::from_map(&em, false);
        Some(
            TransformRegistry::new(
                variant_norm,
                delete,
                normalize,
                romanize,
                romanize_char,
                emoji_norm,
            ),
        )
    }
}

} // verus!
