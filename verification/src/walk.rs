//! Walking the transformation trie over a text.
//!
//! [`walk_process_tree`] visits the nodes in index order, applies each
//! child's step to its parent's text once, and keeps one [`TextVariant`] per
//! distinct resulting text, whose mask collects the masks of every node that
//! produced it.
use std::borrow::Cow;

use vstd::prelude::*;
use vstd::utf8::*;

use crate::api::chain_text;
use crate::delete::lemma_delete_keeps_ascii;
use crate::graph::{
    child_ok, mask_of_types, node_linked, steps_of, strip_raw, tree_of, tree_wf, type_mask_bit,
    ProcessTypeBitNode,
};
use crate::process_type::{
    has_bit, lemma_single_bits_raw, lemma_single_bits_sorted, single_bits, single_bits_below,
    ProcessType,
};
use crate::step::{TransformRegistry, TransformStep};
use tinyvec::TinyVec;

verus! {

/// A small list of masks, inline while it has at most eight entries: a
/// `TinyVec<[u64; 8]>` behind a private field.
#[verifier::external_body]
pub struct MaskList {
    masks: TinyVec<[u64; 8]>,
}

/// The masks a [`MaskList`] holds, in order.
pub uninterp spec fn mask_list(v: MaskList) -> Seq<u64>;

/// `TinyVec::new`: an empty list.
#[verifier::external_body]
fn masks_new() -> (r: MaskList)
    ensures
        mask_list(r) == Seq::<u64>::empty(),
{
    MaskList { masks: TinyVec::new() }
}

/// `TinyVec::push`: appends `x`, moving the list to the heap once its
/// eight inline slots are full.
#[verifier::external_body]
fn masks_push(v: &mut MaskList, x: u64)
    ensures
        mask_list(*final(v)) == mask_list(*old(v)).push(x),
{
    v.masks.push(x);
}

/// `TinyVec::len`: the number of masks held.
#[verifier::external_body]
fn masks_len(v: &MaskList) -> (r: usize)
    ensures
        r == mask_list(*v).len(),
{
    v.masks.len()
}

/// Indexing a `TinyVec`: the mask at `i`.
#[verifier::external_body]
fn masks_get(v: &MaskList, i: usize) -> (r: u64)
    requires
        i < mask_list(*v).len(),
    ensures
        r == mask_list(*v)[i as int],
{
    v.masks[i]
}

/// Writing through a `TinyVec` index: replaces the mask at `i` with `x`.
#[verifier::external_body]
fn masks_set(v: &mut MaskList, i: usize, x: u64)
    requires
        i < mask_list(*old(v)).len(),
    ensures
        mask_list(*final(v)) == mask_list(*old(v)).update(i as int, x),
{
    v.masks[i] = x;
}

/// One distinct text produced by the pipeline, with the masks of the nodes
/// that produced it.
pub struct TextVariant<'a> {
    /// The text; borrowed from the input when no step changed it.
    pub text: Cow<'a, str>,
    /// The union of the masks of the trie nodes whose steps produce `text`.
    pub mask: u64,
    /// Whether `text` is all ASCII.
    pub is_ascii: bool,
}

/// Whether bit `b` of `x` is set.
pub open spec fn bit_set(x: u64, b: u64) -> bool {
    (x >> b) & 1u64 == 1u64
}

/// Whether every bit of `y` is set in `x`.
pub open spec fn mask_contains(x: u64, y: u64) -> bool {
    x & y == y
}

/// The text that node `m` of `tree` stands for: the steps of its path applied
/// to `text`.
pub open spec fn node_text(
    reg: &TransformRegistry,
    tree: Seq<ProcessTypeBitNode>,
    m: int,
    text: Seq<char>,
) -> Seq<char> {
    chain_text(reg, tree[m].path@, text)
}

/// Some node of `tree` stands for `s`.
pub open spec fn is_node_text(
    reg: &TransformRegistry,
    tree: Seq<ProcessTypeBitNode>,
    text: Seq<char>,
    s: Seq<char>,
) -> bool {
    exists|m: int| 0 <= m < tree.len() && #[trigger] node_text(reg, tree, m, text) == s
}

/// Every bit of `mask` is set in the mask of some node that stands for `s`.
pub open spec fn mask_justified(
    reg: &TransformRegistry,
    tree: Seq<ProcessTypeBitNode>,
    text: Seq<char>,
    s: Seq<char>,
    mask: u64,
) -> bool {
    forall|b: u64|
        b < 64 && #[trigger] bit_set(mask, b) ==> exists|m: int|
            0 <= m < tree.len() && #[trigger] node_text(reg, tree, m, text) == s && bit_set(
                tree[m].folded_mask,
                b,
            )
}

/// The variants of a walk of `tree` over `text`: the input first, texts
/// pairwise distinct, the ASCII flags exact, every node's text present with
/// the node's mask, and every variant and every mask bit accounted for by a
/// node.
pub open spec fn walk_result<'a>(
    reg: &TransformRegistry,
    tree: Seq<ProcessTypeBitNode>,
    text: &'a str,
    r: Seq<TextVariant<'a>>,
) -> bool {
    &&& r.len() >= 1
    &&& r[0].text == Cow::<'a, str>::Borrowed(text)
    &&& forall|a: int, b: int| 0 <= a < b < r.len() ==> #[trigger] r[a].text@ != #[trigger] r[b].text@
    &&& forall|j: int| 0 <= j < r.len() ==> #[trigger] r[j].is_ascii == is_ascii_chars(r[j].text@)
    &&& forall|m: int|
        0 <= m < tree.len() ==> exists|j: int|
            0 <= j < r.len() && #[trigger] r[j].text@ == #[trigger] node_text(reg, tree, m, text@)
                && mask_contains(r[j].mask, tree[m].folded_mask)
    &&& forall|j: int| 0 <= j < r.len() ==> #[trigger] is_node_text(reg, tree, text@, r[j].text@)
    &&& forall|j: int|
        0 <= j < r.len() ==> #[trigger] mask_justified(reg, tree, text@, r[j].text@, r[j].mask)
}

/// Bit facts about `|` and `&` on masks.
proof fn lemma_mask_bits(x: u64, y: u64, z: u64, b: u64)
    ensures
        b < 64 ==> (bit_set(x | y, b) <==> bit_set(x, b) || bit_set(y, b)),
        mask_contains(x | y, y),
        mask_contains(x, z) ==> mask_contains(x | y, z),
        mask_contains(x, x),
        b < 64 ==> !bit_set(0u64, b),
        mask_contains(x, y) && b < 64 && bit_set(y, b) ==> bit_set(x, b),
{
    assert(b < 64 ==> (((x | y) >> b) & 1u64 == 1u64 <==> (x >> b) & 1u64 == 1u64 || (y >> b)
        & 1u64 == 1u64)) by (bit_vector);
    assert((x | y) & y == y) by (bit_vector);
    assert(x & z == z ==> (x | y) & z == z) by (bit_vector);
    assert(x & x == x) by (bit_vector);
    assert(b < 64 ==> (0u64 >> b) & 1u64 != 1u64) by (bit_vector);
    assert(x & y == y && b < 64 && (y >> b) & 1u64 == 1u64 ==> (x >> b) & 1u64 == 1u64)
        by (bit_vector);
}

/// Whether two strings hold the same text, compared byte by byte.
pub(crate) fn same_text(a: &str, b: &str) -> (r: bool)
    ensures
        r == (a@ == b@),
{
    let ab = a.as_bytes();
    let bb = b.as_bytes();
    proof {
        encode_utf8_decode_utf8(a@);
        encode_utf8_decode_utf8(b@);
    }
    assert(ab@ == encode_utf8(a@));
    assert(bb@ == encode_utf8(b@));
    if ab.len() != bb.len() {
        return false;
    }
    let mut i: usize = 0;
    while i < ab.len()
        invariant
            ab@.len() == bb@.len(),
            ab@ == encode_utf8(a@),
            bb@ == encode_utf8(b@),
            i <= ab@.len(),
            forall|j: int| 0 <= j < i ==> ab@[j] == bb@[j],
        decreases ab@.len() - i,
    {
        if ab[i] != bb[i] {
            assert(ab@ != bb@);
            return false;
        }
        i += 1;
    }
    proof {
        assert(ab@ =~= bb@);
    }
    true
}

/// The text a variant holds.
pub(crate) fn variant_str<'b, 'a>(v: &'b TextVariant<'a>) -> (r: &'b str)
    ensures
        r@ == v.text@,
{
    match &v.text {
        Cow::Borrowed(s) => s,
        Cow::Owned(s) => s.as_str(),
    }
}

/// Adds a changed text to `text_masks` unless an equal text is already there.
/// Returns the index of the entry that holds the text: `current_index` when
/// nothing changed, the first equal entry, or the new last entry.
fn dedup_insert<'a>(
    text_masks: &mut Vec<TextVariant<'a>>,
    current_index: usize,
    changed: Option<String>,
    is_ascii: bool,
) -> (r: usize)
    ensures
        changed is None ==> r == current_index && final(text_masks)@ == old(text_masks)@,
        changed matches Some(p) ==> {
            let found = exists|j: int|
                0 <= j < old(text_masks)@.len() && #[trigger] old(text_masks)@[j].text@ == p@;
            &&& found ==> final(text_masks)@ == old(text_masks)@ && r < old(
                text_masks,
            )@.len() && old(text_masks)@[r as int].text@ == p@
            &&& !found ==> final(text_masks)@ == old(text_masks)@.push(
                (TextVariant { text: Cow::Owned(p), mask: 0u64, is_ascii }),
            ) && r == old(text_masks)@.len()
        },
{
    match changed {
        Some(processed) => {
            let mut i: usize = 0;
            while i < text_masks.len()
                invariant
                    changed == Some(processed),
                    text_masks@ == old(text_masks)@,
                    i <= text_masks@.len(),
                    forall|j: int| 0 <= j < i ==> #[trigger] text_masks@[j].text@ != processed@,
                decreases text_masks@.len() - i,
            {
                if same_text(variant_str(&text_masks[i]), processed.as_str()) {
                    return i;
                }
                i += 1;
            }
            text_masks.push(TextVariant { text: Cow::Owned(processed), mask: 0u64, is_ascii });
            text_masks.len() - 1
        },
        None => current_index,
    }
}

/// Whether node `m` has its variant once the walk has finished the nodes
/// before `n` and the first `k` children of node `n`.
pub open spec fn assigned(tree: Seq<ProcessTypeBitNode>, n: int, k: int, m: int) -> bool {
    m == 0 || tree[m].parent@ < n || (tree[m].parent@ == n && tree[n].children@.take(k).contains(
        m as usize,
    ))
}

/// The state of the walk after the nodes before `n` and the first `k`
/// children of node `n`.
pub open spec fn walk_state<'a>(
    reg: &TransformRegistry,
    tree: Seq<ProcessTypeBitNode>,
    text: &'a str,
    tm: Seq<TextVariant<'a>>,
    idx: Seq<usize>,
    n: int,
    k: int,
) -> bool {
    &&& tm.len() >= 1
    &&& tm[0].text == Cow::<'a, str>::Borrowed(text)
    &&& forall|a: int, b: int| 0 <= a < b < tm.len() ==> #[trigger] tm[a].text@ != #[trigger] tm[b].text@
    &&& forall|j: int| 0 <= j < tm.len() ==> #[trigger] tm[j].is_ascii == is_ascii_chars(tm[j].text@)
    &&& idx.len() == tree.len()
    &&& forall|m: int|
        0 <= m < tree.len() && #[trigger] assigned(tree, n, k, m) ==> {
            &&& idx[m] < tm.len()
            &&& tm[idx[m] as int].text@ == node_text(reg, tree, m, text@)
            &&& mask_contains(tm[idx[m] as int].mask, tree[m].folded_mask)
        }
    &&& forall|j: int| 0 <= j < tm.len() ==> #[trigger] is_node_text(reg, tree, text@, tm[j].text@)
    &&& forall|j: int|
        0 <= j < tm.len() ==> #[trigger] mask_justified(reg, tree, text@, tm[j].text@, tm[j].mask)
}

/// A child's text is its step applied to its parent's text.
proof fn lemma_child_text(reg: &TransformRegistry, tree: Seq<ProcessTypeBitNode>, c: int, text: Seq<char>)
    requires
        tree_wf(tree),
        0 < c < tree.len(),
    ensures
        node_text(reg, tree, c, text) == reg.step(tree[c].process_type_bit.spec_bits()).spec_transform(
            node_text(reg, tree, tree[c].parent@, text),
        ),
{
    assert(node_linked(tree, c));
    let p = tree[c].parent@;
    assert(tree[c].path@.drop_last() =~= tree[p].path@);
}

/// One child step of the walk keeps the walk state, with one more child of
/// node `n` done.
proof fn lemma_walk_step<'a>(
    reg: &TransformRegistry,
    tree: Seq<ProcessTypeBitNode>,
    text: &'a str,
    tm0: Seq<TextVariant<'a>>,
    tm1: Seq<TextVariant<'a>>,
    tm2: Seq<TextVariant<'a>>,
    idx0: Seq<usize>,
    idx1: Seq<usize>,
    n: int,
    k: int,
    ci: int,
    x: int,
)
    requires
        tree_wf(tree),
        0 <= n < tree.len(),
        0 <= k < tree[n].children@.len(),
        child_ok(tree, n, tree[n].children@[k]),
        walk_state(reg, tree, text, tm0, idx0, n, k),
        0 <= ci < tm0.len(),
        0 <= x < tm1.len(),
        tm1.len() <= usize::MAX,
        tm1[x].text@ == node_text(reg, tree, tree[n].children@[k] as int, text@),
        tm1 == tm0 || ({
            &&& tm1 == tm0.push(tm1[x])
            &&& x == tm0.len()
            &&& tm1[x].mask == 0
            &&& tm1[x].is_ascii == is_ascii_chars(tm1[x].text@)
            &&& forall|j: int| 0 <= j < tm0.len() ==> #[trigger] tm0[j].text@ != tm1[x].text@
        }),
        idx1 == idx0.update(tree[n].children@[k] as int, x as usize),
        tm2.len() == tm1.len(),
        forall|j: int| 0 <= j < tm1.len() && j != x ==> tm2[j] == tm1[j],
        tm2[x].text == tm1[x].text,
        tm2[x].is_ascii == tm1[x].is_ascii,
        tm2[x].mask == tm1[x].mask | tree[tree[n].children@[k] as int].folded_mask,
    ensures
        walk_state(reg, tree, text, tm2, idx1, n, k + 1),
{
    let c = tree[n].children@[k] as int;
    let f = tree[c].folded_mask;
    assert forall|j: int| 0 <= j < tm0.len() implies #[trigger] tm1[j] == tm0[j] by {
        if tm1 != tm0 {
            assert(tm1[j] == tm0.push(tm1[x])[j]);
        }
    }
    assert forall|j: int| 0 <= j < tm2.len() implies #[trigger] tm2[j].text == tm1[j].text
        && tm2[j].is_ascii == tm1[j].is_ascii by {
        if j != x {
            assert(tm2[j] == tm1[j]);
        }
    }
    assert(tm2[0].text == tm0[0].text);
    assert forall|a: int, b: int| 0 <= a < b < tm2.len() implies #[trigger] tm2[a].text@
        != #[trigger] tm2[b].text@ by {
        assert(tm2[a].text == tm1[a].text);
        assert(tm2[b].text == tm1[b].text);
        if b < tm0.len() {
            assert(tm1[a] == tm0[a]);
            assert(tm1[b] == tm0[b]);
        } else {
            assert(tm1[a] == tm0[a]);
        }
    }
    assert forall|j: int| 0 <= j < tm2.len() implies #[trigger] tm2[j].is_ascii == is_ascii_chars(
        tm2[j].text@,
    ) by {
        if j < tm0.len() {
            assert(tm1[j] == tm0[j]);
        }
    }
    assert forall|m: int| 0 <= m < tree.len() && #[trigger] assigned(tree, n, k + 1, m) implies {
        &&& idx1[m] < tm2.len()
        &&& tm2[idx1[m] as int].text@ == node_text(reg, tree, m, text@)
        &&& mask_contains(tm2[idx1[m] as int].mask, tree[m].folded_mask)
    } by {
        lemma_mask_bits(tm1[x].mask, f, tree[m].folded_mask, 0);
        if m == c {
            assert(idx1[m] as int == x);
        } else {
            assert(tree[n].children@.take(k + 1) =~= tree[n].children@.take(k).push(c as usize));
            if m != 0 && tree[m].parent@ == n {
                assert(tree[n].children@.take(k).contains(m as usize));
            }
            assert(assigned(tree, n, k, m));
            let j = idx0[m] as int;
            assert(idx1[m] == idx0[m]);
            assert(tm1[j] == tm0[j]);
            if j != x {
                assert(tm2[j] == tm1[j]);
            }
        }
    }
    assert forall|j: int| 0 <= j < tm2.len() implies #[trigger] is_node_text(
        reg,
        tree,
        text@,
        tm2[j].text@,
    ) by {
        if j < tm0.len() {
            assert(tm1[j] == tm0[j]);
            assert(is_node_text(reg, tree, text@, tm0[j].text@));
        } else {
            assert(node_text(reg, tree, c, text@) == tm2[j].text@);
        }
    }
    assert forall|j: int| 0 <= j < tm2.len() implies #[trigger] mask_justified(
        reg,
        tree,
        text@,
        tm2[j].text@,
        tm2[j].mask,
    ) by {
        if j != x {
            assert(tm2[j] == tm1[j]);
            assert(tm1[j] == tm0[j]);
            assert(mask_justified(reg, tree, text@, tm0[j].text@, tm0[j].mask));
        } else {
            assert forall|b: u64| b < 64 && #[trigger] bit_set(tm2[x].mask, b) implies exists|m: int|
                0 <= m < tree.len() && #[trigger] node_text(reg, tree, m, text@) == tm2[x].text@
                    && bit_set(tree[m].folded_mask, b) by {
                lemma_mask_bits(tm1[x].mask, f, f, b);
                if bit_set(f, b) {
                    assert(node_text(reg, tree, c, text@) == tm2[x].text@);
                } else {
                    assert(bit_set(tm1[x].mask, b));
                    if x < tm0.len() {
                        assert(tm1[x] == tm0[x]);
                        assert(mask_justified(reg, tree, text@, tm0[x].text@, tm0[x].mask));
                    } else {
                        lemma_mask_bits(0u64, 0u64, 0u64, b);
                    }
                }
            }
        }
    }
}

/// A type recorded in a list sets its bit in the union of the list's bits.
proof fn lemma_mask_of_types_has(types: Seq<ProcessType>, pt: ProcessType)
    requires
        types.contains(pt),
    ensures
        bit_set(mask_of_types(types), (pt.spec_bits() % 64) as u64),
    decreases types.len(),
{
    let b = (pt.spec_bits() % 64) as u64;
    let rest = types.drop_last();
    lemma_mask_bits(mask_of_types(rest), type_mask_bit(types.last()), 0, b);
    if types.last() == pt {
        assert(b < 64 ==> ((1u64 << b) >> b) & 1u64 == 1u64) by (bit_vector);
    } else {
        let j = choose|j: int| 0 <= j < types.len() && types[j] == pt;
        assert(rest[j] == pt);
        lemma_mask_of_types_has(rest, pt);
    }
}

/// Every set bit of `bits` below `n` is among its single-bit values.
proof fn lemma_single_bits_below_complete(bits: u8, n: u8, k: u8)
    requires
        k < n <= 8,
        has_bit(bits, k),
    ensures
        single_bits_below(bits, n).contains((1u8 << k) as u8),
    decreases n,
{
    let m = (n - 1) as u8;
    let rest = single_bits_below(bits, m);
    if k == m {
        assert(single_bits_below(bits, n) == rest.push((1u8 << k) as u8));
        assert(single_bits_below(bits, n)[rest.len() as int] == (1u8 << k) as u8);
    } else {
        lemma_single_bits_below_complete(bits, m, k);
        let j = choose|j: int| 0 <= j < rest.len() && rest[j] == (1u8 << k) as u8;
        if has_bit(bits, m) {
            assert(single_bits_below(bits, n) == rest.push((1u8 << m) as u8));
            assert(single_bits_below(bits, n)[j] == rest[j]);
        } else {
            assert(single_bits_below(bits, n) == rest);
        }
    }
}

/// A type other than the empty one whose trie path is empty is `Raw`.
proof fn lemma_empty_steps_is_raw(pt: ProcessType)
    requires
        pt.spec_bits() != 0,
        steps_of(pt).len() == 0,
    ensures
        pt.spec_bits() == 0x01,
{
    let bits = pt.spec_bits();
    let sb = single_bits(bits);
    lemma_single_bits_sorted(bits);
    assert forall|k: u8| 1 <= k < 8 implies !has_bit(bits, k) by {
        if has_bit(bits, k) {
            lemma_single_bits_below_complete(bits, 8, k);
            let j = choose|j: int| 0 <= j < sb.len() && sb[j] == (1u8 << k) as u8;
            assert((1u8 << k) as u8 != 1u8) by (bit_vector)
                requires
                    1 <= k < 8,
            ;
            if sb.len() > 0 && sb[0] == 0x01 {
                assert(j != 0);
                assert(sb.drop_first()[j - 1] == sb[j]);
            } else {
                assert(sb[j] == strip_raw(sb)[j]);
            }
        }
    }
    assert(!has_bit(bits, 1) && !has_bit(bits, 2) && !has_bit(bits, 3) && !has_bit(bits, 4)
        && !has_bit(bits, 5) && !has_bit(bits, 6) && !has_bit(bits, 7));
    assert(bits != 0 && (bits >> 1u8) & 1u8 != 1u8 && (bits >> 2u8) & 1u8 != 1u8 && (bits >> 3u8)
        & 1u8 != 1u8 && (bits >> 4u8) & 1u8 != 1u8 && (bits >> 5u8) & 1u8 != 1u8 && (bits >> 6u8)
        & 1u8 != 1u8 && (bits >> 7u8) & 1u8 != 1u8 ==> bits == 1u8) by (bit_vector);
}

/// A leading `Raw` step changes nothing.
proof fn lemma_chain_raw_prefix(reg: &TransformRegistry, t: Seq<u8>, s: Seq<char>)
    ensures
        chain_text(reg, seq![0x01u8] + t, s) == chain_text(reg, t, s),
    decreases t.len(),
{
    if t.len() == 0 {
        assert(seq![0x01u8] + t =~= seq![0x01u8]);
        assert(seq![0x01u8].drop_last() =~= Seq::<u8>::empty());
        assert(chain_text(reg, Seq::<u8>::empty(), s) == s);
        assert(seq![0x01u8].last() == 0x01u8);
    } else {
        assert((seq![0x01u8] + t).drop_last() =~= seq![0x01u8] + t.drop_last());
        assert((seq![0x01u8] + t).last() == t.last());
        lemma_chain_raw_prefix(reg, t.drop_last(), s);
    }
}

/// Stripping the `Raw` step from a type's steps does not change the text they
/// make.
pub proof fn lemma_steps_of_text(reg: &TransformRegistry, pt: ProcessType, s: Seq<char>)
    ensures
        chain_text(reg, steps_of(pt), s) == chain_text(reg, single_bits(pt.spec_bits()), s),
{
    let sb = single_bits(pt.spec_bits());
    if sb.len() > 0 && sb[0] == 0x01 {
        assert(sb =~= seq![0x01u8] + sb.drop_first());
        lemma_chain_raw_prefix(reg, sb.drop_first(), s);
    }
}

/// The walk of the trie built from `set` holds, for every non-empty type of
/// `set`, the text that the type's pipeline makes of the input (what
/// [`crate::api::text_process`] returns), and that variant's mask carries the
/// type's bit.
pub proof fn law_walk_holds_each_pipeline<'a>(
    reg: &TransformRegistry,
    tree: Seq<ProcessTypeBitNode>,
    set: Seq<ProcessType>,
    text: &'a str,
    r: Seq<TextVariant<'a>>,
    pt: ProcessType,
)
    requires
        tree_of(tree, set),
        walk_result(reg, tree, text, r),
        set.contains(pt),
        pt.spec_bits() != 0,
    ensures
        exists|j: int|
            0 <= j < r.len() && #[trigger] r[j].text@ == chain_text(
                reg,
                single_bits(pt.spec_bits()),
                text@,
            ) && bit_set(r[j].mask, (pt.spec_bits() % 64) as u64),
{
    let n = choose|n: int| 0 <= n < tree.len() && #[trigger] tree[n].path@ == steps_of(pt);
    if n == 0 {
        lemma_empty_steps_is_raw(pt);
        assert(tree[0].types().contains(pt));
    } else {
        assert(node_linked(tree, n));
        assert(tree[n].path@.is_prefix_of(steps_of(pt)));
        assert(tree[n].types().contains(pt));
    }
    lemma_mask_of_types_has(tree[n].types(), pt);
    let j = choose|j: int|
        0 <= j < r.len() && #[trigger] r[j].text@ == #[trigger] node_text(reg, tree, n, text@)
            && mask_contains(r[j].mask, tree[n].folded_mask);
    lemma_mask_bits(r[j].mask, 0, tree[n].folded_mask, (pt.spec_bits() % 64) as u64);
    assert(tree[n].folded_mask == mask_of_types(tree[n].types()));
    lemma_mask_bits(r[j].mask, tree[n].folded_mask, 0, (pt.spec_bits() % 64) as u64);
    lemma_steps_of_text(reg, pt, text@);
    assert(r[j].text@ == chain_text(reg, single_bits(pt.spec_bits()), text@));
}

/// A set bit of the union of the types' mask bits comes from one of them.
proof fn lemma_mask_of_types_bit(types: Seq<ProcessType>, b: u64)
    requires
        b < 64,
        bit_set(mask_of_types(types), b),
    ensures
        exists|t: ProcessType| #[trigger] types.contains(t) && (t.spec_bits() % 64) as u64 == b,
    decreases types.len(),
{
    if types.len() == 0 {
        lemma_mask_bits(0u64, 0u64, 0u64, b);
        assert(mask_of_types(types) == 0u64);
    } else {
        let rest = types.drop_last();
        let t = types.last();
        assert(mask_of_types(types) == mask_of_types(rest) | type_mask_bit(t));
        let s = (t.spec_bits() % 64) as u64;
        lemma_mask_bits(mask_of_types(rest), type_mask_bit(t), 0, b);
        if bit_set(type_mask_bit(t), b) {
            let x = type_mask_bit(t);
            assert(x == 1u64 << s);
            assert(s < 64);
            assert(s < 64 && b < 64 && x == 1u64 << s && (x >> b) & 1u64 == 1u64 ==> s == b)
                by (bit_vector);
            assert(types[types.len() - 1] == t);
            assert(types.contains(t) && (t.spec_bits() % 64) as u64 == b);
        } else {
            lemma_mask_of_types_bit(rest, b);
            let w = choose|w: ProcessType| #[trigger] rest.contains(w) && (w.spec_bits() % 64) as u64 == b;
            let i = choose|i: int| 0 <= i < rest.len() && rest[i] == w;
            assert(types[i] == w);
            assert(types.contains(w) && (w.spec_bits() % 64) as u64 == b);
        }
    }
}

/// The walk tags a variant only with the bits of types whose pipeline makes
/// that variant's text: every set bit of a variant's mask is the bit of some
/// type of `set` whose pipeline turns the input into the variant's text.
pub proof fn law_walk_tags_only_pipelines<'a>(
    reg: &TransformRegistry,
    tree: Seq<ProcessTypeBitNode>,
    set: Seq<ProcessType>,
    text: &'a str,
    r: Seq<TextVariant<'a>>,
    j: int,
    b: u64,
)
    requires
        tree_of(tree, set),
        walk_result(reg, tree, text, r),
        0 <= j < r.len(),
        b < 64,
        bit_set(r[j].mask, b),
    ensures
        exists|t: ProcessType|
            #[trigger] set.contains(t) && (t.spec_bits() % 64) as u64 == b && r[j].text@ == chain_text(
                reg,
                single_bits(t.spec_bits()),
                text@,
            ),
{
    assert(mask_justified(reg, tree, text@, r[j].text@, r[j].mask));
    let m = choose|m: int|
        0 <= m < tree.len() && #[trigger] node_text(reg, tree, m, text@) == r[j].text@ && bit_set(
            tree[m].folded_mask,
            b,
        );
    assert(tree[m].folded_mask == mask_of_types(tree[m].types()));
    lemma_mask_of_types_bit(tree[m].types(), b);
    let t = choose|t: ProcessType| #[trigger] tree[m].types().contains(t) && (t.spec_bits() % 64) as u64 == b;
    lemma_steps_of_text(reg, t, text@);
    if m == 0 {
        assert(set.contains(t) && t.spec_bits() == 0x01);
        lemma_single_bits_raw();
        assert(steps_of(t) =~= Seq::<u8>::empty());
        assert(node_text(reg, tree, 0, text@) == chain_text(reg, Seq::<u8>::empty(), text@));
    } else {
        assert(set.contains(t) && tree[m].path@ == steps_of(t));
    }
    assert(set.contains(t) && (t.spec_bits() % 64) as u64 == b && r[j].text@ == chain_text(
        reg,
        single_bits(t.spec_bits()),
        text@,
    ));
}


/// Watches the variants of a lazy walk as they are made; returning `true`
/// stops the walk.
pub trait VariantVisitor {
    /// The calls received so far, each as (text, index, mask, ASCII flag,
    /// answer).
    spec fn shown(&self) -> Seq<(Seq<char>, usize, u64, bool, bool)>;

    /// Sees variant `index` with text `text`, the mask bits not shown
    /// before `mask`, and whether the text is all ASCII.
    fn on_variant(&mut self, text: &str, index: usize, mask: u64, is_ascii: bool) -> (r: bool)
        ensures
            final(self).shown() == old(self).shown().push((text@, index, mask, is_ascii, r)),
    ;
}

/// A visitor that keeps every call it receives and asks to stop at call
/// number `stop_at` (counting from 1), or never when it is `None`.
pub struct VariantLog {
    /// The calls received so far, each as (text, index, mask, ASCII flag).
    pub seen: Vec<(String, usize, u64, bool)>,
    /// The call that stops the walk.
    pub stop_at: Option<usize>,
}

impl VariantVisitor for VariantLog {
    open spec fn shown(&self) -> Seq<(Seq<char>, usize, u64, bool, bool)> {
        Seq::new(
            self.seen@.len(),
            |k: int|
                (
                    self.seen@[k].0@,
                    self.seen@[k].1,
                    self.seen@[k].2,
                    self.seen@[k].3,
                    self.stop_at == Some((k + 1) as usize),
                ),
        )
    }

    fn on_variant(&mut self, text: &str, index: usize, mask: u64, is_ascii: bool) -> (r: bool) {
        let ghost before = self.shown();
        self.seen.push((text.to_owned(), index, mask, is_ascii));
        let n = self.seen.len();
        let r = match self.stop_at {
            Some(k) => k == n,
            None => false,
        };
        proof {
            assert(self.shown() =~= before.push((text@, index, mask, is_ascii, r)));
        }
        r
    }
}

/// The calls `calls` fit the variants `tm`: each shows a non-empty part of
/// the mask of an existing variant, with that variant's text and ASCII flag,
/// and no bit of a variant is shown twice.
pub open spec fn calls_fit<'a>(
    calls: Seq<(Seq<char>, usize, u64, bool, bool)>,
    tm: Seq<TextVariant<'a>>,
) -> bool {
    &&& forall|k: int|
        0 <= k < calls.len() ==> {
            &&& (#[trigger] calls[k]).2 != 0
            &&& (calls[k].1 as int) < tm.len()
            &&& calls[k].0 == tm[calls[k].1 as int].text@
            &&& calls[k].3 == tm[calls[k].1 as int].is_ascii
            &&& mask_contains(tm[calls[k].1 as int].mask, calls[k].2)
        }
    &&& forall|k1: int, k2: int, b: u64|
        0 <= k1 < k2 < calls.len() && calls[k1].1 == calls[k2].1 && b < 64 ==> !(#[trigger] bit_set(
            calls[k1].2,
            b,
        ) && #[trigger] bit_set(calls[k2].2, b))
}

/// Every bit of every variant's mask was shown with that variant.
pub open spec fn calls_cover<'a>(
    calls: Seq<(Seq<char>, usize, u64, bool, bool)>,
    tm: Seq<TextVariant<'a>>,
) -> bool {
    forall|j: int, b: u64|
        0 <= j < tm.len() && b < 64 && #[trigger] bit_set(tm[j].mask, b) ==> exists|k: int|
            0 <= k < calls.len() && calls[k].1 == j && #[trigger] bit_set(calls[k].2, b)
}

/// The visitor answered `false` to every call but, when the walk stopped,
/// the last, which it answered `true`.
pub open spec fn answers_fit(calls: Seq<(Seq<char>, usize, u64, bool, bool)>, stopped: bool) -> bool {
    &&& forall|k: int| 0 <= k < calls.len() && (#[trigger] calls[k]).4 ==> stopped && k == calls.len() - 1
    &&& stopped ==> calls.len() > 0 && calls.last().4
}

/// The state of the calls during a walk: they fit, all were answered
/// `false`, and `scanned[i]` holds exactly the bits shown with variant `i`,
/// all of them in its mask.
spec fn scan_state<'a>(
    calls: Seq<(Seq<char>, usize, u64, bool, bool)>,
    tm: Seq<TextVariant<'a>>,
    scanned: Seq<u64>,
) -> bool {
    &&& scanned.len() == tm.len()
    &&& calls_fit(calls, tm)
    &&& forall|k: int| 0 <= k < calls.len() ==> !(#[trigger] calls[k]).4
    &&& forall|k: int, b: u64|
        0 <= k < calls.len() && b < 64 && #[trigger] bit_set(calls[k].2, b) ==> bit_set(
            scanned[calls[k].1 as int],
            b,
        )
    &&& forall|i: int, b: u64|
        0 <= i < tm.len() && b < 64 && #[trigger] bit_set(scanned[i], b) ==> bit_set(tm[i].mask, b)
            && exists|k: int| 0 <= k < calls.len() && calls[k].1 == i && #[trigger] bit_set(calls[k].2, b)
}

/// The calls show strictly ascending variant indices.
pub open spec fn index_ascending(calls: Seq<(Seq<char>, usize, u64, bool, bool)>) -> bool {
    forall|k1: int, k2: int| 0 <= k1 < k2 < calls.len() ==> #[trigger] calls[k1].1 < #[trigger] calls[k2].1
}

/// The calls fall into two runs, split at `p`, each with strictly
/// ascending variant indices: the new variants as they are made, then the
/// variants whose masks grew.
pub open spec fn two_runs(calls: Seq<(Seq<char>, usize, u64, bool, bool)>, p: int) -> bool {
    &&& 0 <= p <= calls.len()
    &&& index_ascending(calls.take(p))
    &&& index_ascending(calls.skip(p))
}

/// Appending a call whose index is above all earlier ones keeps the
/// indices ascending.
proof fn lemma_push_ascending(
    calls: Seq<(Seq<char>, usize, u64, bool, bool)>,
    rec: (Seq<char>, usize, u64, bool, bool),
)
    requires
        index_ascending(calls),
        forall|k: int| 0 <= k < calls.len() ==> (#[trigger] calls[k]).1 < rec.1,
    ensures
        index_ascending(calls.push(rec)),
{
    let c1 = calls.push(rec);
    assert forall|k1: int, k2: int| 0 <= k1 < k2 < c1.len() implies #[trigger] c1[k1].1 < #[trigger] c1[k2].1 by {
        assert(c1[k1] == calls[k1]);
        if k2 < calls.len() {
            assert(c1[k2] == calls[k2]);
        }
    }
}

/// Calls with ascending indices are two runs, the second empty.
proof fn lemma_one_run(calls: Seq<(Seq<char>, usize, u64, bool, bool)>)
    requires
        index_ascending(calls),
    ensures
        two_runs(calls, calls.len() as int),
{
    assert(calls.take(calls.len() as int) =~= calls);
    assert(calls.skip(calls.len() as int) =~= Seq::<(Seq<char>, usize, u64, bool, bool)>::empty());
}

/// The calls a visitor received since its record was `before`.
pub open spec fn calls_since(
    before: Seq<(Seq<char>, usize, u64, bool, bool)>,
    after: Seq<(Seq<char>, usize, u64, bool, bool)>,
) -> Seq<(Seq<char>, usize, u64, bool, bool)> {
    after.skip(before.len() as int)
}

/// A record that grew from `s0` by `calls` starts with `s0`, and what it
/// gained since is `calls`.
proof fn lemma_record(
    s0: Seq<(Seq<char>, usize, u64, bool, bool)>,
    calls: Seq<(Seq<char>, usize, u64, bool, bool)>,
    shown: Seq<(Seq<char>, usize, u64, bool, bool)>,
)
    requires
        shown == s0 + calls,
    ensures
        s0.is_prefix_of(shown),
        calls_since(s0, shown) == calls,
{
    assert(shown.subrange(0, s0.len() as int) =~= s0);
    assert(calls_since(s0, shown) =~= calls);
}

/// Bit facts about the part of a mask not yet shown.
proof fn lemma_delta_bits(m: u64, s: u64, x: u64, b: u64)
    ensures
        b < 64 ==> (bit_set(m & !s, b) <==> bit_set(m, b) && !bit_set(s, b)),
        mask_contains(m, m & !s),
        x != 0 && mask_contains(m, x) ==> m != 0,
{
    assert((b < 64 ==> ((((m & !s) >> b) & 1u64 == 1u64) <==> ((m >> b) & 1u64 == 1u64 && (s >> b)
        & 1u64 != 1u64))) && (m & (m & !s)) == (m & !s) && (x != 0 && (m & x) == x ==> m != 0))
        by (bit_vector);
}

/// The variant list grew by at most one entry, texts and ASCII flags stayed
/// and masks only gained bits: the call state carries over, with nothing
/// shown for a new entry.
proof fn lemma_scan_grow<'a>(
    calls: Seq<(Seq<char>, usize, u64, bool, bool)>,
    tm0: Seq<TextVariant<'a>>,
    tm1: Seq<TextVariant<'a>>,
    sc0: Seq<u64>,
    sc1: Seq<u64>,
)
    requires
        scan_state(calls, tm0, sc0),
        tm0.len() <= tm1.len() <= tm0.len() + 1,
        forall|j: int|
            0 <= j < tm0.len() ==> (#[trigger] tm1[j]).text == tm0[j].text && tm1[j].is_ascii
                == tm0[j].is_ascii && mask_contains(tm1[j].mask, tm0[j].mask),
        sc1 == if tm1.len() > tm0.len() {
            sc0.push(0u64)
        } else {
            sc0
        },
    ensures
        scan_state(calls, tm1, sc1),
{
    assert forall|k: int| 0 <= k < calls.len() implies {
        &&& (#[trigger] calls[k]).2 != 0
        &&& (calls[k].1 as int) < tm1.len()
        &&& calls[k].0 == tm1[calls[k].1 as int].text@
        &&& calls[k].3 == tm1[calls[k].1 as int].is_ascii
        &&& mask_contains(tm1[calls[k].1 as int].mask, calls[k].2)
    } by {
        let i = calls[k].1 as int;
        assert(tm1[i].text == tm0[i].text);
        lemma_mask_bits(tm1[i].mask, 0, 0, 0);
        assert(mask_contains(tm0[i].mask, calls[k].2));
        assert(mask_contains(tm1[i].mask, calls[k].2)) by {
            let x = tm1[i].mask;
            let y = tm0[i].mask;
            let z = calls[k].2;
            assert((x & y) == y && (y & z) == z ==> (x & z) == z) by (bit_vector);
        }
    }
    assert forall|i: int, b: u64|
        0 <= i < tm1.len() && b < 64 && #[trigger] bit_set(sc1[i], b) implies bit_set(tm1[i].mask, b)
            && exists|k: int| 0 <= k < calls.len() && calls[k].1 == i && #[trigger] bit_set(calls[k].2, b) by {
        if i < tm0.len() {
            assert(sc1[i] == sc0[i]);
            assert(bit_set(sc0[i], b));
            lemma_mask_bits(tm1[i].mask, tm0[i].mask, 0, b);
            assert(bit_set(tm0[i].mask, b));
            let k = choose|k: int| 0 <= k < calls.len() && calls[k].1 == i && #[trigger] bit_set(calls[k].2, b);
            assert(0 <= k < calls.len() && calls[k].1 == i && bit_set(calls[k].2, b));
        } else {
            assert(sc1[i] == 0u64);
            lemma_mask_bits(0, 0, 0, b);
        }
    }
    assert forall|k: int, b: u64|
        0 <= k < calls.len() && b < 64 && #[trigger] bit_set(calls[k].2, b) implies bit_set(
            sc1[calls[k].1 as int],
            b,
        ) by {
        assert(sc1[calls[k].1 as int] == sc0[calls[k].1 as int]);
    }
}

/// Recording a call that shows bits `m`, none shown before, of variant `i`,
/// and then marking variant `i` as scanned up to `x` (the old scanned bits
/// and those of `m`, all in the mask), keeps the call state when the answer
/// is `false`, and the calls fit in any case.
proof fn lemma_scan_call<'a>(
    calls: Seq<(Seq<char>, usize, u64, bool, bool)>,
    tm: Seq<TextVariant<'a>>,
    sc0: Seq<u64>,
    sc1: Seq<u64>,
    i: int,
    m: u64,
    x: u64,
    ans: bool,
)
    requires
        scan_state(calls, tm, sc0),
        0 <= i < tm.len(),
        i <= usize::MAX,
        m != 0,
        mask_contains(tm[i].mask, m),
        forall|b: u64| b < 64 && #[trigger] bit_set(m, b) ==> !bit_set(sc0[i], b),
        forall|b: u64| b < 64 ==> (#[trigger] bit_set(x, b) <==> bit_set(sc0[i], b) || bit_set(m, b)),
        sc1 == sc0.update(i, x),
    ensures
        calls_fit(calls.push((tm[i].text@, i as usize, m, tm[i].is_ascii, ans)), tm),
        answers_fit(calls.push((tm[i].text@, i as usize, m, tm[i].is_ascii, ans)), ans),
        !ans ==> scan_state(calls.push((tm[i].text@, i as usize, m, tm[i].is_ascii, ans)), tm, sc1),
{
    let rec = (tm[i].text@, i as usize, m, tm[i].is_ascii, ans);
    let c1 = calls.push(rec);
    assert forall|k1: int, k2: int, b: u64|
        0 <= k1 < k2 < c1.len() && c1[k1].1 == c1[k2].1 && b < 64 implies !(#[trigger] bit_set(
        c1[k1].2,
        b,
    ) && #[trigger] bit_set(c1[k2].2, b)) by {
        if k2 == calls.len() {
            assert(c1[k1] == calls[k1]);
            if bit_set(calls[k1].2, b) {
                assert(bit_set(sc0[i], b));
            }
        } else {
            assert(c1[k1] == calls[k1] && c1[k2] == calls[k2]);
        }
    }
    assert forall|k: int| 0 <= k < c1.len() implies {
        &&& (#[trigger] c1[k]).2 != 0
        &&& (c1[k].1 as int) < tm.len()
        &&& c1[k].0 == tm[c1[k].1 as int].text@
        &&& c1[k].3 == tm[c1[k].1 as int].is_ascii
        &&& mask_contains(tm[c1[k].1 as int].mask, c1[k].2)
    } by {
        if k < calls.len() {
            assert(c1[k] == calls[k]);
        }
    }
    assert forall|k: int| 0 <= k < c1.len() && (#[trigger] c1[k]).4 implies ans && k == c1.len() - 1 by {
        if k < calls.len() {
            assert(c1[k] == calls[k]);
        }
    }
    assert(c1.last() == rec);
    if !ans {
        assert forall|k: int, b: u64|
            0 <= k < c1.len() && b < 64 && #[trigger] bit_set(c1[k].2, b) implies bit_set(
                sc1[c1[k].1 as int],
                b,
            ) by {
            if k < calls.len() {
                assert(c1[k] == calls[k]);
                if calls[k].1 as int != i {
                    assert(sc1[calls[k].1 as int] == sc0[calls[k].1 as int]);
                }
            }
        }
        assert forall|j: int, b: u64|
            0 <= j < tm.len() && b < 64 && #[trigger] bit_set(sc1[j], b) implies bit_set(tm[j].mask, b)
                && exists|k: int| 0 <= k < c1.len() && c1[k].1 == j && #[trigger] bit_set(c1[k].2, b) by {
            if j != i {
                assert(sc1[j] == sc0[j]);
                assert(bit_set(sc0[j], b));
                let k = choose|k: int| 0 <= k < calls.len() && calls[k].1 == j && #[trigger] bit_set(calls[k].2, b);
                assert(c1[k] == calls[k]);
                assert(0 <= k < c1.len() && c1[k].1 == j && bit_set(c1[k].2, b));
            } else if bit_set(sc0[i], b) {
                let k = choose|k: int| 0 <= k < calls.len() && calls[k].1 == j && #[trigger] bit_set(calls[k].2, b);
                assert(c1[k] == calls[k]);
                assert(0 <= k < c1.len() && c1[k].1 == j && bit_set(c1[k].2, b));
            } else {
                assert(sc1[j] == x);
                assert(bit_set(x, b));
                assert(bit_set(m, b));
                lemma_mask_bits(tm[i].mask, m, 0, b);
                assert(c1[calls.len() as int] == rec);
                assert(c1[calls.len() as int].1 == j && bit_set(c1[calls.len() as int].2, b));
            }
        }
        assert forall|k: int| 0 <= k < c1.len() implies !(#[trigger] c1[k]).4 by {
            if k < calls.len() {
                assert(c1[k] == calls[k]);
            }
        }
    }
}

/// What holds of the variants at any point of a walk: the input first,
/// texts pairwise distinct, the ASCII flags exact, and every variant and
/// every mask bit accounted for by a node.
pub open spec fn walk_partial<'a>(
    reg: &TransformRegistry,
    tree: Seq<ProcessTypeBitNode>,
    text: &'a str,
    r: Seq<TextVariant<'a>>,
) -> bool {
    &&& r.len() >= 1
    &&& r[0].text == Cow::<'a, str>::Borrowed(text)
    &&& forall|a: int, b: int| 0 <= a < b < r.len() ==> #[trigger] r[a].text@ != #[trigger] r[b].text@
    &&& forall|j: int| 0 <= j < r.len() ==> #[trigger] r[j].is_ascii == is_ascii_chars(r[j].text@)
    &&& forall|j: int| 0 <= j < r.len() ==> #[trigger] is_node_text(reg, tree, text@, r[j].text@)
    &&& forall|j: int|
        0 <= j < r.len() ==> #[trigger] mask_justified(reg, tree, text@, r[j].text@, r[j].mask)
}

/// The walk shared by [`walk_process_tree`] and [`walk_process_tree_lazy`];
/// with `lazy` it shows the visitor each new variant and, at the end, each
/// variant whose mask grew, and stops when the visitor asks to.
fn walk_with<'a, V: VariantVisitor>(
    registry: &TransformRegistry,
    process_type_tree: &Vec<ProcessTypeBitNode>,
    text: &'a str,
    visitor: &mut V,
    lazy: bool,
) -> (r: (Vec<TextVariant<'a>>, bool))
    requires
        tree_wf(process_type_tree@),
    ensures
        walk_partial(registry, process_type_tree@, text, r.0@),
        !r.1 ==> walk_result(registry, process_type_tree@, text, r.0@),
        r.1 ==> lazy,
        old(visitor).shown().is_prefix_of(final(visitor).shown()),
        calls_fit(calls_since(old(visitor).shown(), final(visitor).shown()), r.0@),
        answers_fit(calls_since(old(visitor).shown(), final(visitor).shown()), r.1),
        !lazy ==> calls_since(old(visitor).shown(), final(visitor).shown()).len() == 0,
        lazy && !r.1 ==> calls_cover(calls_since(old(visitor).shown(), final(visitor).shown()), r.0@),
        exists|p: int| #[trigger] two_runs(calls_since(old(visitor).shown(), final(visitor).shown()), p),
{
    let ghost s0 = visitor.shown();
    let ghost mut calls: Seq<(Seq<char>, usize, u64, bool, bool)> = Seq::empty();
    proof {
        assert(s0 + calls =~= s0);
    }
    let ghost tree = process_type_tree@;
    let root_is_ascii = text.is_ascii();
    let mut text_masks: Vec<TextVariant<'a>> = Vec::new();
    text_masks.push(
        TextVariant {
            text: Cow::Borrowed(text),
            mask: process_type_tree[0].folded_mask,
            is_ascii: root_is_ascii,
        },
    );
    proof {
        let x = tree[0].folded_mask;
        lemma_mask_bits(x, x, x, 0);
        assert(tree[0].path@ == Seq::<u8>::empty());
        assert(node_text(registry, tree, 0, text@) == text@);
        assert(is_node_text(registry, tree, text@, text_masks@[0].text@));
        assert forall|b: u64| b < 64 && #[trigger] bit_set(x, b) implies exists|m: int|
            0 <= m < tree.len() && #[trigger] node_text(registry, tree, m, text@) == text@
                && bit_set(tree[m].folded_mask, b) by {
            assert(node_text(registry, tree, 0, text@) == text@);
        }
        assert(mask_justified(registry, tree, text@, text_masks@[0].text@, text_masks@[0].mask));
    }
    let mut scanned = masks_new();
    masks_push(&mut scanned, 0u64);
    proof {
        assert forall|i: int, b: u64|
            0 <= i < text_masks@.len() && b < 64 && #[trigger] bit_set(mask_list(scanned)[i], b) implies bit_set(
                text_masks@[i].mask,
                b,
            ) && exists|k: int| 0 <= k < calls.len() && calls[k].1 == i && #[trigger] bit_set(calls[k].2, b) by {
            lemma_mask_bits(0, 0, 0, b);
        }
        assert(scan_state(calls, text_masks@, mask_list(scanned)));
    }
    if lazy {
        let root_mask = process_type_tree[0].folded_mask;
        if root_mask != 0 {
            let ghost sc0 = mask_list(scanned);
            let ghost tm = text_masks@;
            let ans = visitor.on_variant(text, 0, root_mask, root_is_ascii);
            proof {
                lemma_mask_bits(root_mask, 0, 0, 0);
                assert forall|b: u64| b < 64 && #[trigger] bit_set(root_mask, b) implies !bit_set(sc0[0], b) by {
                    lemma_mask_bits(0, 0, 0, b);
                }
                assert forall|b: u64| b < 64 implies (#[trigger] bit_set(root_mask, b) <==> bit_set(sc0[0], b)
                    || bit_set(root_mask, b)) by {
                    lemma_mask_bits(0, 0, 0, b);
                }
                lemma_scan_call(calls, tm, sc0, sc0.update(0, root_mask), 0, root_mask, root_mask, ans);
                assert(tm[0].text@ == text@);
                lemma_push_ascending(calls, (text@, 0usize, root_mask, root_is_ascii, ans));
                calls = calls.push((text@, 0usize, root_mask, root_is_ascii, ans));
                lemma_one_run(calls);
                assert(visitor.shown() =~= s0 + calls);
                lemma_record(s0, calls, visitor.shown());
            }
            if ans {
                return (text_masks, true);
            }
            masks_set(&mut scanned, 0, root_mask);
        }
    }
    if process_type_tree[0].children.len() == 0 {
        proof {
            lemma_record(s0, calls, visitor.shown());
            lemma_one_run(calls);
            if lazy {
                assert forall|j: int, b: u64|
                    0 <= j < text_masks@.len() && b < 64 && #[trigger] bit_set(text_masks@[j].mask, b)
                        implies exists|k: int|
                    0 <= k < calls.len() && calls[k].1 == j && #[trigger] bit_set(calls[k].2, b) by {
                    assert(j == 0);
                    assert(bit_set(mask_list(scanned)[0], b));
                }
            }
            if tree.len() > 1 {
                assert(node_linked(tree, 1));
            }
            assert forall|m: int| 0 <= m < tree.len() implies exists|j: int|
                0 <= j < text_masks@.len() && #[trigger] text_masks@[j].text@ == #[trigger] node_text(
                    registry,
                    tree,
                    m,
                    text@,
                ) && mask_contains(text_masks@[j].mask, tree[m].folded_mask) by {
                assert(m == 0);
                assert(text_masks@[0].text@ == node_text(registry, tree, 0, text@));
            }
        }
        return (text_masks, false);
    }
    let mut tree_node_indices: Vec<usize> = Vec::new();
    let mut z: usize = 0;
    while z < process_type_tree.len()
        invariant
            tree == process_type_tree@,
            z <= tree.len(),
            tree_node_indices@.len() == z,
            forall|j: int| 0 <= j < z ==> #[trigger] tree_node_indices@[j] == 0,
        decreases tree.len() - z,
    {
        tree_node_indices.push(0);
        z += 1;
    }
    proof {
        assert forall|m: int| 0 <= m < tree.len() && #[trigger] assigned(tree, 0, 0, m) implies m
            == 0 by {
            if m != 0 {
                assert(node_linked(tree, m));
            }
        }
    }
    let mut current_node_index: usize = 0;
    while current_node_index < process_type_tree.len()
        invariant
            tree == process_type_tree@,
            tree_wf(tree),
            current_node_index <= tree.len(),
            walk_state(
                registry,
                tree,
                text,
                text_masks@,
                tree_node_indices@,
                current_node_index as int,
                0,
            ),
            visitor.shown() == s0 + calls,
            s0 == old(visitor).shown(),
            scan_state(calls, text_masks@, mask_list(scanned)),
            index_ascending(calls),
            !lazy ==> calls.len() == 0,
        decreases tree.len() - current_node_index,
    {
        let ghost n = current_node_index as int;
        proof {
            if n > 0 {
                assert(node_linked(tree, n));
            }
            assert(assigned(tree, n, 0, n));
        }
        let current_index = tree_node_indices[current_node_index];
        let parent_is_ascii = text_masks[current_index].is_ascii;
        let nchildren = process_type_tree[current_node_index].children.len();
        let mut k: usize = 0;
        while k < nchildren
            invariant
                tree == process_type_tree@,
                tree_wf(tree),
                0 <= n < tree.len(),
                n == current_node_index,
                nchildren == tree[n].children@.len(),
                k <= nchildren,
                walk_state(registry, tree, text, text_masks@, tree_node_indices@, n, k as int),
                current_index < text_masks@.len(),
                text_masks@[current_index as int].text@ == node_text(registry, tree, n, text@),
                parent_is_ascii == text_masks@[current_index as int].is_ascii,
                visitor.shown() == s0 + calls,
                s0 == old(visitor).shown(),
                scan_state(calls, text_masks@, mask_list(scanned)),
                index_ascending(calls),
                !lazy ==> calls.len() == 0,
            decreases nchildren - k,
        {
            let child_node_index = process_type_tree[current_node_index].children[k];
            let ghost c = child_node_index as int;
            proof {
                assert(child_ok(tree, n, tree[n].children@[k as int]));
                assert(node_linked(tree, c));
                lemma_child_text(registry, tree, c, text@);
            }
            let child_node = &process_type_tree[child_node_index];
            let step = registry.get_transform_step(child_node.process_type_bit);
            let ghost cur_text = text_masks@[current_index as int].text@;
            let changed = step.apply(variant_str(&text_masks[current_index]), parent_is_ascii);
            let child_is_ascii = match &changed {
                Some(processed) => match step {
                    TransformStep::Delete(m) => {
                        proof {
                            if parent_is_ascii {
                                lemma_delete_keeps_ascii(m, cur_text);
                            }
                        }
                        parent_is_ascii || processed.as_str().is_ascii()
                    },
                    _ => processed.as_str().is_ascii(),
                },
                None => parent_is_ascii,
            };
            proof {
                if changed is None {
                    step.lemma_unchanged(cur_text);
                }
            }
            let ghost tm0 = text_masks@;
            let ghost sc0 = mask_list(scanned);
            let old_len = text_masks.len();
            let child_index = dedup_insert(&mut text_masks, current_index, changed, child_is_ascii);
            if masks_len(&scanned) < text_masks.len() {
                masks_push(&mut scanned, 0u64);
            }
            let ghost tm1 = text_masks@;
            let ghost idx0 = tree_node_indices@;
            tree_node_indices.set(child_node_index, child_index);
            let new_mask = text_masks[child_index].mask | child_node.folded_mask;
            text_masks[child_index].mask = new_mask;
            proof {
                assert(text_masks.len() == text_masks@.len());
                lemma_walk_step(
                    registry,
                    tree,
                    text,
                    tm0,
                    tm1,
                    text_masks@,
                    idx0,
                    tree_node_indices@,
                    n,
                    k as int,
                    current_index as int,
                    child_index as int,
                );
                assert forall|j: int| 0 <= j < tm0.len() implies (#[trigger] text_masks@[j]).text == tm0[j].text
                    && text_masks@[j].is_ascii == tm0[j].is_ascii && mask_contains(text_masks@[j].mask, tm0[j].mask) by {
                    assert(tm1[j] == tm0[j]);
                    if j != child_index {
                        assert(text_masks@[j] == tm1[j]);
                        lemma_mask_bits(tm0[j].mask, 0, 0, 0);
                    } else {
                        lemma_mask_bits(tm1[j].mask, child_node.folded_mask, tm1[j].mask, 0);
                    }
                }
                lemma_scan_grow(calls, tm0, text_masks@, sc0, mask_list(scanned));
            }
            if lazy && child_index >= old_len {
                let mask = text_masks[child_index].mask;
                let is_ascii = text_masks[child_index].is_ascii;
                if mask != 0 {
                    let ghost sc1 = mask_list(scanned);
                    let ghost tm = text_masks@;
                    proof {
                        assert(child_index == old_len);
                        assert(sc1[child_index as int] == 0u64);
                    }
                    let ans = visitor.on_variant(
                        variant_str(&text_masks[child_index]),
                        child_index,
                        mask,
                        is_ascii,
                    );
                    proof {
                        lemma_mask_bits(mask, 0, 0, 0);
                        assert forall|b: u64| b < 64 && #[trigger] bit_set(mask, b) implies !bit_set(
                            sc1[child_index as int],
                            b,
                        ) by {
                            lemma_mask_bits(0, 0, 0, b);
                        }
                        assert forall|b: u64| b < 64 implies (#[trigger] bit_set(mask, b) <==> bit_set(
                            sc1[child_index as int],
                            b,
                        ) || bit_set(mask, b)) by {
                            lemma_mask_bits(0, 0, 0, b);
                        }
                        lemma_scan_call(
                            calls,
                            tm,
                            sc1,
                            sc1.update(child_index as int, mask),
                            child_index as int,
                            mask,
                            mask,
                            ans,
                        );
                        assert forall|k: int| 0 <= k < calls.len() implies (#[trigger] calls[k]).1 < child_index by {
                            assert(calls_fit(calls, tm0));
                        }
                        lemma_push_ascending(calls, (tm[child_index as int].text@, child_index, mask, is_ascii, ans));
                        calls = calls.push((tm[child_index as int].text@, child_index, mask, is_ascii, ans));
                        lemma_one_run(calls);
                        assert(visitor.shown() =~= s0 + calls);
                        lemma_record(s0, calls, visitor.shown());
                    }
                    if ans {
                        return (text_masks, true);
                    }
                    masks_set(&mut scanned, child_index, mask);
                }
            }
            k += 1;
        }
        proof {
            assert(tree[n].children@.take(nchildren as int) =~= tree[n].children@);
            assert forall|m: int| 0 <= m < tree.len() && #[trigger] assigned(tree, n + 1, 0, m)
                implies assigned(tree, n, nchildren as int, m) by {
                if m != 0 && tree[m].parent@ == n {
                    assert(node_linked(tree, m));
                }
            }
        }
        current_node_index += 1;
    }
    proof {
        assert forall|m: int| 0 <= m < tree.len() implies exists|j: int|
            0 <= j < text_masks@.len() && #[trigger] text_masks@[j].text@ == #[trigger] node_text(
                registry,
                tree,
                m,
                text@,
            ) && mask_contains(text_masks@[j].mask, tree[m].folded_mask) by {
            if m != 0 {
                assert(node_linked(tree, m));
            }
            assert(assigned(tree, tree.len() as int, 0, m));
            let j = tree_node_indices@[m] as int;
            assert(text_masks@[j].text@ == node_text(registry, tree, m, text@));
        }
    }
    let ghost p0 = calls.len() as int;
    proof {
        lemma_one_run(calls);
    }
    if lazy {
        let mut i: usize = 0;
        while i < text_masks.len()
            invariant
                lazy,
                tree == process_type_tree@,
                walk_result(registry, tree, text, text_masks@),
                visitor.shown() == s0 + calls,
                s0 == old(visitor).shown(),
                scan_state(calls, text_masks@, mask_list(scanned)),
                two_runs(calls, p0),
                forall|k: int| p0 <= k < calls.len() ==> (#[trigger] calls[k]).1 < i,
                i <= text_masks@.len(),
                forall|j: int, b: u64|
                    0 <= j < i && b < 64 && #[trigger] bit_set(text_masks@[j].mask, b) ==> bit_set(
                        mask_list(scanned)[j],
                        b,
                    ),
            decreases text_masks@.len() - i,
        {
            let m = text_masks[i].mask;
            let sv = masks_get(&scanned, i);
            let delta = m & !sv;
            let ghost sc0 = mask_list(scanned);
            let ghost tm = text_masks@;
            if delta != 0 {
                let ans = visitor.on_variant(
                    variant_str(&text_masks[i]),
                    i,
                    delta,
                    text_masks[i].is_ascii,
                );
                proof {
                    lemma_delta_bits(m, sv, 0, 0);
                    assert forall|b: u64| b < 64 && #[trigger] bit_set(delta, b) implies !bit_set(sc0[i as int], b) by {
                        lemma_delta_bits(m, sv, 0, b);
                    }
                    assert forall|b: u64| b < 64 implies (#[trigger] bit_set(m, b) <==> bit_set(sc0[i as int], b)
                        || bit_set(delta, b)) by {
                        lemma_delta_bits(m, sv, 0, b);
                    }
                    lemma_scan_call(calls, tm, sc0, sc0.update(i as int, m), i as int, delta, m, ans);
                    let rec = (tm[i as int].text@, i, delta, tm[i as int].is_ascii, ans);
                    assert forall|k: int| 0 <= k < calls.skip(p0).len() implies (#[trigger] calls.skip(p0)[k]).1 < i by {
                        assert(calls.skip(p0)[k] == calls[p0 + k]);
                    }
                    lemma_push_ascending(calls.skip(p0), rec);
                    assert(calls.push(rec).skip(p0) =~= calls.skip(p0).push(rec));
                    assert(calls.push(rec).take(p0) =~= calls.take(p0));
                    calls = calls.push(rec);
                    assert(two_runs(calls, p0));
                    assert(visitor.shown() =~= s0 + calls);
                    lemma_record(s0, calls, visitor.shown());
                }
                if ans {
                    return (text_masks, true);
                }
                masks_set(&mut scanned, i, m);
                proof {
                    assert forall|j: int, b: u64|
                        0 <= j < i + 1 && b < 64 && #[trigger] bit_set(text_masks@[j].mask, b) implies bit_set(
                            mask_list(scanned)[j],
                            b,
                        ) by {
                        if j < i {
                            assert(mask_list(scanned)[j] == sc0[j]);
                        }
                    }
                }
            } else {
                proof {
                    assert forall|j: int, b: u64|
                        0 <= j < i + 1 && b < 64 && #[trigger] bit_set(text_masks@[j].mask, b) implies bit_set(
                            mask_list(scanned)[j],
                            b,
                        ) by {
                        if j == i {
                            lemma_delta_bits(m, sv, 0, b);
                            lemma_mask_bits(0, 0, 0, b);
                        }
                    }
                }
            }
            i += 1;
        }
        proof {
            assert forall|j: int, b: u64|
                0 <= j < text_masks@.len() && b < 64 && #[trigger] bit_set(text_masks@[j].mask, b)
                    implies exists|k: int|
                0 <= k < calls.len() && calls[k].1 == j && #[trigger] bit_set(calls[k].2, b) by {
                assert(bit_set(mask_list(scanned)[j], b));
            }
        }
    }
    proof {
        lemma_record(s0, calls, visitor.shown());
    }
    (text_masks, false)
}


/// Walks the trie over `text`: visits the nodes in index order, applies each
/// child's step to its parent's text once, and keeps one variant per distinct
/// text, whose mask collects the masks of the nodes that produce it. The
/// first variant is `text` itself, borrowed.
pub fn walk_process_tree<'a>(
    registry: &TransformRegistry,
    process_type_tree: &Vec<ProcessTypeBitNode>,
    text: &'a str,
) -> (r: Vec<TextVariant<'a>>)
    requires
        tree_wf(process_type_tree@),
    ensures
        walk_result(registry, process_type_tree@, text, r@),
{
    let mut none = VariantLog { seen: Vec::new(), stop_at: None };
    let (r, _) = walk_with(registry, process_type_tree, text, &mut none, false);
    r
}

/// Walks the trie as [`walk_process_tree`] does, showing `visitor` each new
/// variant with a non-empty mask as soon as it is made and, once the walk
/// is done, each variant whose mask grew afterwards with the added bits;
/// the walk stops as soon as the visitor returns `true`. Returns the
/// variants made so far and whether the visitor stopped the walk; when it
/// did not, the variants are the full walk's and every bit of every mask
/// was shown. Each call shows a variant of the result by its index, text
/// and ASCII flag, with bits of its mask that no earlier call showed; the
/// calls come in two runs of ascending indices, the new variants and then
/// the grown ones. The walk stops only on a `true` answer, which is the
/// last call, and so never stops while every mask is empty.
pub fn walk_process_tree_lazy<'a, V: VariantVisitor>(
    registry: &TransformRegistry,
    process_type_tree: &Vec<ProcessTypeBitNode>,
    text: &'a str,
    visitor: &mut V,
) -> (r: (Vec<TextVariant<'a>>, bool))
    requires
        tree_wf(process_type_tree@),
    ensures
        walk_partial(registry, process_type_tree@, text, r.0@),
        !r.1 ==> walk_result(registry, process_type_tree@, text, r.0@),
        old(visitor).shown().is_prefix_of(final(visitor).shown()),
        calls_fit(calls_since(old(visitor).shown(), final(visitor).shown()), r.0@),
        answers_fit(calls_since(old(visitor).shown(), final(visitor).shown()), r.1),
        !r.1 ==> calls_cover(calls_since(old(visitor).shown(), final(visitor).shown()), r.0@),
        r.1 ==> exists|j: int| 0 <= j < r.0@.len() && (#[trigger] r.0@[j]).mask != 0,
        exists|p: int| #[trigger] two_runs(calls_since(old(visitor).shown(), final(visitor).shown()), p),
{
    let ghost s0 = visitor.shown();
    let r = walk_with(registry, process_type_tree, text, visitor, true);
    proof {
        let c = calls_since(s0, visitor.shown());
        if r.1 {
            let k = c.len() - 1;
            let j = c[k].1 as int;
            lemma_delta_bits(r.0@[j].mask, 0, c[k].2, 0);
            assert(r.0@[j].mask != 0);
        }
    }
    r
}

} // verus!
