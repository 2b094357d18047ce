//! The transformation trie.
//!
//! The trie is a flat array in which each node stands for one single-bit step.
//! [`build_process_type_tree`] builds it from a set of composite
//! [`ProcessType`] values, sharing common prefixes so that an intermediate
//! result is computed once; [`walk_process_tree`] runs the steps over a text
//! and collects every distinct text variant.
//!
//! Given the set `{VariantNorm, VariantNorm|Delete, VariantNorm|Delete|Normalize}`:
//!
//! ```text
//!   [0] root (Raw)
//!    └─[1] VariantNorm          ← ends here: {VariantNorm}
//!       └─[2] Delete            ← ends here: {VariantNorm|Delete}
//!          └─[3] Normalize      ← ends here: {VariantNorm|Delete|Normalize}
//! ```
//!
//! Each node records the types whose path ends at it, and its mask carries
//! their bits, so a walk tags each text with the pipelines that make it.
use vstd::prelude::*;

use crate::process_type::{
    has_bit, lemma_single_bits_sorted, single_bits, single_bits_below, ProcessType,
};
use crate::step::is_step_bit;

verus! {

/// The bit that `pt` sets in a node's mask: bit `pt.bits() % 64`, the
/// position that a shift by the raw bits selects.
pub open spec fn type_mask_bit(pt: ProcessType) -> u64 {
    1u64 << ((pt.spec_bits() % 64) as u64)
}

/// The union of the mask bits of `types`.
pub open spec fn mask_of_types(types: Seq<ProcessType>) -> u64
    decreases types.len(),
{
    if types.len() == 0 {
        0
    } else {
        mask_of_types(types.drop_last()) | type_mask_bit(types.last())
    }
}

/// `bits` without a leading `Raw` step, which the root stands for.
pub open spec fn strip_raw(bits: Seq<u8>) -> Seq<u8> {
    if bits.len() > 0 && bits[0] == 0x01 {
        bits.drop_first()
    } else {
        bits
    }
}

/// The trie path of a composite type: its single-bit steps after `Raw`.
pub open spec fn steps_of(pt: ProcessType) -> Seq<u8> {
    strip_raw(single_bits(pt.spec_bits()))
}

/// A node of the flat-array trie.
pub struct ProcessTypeBitNode {
    /// The composite types whose step path ends at this node.
    pub process_type_list: Vec<ProcessType>,
    /// The single-bit step on the edge from the parent (`Raw` at the root).
    pub process_type_bit: ProcessType,
    /// Indices of the child nodes.
    pub children: Vec<usize>,
    /// The union of the mask bits of the types whose path ends at this node.
    pub folded_mask: u64,
    /// Index of the parent node.
    pub parent: Ghost<int>,
    /// The steps on the way from the root to this node.
    pub path: Ghost<Seq<u8>>,
}

/// The union of the bits `table[t.bits()]` over the types `types`.
pub open spec fn index_mask(types: Seq<ProcessType>, table: Seq<u8>) -> u64
    decreases types.len(),
{
    if types.len() == 0 {
        0
    } else {
        index_mask(types.drop_last(), table) | (1u64 << (table[types.last().spec_bits() as int] as u64))
    }
}

impl ProcessTypeBitNode {
    /// The composite types whose step path ends at this node.
    pub open spec fn types(&self) -> Seq<ProcessType> {
        self.process_type_list@
    }

    /// Re-encodes the mask through a sequential index table: each type sets
    /// bit `pt_index_table[pt.bits()]` instead of bit `pt.bits()`, which keeps
    /// the bit positions small.
    pub fn recompute_mask_with_index(&mut self, pt_index_table: &[u8; 64])
        requires
            forall|i: int|
                0 <= i < old(self).types().len() ==> #[trigger] old(self).types()[i].spec_bits() < 64
                    && pt_index_table@[old(self).types()[i].spec_bits() as int] < 64,
        ensures
            final(self).folded_mask == index_mask(old(self).types(), pt_index_table@),
            final(self).process_type_list == old(self).process_type_list,
            final(self).process_type_bit == old(self).process_type_bit,
            final(self).children == old(self).children,
            final(self).parent == old(self).parent,
            final(self).path == old(self).path,
    {
        let mut acc: u64 = 0;
        let mut i: usize = 0;
        let ghost types = self.types();
        while i < self.process_type_list.len()
            invariant
                types == self.types(),
                i <= types.len(),
                forall|j: int|
                    0 <= j < types.len() ==> #[trigger] types[j].spec_bits() < 64
                        && pt_index_table@[types[j].spec_bits() as int] < 64,
                acc == index_mask(types.take(i as int), pt_index_table@),
            decreases types.len() - i,
        {
            let pt = self.process_type_list[i];
            let slot = pt_index_table[pt.bits() as usize];
            acc = acc | (1u64 << (slot as u64));
            proof {
                assert(types.take(i + 1).drop_last() =~= types.take(i as int));
                assert(types.take(i + 1).last() == types[i as int]);
            }
            i += 1;
        }
        proof {
            assert(types.take(types.len() as int) =~= types);
        }
        self.folded_mask = acc;
    }
}

/// Node `n` hangs under its parent, one step further down.
pub open spec fn node_linked(nodes: Seq<ProcessTypeBitNode>, n: int) -> bool {
    let p = nodes[n].parent@;
    let bit = nodes[n].process_type_bit.spec_bits();
    &&& 0 <= p < n
    &&& nodes[p].children@.contains(n as usize)
    &&& nodes[n].path@ == nodes[p].path@.push(bit)
    &&& is_step_bit(bit)
    &&& bit != 0x01
}

/// `c`, a child of node `n`, comes after it and names it as parent.
pub open spec fn child_ok(nodes: Seq<ProcessTypeBitNode>, n: int, c: usize) -> bool {
    &&& n < c < nodes.len()
    &&& nodes[c as int].parent@ == n
}

/// The shape of a trie: a root with the `Raw` bit and an empty path, and
/// every other node linked under an earlier one.
pub open spec fn tree_wf(nodes: Seq<ProcessTypeBitNode>) -> bool {
    &&& 1 <= nodes.len() <= usize::MAX
    &&& nodes[0].process_type_bit.spec_bits() == 0x01
    &&& nodes[0].path@ == Seq::<u8>::empty()
    &&& forall|n: int| 0 < n < nodes.len() ==> #[trigger] node_linked(nodes, n)
    &&& forall|n: int, k: int|
        0 <= n < nodes.len() && 0 <= k < nodes[n].children@.len() ==> #[trigger] child_ok(
            nodes,
            n,
            nodes[n].children@[k],
        )
}

/// No two nodes share a path: every prefix is computed once.
pub open spec fn paths_distinct(nodes: Seq<ProcessTypeBitNode>) -> bool {
    forall|a: int, b: int|
        0 <= a < b < nodes.len() ==> #[trigger] nodes[a].path@ != #[trigger] nodes[b].path@
}

/// The trie built from `set`: the root records `Raw` when `set` holds it,
/// every other node records exactly the types of `set` whose step path ends
/// there, every type's full path is a node, every node other than the root
/// lies on the path of some type, and no node lists a child twice.
pub open spec fn tree_of(nodes: Seq<ProcessTypeBitNode>, set: Seq<ProcessType>) -> bool {
    &&& tree_wf(nodes)
    &&& paths_distinct(nodes)
    &&& children_distinct(nodes)
    &&& masks_folded(nodes)
    &&& root_records(nodes, set)
    &&& records_so_far(nodes, set)
    &&& covers(nodes, set)
    &&& no_junk(nodes, set, Seq::<u8>::empty())
}

/// No node lists the same child twice.
pub open spec fn children_distinct(nodes: Seq<ProcessTypeBitNode>) -> bool {
    forall|n: int, i: int, j: int|
        0 <= n < nodes.len() && 0 <= i < j < nodes[n].children@.len() ==> #[trigger] nodes[n].children@[i]
            != #[trigger] nodes[n].children@[j]
}

/// Whether `path` starts the path of some type of `set`.
pub open spec fn on_some_path(path: Seq<u8>, set: Seq<ProcessType>) -> bool {
    exists|t: ProcessType| #[trigger] set.contains(t) && path.is_prefix_of(steps_of(t))
}

/// Each node's mask is the union of the mask bits of its types.
pub open spec fn masks_folded(nodes: Seq<ProcessTypeBitNode>) -> bool {
    forall|n: int|
        0 <= n < nodes.len() ==> #[trigger] nodes[n].folded_mask == mask_of_types(nodes[n].types())
}

/// The root records exactly the `Raw` types of `set`.
pub open spec fn root_records(tree: Seq<ProcessTypeBitNode>, set: Seq<ProcessType>) -> bool {
    forall|t: ProcessType|
        #[trigger] tree[0].types().contains(t) <==> (set.contains(t) && t.spec_bits() == 0x01)
}

/// Every other node records exactly the types of `done` whose step path
/// ends at it.
pub open spec fn records_so_far(tree: Seq<ProcessTypeBitNode>, done: Seq<ProcessType>) -> bool {
    forall|n: int, t: ProcessType|
        0 < n < tree.len() ==> (#[trigger] tree[n].types().contains(t) <==> done.contains(t)
            && tree[n].path@ == steps_of(t))
}

/// Some node has path `p`.
pub open spec fn has_node(tree: Seq<ProcessTypeBitNode>, p: Seq<u8>) -> bool {
    exists|n: int| 0 <= n < tree.len() && #[trigger] tree[n].path@ == p
}

/// The full path of every type of `done` is a node.
pub open spec fn covers(tree: Seq<ProcessTypeBitNode>, done: Seq<ProcessType>) -> bool {
    forall|t: ProcessType| #[trigger] done.contains(t) ==> has_node(tree, steps_of(t))
}

/// Every node other than the root starts the path of a type of `done`, or
/// starts `extra`.
pub open spec fn no_junk(tree: Seq<ProcessTypeBitNode>, done: Seq<ProcessType>, extra: Seq<u8>) -> bool {
    forall|n: int|
        0 < n < tree.len() ==> #[trigger] on_some_path(tree[n].path@, done)
            || tree[n].path@.is_prefix_of(extra)
}

/// Every prefix of a node's path is the path of one of its ancestors.
proof fn lemma_ancestor_paths(tree: Seq<ProcessTypeBitNode>, n: int, l: int)
    requires
        tree_wf(tree),
        0 <= n < tree.len(),
        0 <= l <= tree[n].path@.len(),
    ensures
        has_node(tree, tree[n].path@.take(l)),
    decreases n,
{
    if l == tree[n].path@.len() {
        assert(tree[n].path@.take(l) =~= tree[n].path@);
    } else if n == 0 {
    } else {
        assert(node_linked(tree, n));
        let p = tree[n].parent@;
        assert(tree[n].path@.take(l) =~= tree[p].path@.take(l));
        lemma_ancestor_paths(tree, p, l);
    }
}

/// Appending a step other than a leading `Raw` extends the stripped path.
proof fn lemma_strip_raw_push(s: Seq<u8>, x: u8)
    requires
        s.len() > 0 || x != 0x01,
    ensures
        strip_raw(s.push(x)) == strip_raw(s).push(x),
{
    if s.len() > 0 && s[0] == 0x01 {
        assert(s.push(x).drop_first() =~= s.drop_first().push(x));
    }
}

/// Whether `set` holds the `Raw` type.
fn contains_raw(set: &Vec<ProcessType>) -> (r: bool)
    ensures
        r == exists|t: ProcessType| #[trigger] set@.contains(t) && t.spec_bits() == 0x01,
{
    let mut i: usize = 0;
    while i < set.len()
        invariant
            i <= set@.len(),
            forall|j: int| 0 <= j < i ==> #[trigger] set@[j].spec_bits() != 0x01,
        decreases set@.len() - i,
    {
        if set[i].bits() == 0x01 {
            assert(set@.contains(set@[i as int]));
            return true;
        }
        i += 1;
    }
    proof {
        assert forall|t: ProcessType| #[trigger] set@.contains(t) implies t.spec_bits() != 0x01 by {
            let j = choose|j: int| 0 <= j < set@.len() && set@[j] == t;
        }
    }
    false
}

/// Every node other than the root has a non-empty path.
proof fn lemma_nonroot_paths_nonempty(tree: Seq<ProcessTypeBitNode>)
    requires
        tree_wf(tree),
    ensures
        forall|n: int| 0 < n < tree.len() ==> (#[trigger] tree[n].path@).len() > 0,
{
    assert forall|n: int| 0 < n < tree.len() implies (#[trigger] tree[n].path@).len() > 0 by {
        assert(node_linked(tree, n));
    }
}

/// Appending a new child of node `p` with step `b`, which no child of `p`
/// has yet, with no types recorded, keeps the building invariants.
proof fn lemma_new_step(
    old: Seq<ProcessTypeBitNode>,
    new: Seq<ProcessTypeBitNode>,
    p: int,
    set: Seq<ProcessType>,
    done: Seq<ProcessType>,
    extra: Seq<u8>,
)
    requires
        tree_wf(old),
        paths_distinct(old),
        children_distinct(old),
        masks_folded(old),
        root_records(old, set),
        records_so_far(old, done),
        covers(old, done),
        no_junk(old, done, extra),
        0 <= p < old.len(),
        new.len() == old.len() + 1,
        new.len() <= usize::MAX,
        forall|n: int| 0 <= n < old.len() && n != p ==> new[n] == old[n],
        new[p].children@ == old[p].children@.push(old.len() as usize),
        new[p].process_type_list == old[p].process_type_list,
        new[p].process_type_bit == old[p].process_type_bit,
        new[p].folded_mask == old[p].folded_mask,
        new[p].parent == old[p].parent,
        new[p].path == old[p].path,
        ({
            let c = new[old.len() as int];
            let b = c.process_type_bit.spec_bits();
            &&& c.types() == Seq::<ProcessType>::empty()
            &&& c.folded_mask == 0
            &&& c.children@ == Seq::<usize>::empty()
            &&& c.parent@ == p
            &&& c.path@ == old[p].path@.push(b)
            &&& is_step_bit(b)
            &&& b != 0x01
            &&& forall|k: int|
                0 <= k < old[p].children@.len() ==> old[old[p].children@[k] as int].process_type_bit
                    != c.process_type_bit
            &&& c.path@.is_prefix_of(extra)
        }),
    ensures
        tree_wf(new),
        paths_distinct(new),
        children_distinct(new),
        masks_folded(new),
        root_records(new, set),
        records_so_far(new, done),
        covers(new, done),
        no_junk(new, done, extra),
{
    let idx = old.len() as int;
    let c = new[idx];
    let b = c.process_type_bit.spec_bits();
    assert forall|n: int| 0 <= n < old.len() implies #[trigger] new[n].path@ == old[n].path@ by {
        if n != p {
            assert(new[n] == old[n]);
        }
    }
    // The new path is no old node's path.
    assert forall|m: int| 0 <= m < old.len() implies #[trigger] old[m].path@ != c.path@ by {
        if old[m].path@ == c.path@ {
            assert(old[m].path@.len() > 0);
            assert(m != 0);
            assert(node_linked(old, m));
            let q = old[m].parent@;
            assert(old[m].path@.drop_last() =~= old[q].path@);
            assert(c.path@.drop_last() =~= old[p].path@);
            assert(old[q].path@ == old[p].path@);
            if q < p {
                assert(old[q].path@ != old[p].path@);
            } else if p < q {
                assert(old[p].path@ != old[q].path@);
            }
            assert(q == p);
            assert(old[p].children@.contains(m as usize));
            let k = choose|k: int| 0 <= k < old[p].children@.len() && old[p].children@[k] == m as usize;
            assert(old[m].process_type_bit.spec_bits() == old[m].path@.last());
            assert(old[m].process_type_bit.spec_bits() == b);
            ProcessType::lemma_bits_eq(old[m].process_type_bit, c.process_type_bit);
            assert(old[old[p].children@[k] as int].process_type_bit != c.process_type_bit);
        }
    }
    assert forall|x: int, y: int| 0 <= x < y < new.len() implies #[trigger] new[x].path@
        != #[trigger] new[y].path@ by {
        if y < old.len() {
        } else {
            assert(new[y].path@ == c.path@);
            assert(old[x].path@ != c.path@);
        }
    }
    assert forall|n: int| 0 < n < new.len() implies #[trigger] node_linked(new, n) by {
        if n < idx {
            assert(node_linked(old, n));
            let q = old[n].parent@;
            if n != p {
                assert(new[n] == old[n]);
            }
            if q != p {
                assert(new[q] == old[q]);
            } else {
                let k = choose|k: int| 0 <= k < old[p].children@.len() && old[p].children@[k] == n as usize;
                assert(new[p].children@[k] == n as usize);
            }
        } else {
            assert(new[p].children@[old[p].children@.len() as int] == idx as usize);
        }
    }
    assert forall|n: int, k: int|
        0 <= n < new.len() && 0 <= k < new[n].children@.len() implies #[trigger] child_ok(
        new,
        n,
        new[n].children@[k],
    ) by {
        if n == idx {
            assert(new[n].children@.len() == 0);
        } else if n == p && k == old[p].children@.len() {
            assert(new[p].children@[k] == idx as usize);
            assert(new[idx].parent@ == p);
        } else {
            if n != p {
                assert(new[n] == old[n]);
            }
            assert(new[n].children@[k] == old[n].children@[k]);
            assert(child_ok(old, n, old[n].children@[k]));
            let ch = old[n].children@[k] as int;
            if ch != p {
                assert(new[ch] == old[ch]);
            } else {
                assert(new[p].parent@ == old[p].parent@);
            }
            assert(child_ok(new, n, new[n].children@[k]));
        }
    }
    assert forall|n: int, i: int, j: int|
        0 <= n < new.len() && 0 <= i < j < new[n].children@.len() implies #[trigger] new[n].children@[i]
        != #[trigger] new[n].children@[j] by {
        if n == idx {
        } else if n == p {
            assert(new[p].children@[i] == old[p].children@[i]);
            assert(child_ok(old, p, old[p].children@[i]));
            if j < old[p].children@.len() {
                assert(new[p].children@[j] == old[p].children@[j]);
                assert(old[p].children@[i] != old[p].children@[j]);
            } else {
                assert(new[p].children@[j] == idx as usize);
            }
        } else {
            assert(new[n] == old[n]);
            assert(old[n].children@[i] != old[n].children@[j]);
        }
    }
    assert forall|n: int| 0 <= n < new.len() implies #[trigger] new[n].folded_mask
        == mask_of_types(new[n].types()) by {
        if n < idx && n != p {
            assert(new[n] == old[n]);
        }
        if n == idx {
            assert(mask_of_types(Seq::<ProcessType>::empty()) == 0u64);
        }
    }
    assert(new[0].types() == old[0].types()) by {
        if p != 0 {
            assert(new[0] == old[0]);
        }
    }
    assert forall|n: int, t: ProcessType| 0 < n < new.len() implies (#[trigger] new[n].types().contains(
        t,
    ) <==> done.contains(t) && new[n].path@ == steps_of(t)) by {
        if n == idx {
            if done.contains(t) && c.path@ == steps_of(t) {
                let w = choose|w: int| 0 <= w < old.len() && #[trigger] old[w].path@ == steps_of(t);
                assert(old[w].path@ != c.path@);
            }
        } else {
            if n != p {
                assert(new[n] == old[n]);
            }
            assert(new[n].types() == old[n].types());
        }
    }
    assert forall|t: ProcessType| #[trigger] done.contains(t) implies has_node(new, steps_of(t)) by {
        let n = choose|n: int| 0 <= n < old.len() && #[trigger] old[n].path@ == steps_of(t);
        assert(new[n].path@ == steps_of(t));
    }
    assert forall|n: int| 0 < n < new.len() implies #[trigger] on_some_path(new[n].path@, done)
        || new[n].path@.is_prefix_of(extra) by {
        if n < idx {
            assert(on_some_path(old[n].path@, done) || old[n].path@.is_prefix_of(extra));
        }
    }
}

/// Once `pt` has reached the node of its full path, recording it there (at
/// a node other than the root; the root keeps its `Raw` record) makes it one
/// of the processed types.
proof fn lemma_finish_type(
    old: Seq<ProcessTypeBitNode>,
    new: Seq<ProcessTypeBitNode>,
    cur: int,
    pt: ProcessType,
    set: Seq<ProcessType>,
    si: int,
)
    requires
        0 <= si < set.len(),
        pt == set[si],
        tree_wf(old),
        paths_distinct(old),
        children_distinct(old),
        masks_folded(old),
        root_records(old, set),
        0 <= cur < old.len(),
        old[cur].path@ == steps_of(pt),
        records_so_far(old, set.take(si)),
        covers(old, set.take(si)),
        no_junk(old, set.take(si), steps_of(pt)),
        new.len() == old.len(),
        cur == 0 ==> new == old,
        cur != 0 ==> {
            &&& forall|n: int| 0 <= n < old.len() && n != cur ==> new[n] == old[n]
            &&& new[cur].types() == old[cur].types().push(pt)
            &&& new[cur].folded_mask == mask_of_types(new[cur].types())
            &&& new[cur].process_type_bit == old[cur].process_type_bit
            &&& new[cur].children == old[cur].children
            &&& new[cur].parent == old[cur].parent
            &&& new[cur].path == old[cur].path
        },
    ensures
        tree_wf(new),
        paths_distinct(new),
        children_distinct(new),
        masks_folded(new),
        root_records(new, set),
        records_so_far(new, set.take(si + 1)),
        covers(new, set.take(si + 1)),
        no_junk(new, set.take(si + 1), Seq::<u8>::empty()),
{
    let done = set.take(si);
    let next = set.take(si + 1);
    assert(next =~= done.push(pt));
    assert forall|t: ProcessType| next.contains(t) <==> done.contains(t) || t == pt by {
        if next.contains(t) {
            let j = choose|j: int| 0 <= j < next.len() && next[j] == t;
            if j < done.len() {
                assert(done[j] == t);
            }
        }
        if done.contains(t) {
            let j = choose|j: int| 0 <= j < done.len() && done[j] == t;
            assert(next[j] == t);
        }
        if t == pt {
            assert(next[si] == t);
        }
    }
    lemma_nonroot_paths_nonempty(old);
    if cur != 0 {
        assert forall|n: int| 0 <= n < new.len() implies #[trigger] new[n].path@ == old[n].path@
            && new[n].children == old[n].children && new[n].parent == old[n].parent
            && new[n].process_type_bit == old[n].process_type_bit by {
            if n != cur {
                assert(new[n] == old[n]);
            }
        }
        assert forall|n: int| 0 < n < new.len() implies #[trigger] node_linked(new, n) by {
            assert(node_linked(old, n));
        }
        assert forall|n: int, k: int|
            0 <= n < new.len() && 0 <= k < new[n].children@.len() implies #[trigger] child_ok(
            new,
            n,
            new[n].children@[k],
        ) by {
            assert(child_ok(old, n, old[n].children@[k]));
        }
        assert forall|n: int, i: int, j: int|
            0 <= n < new.len() && 0 <= i < j < new[n].children@.len() implies #[trigger] new[n].children@[i]
            != #[trigger] new[n].children@[j] by {
            assert(old[n].children@[i] != old[n].children@[j]);
        }
        assert forall|x: int, y: int| 0 <= x < y < new.len() implies #[trigger] new[x].path@
            != #[trigger] new[y].path@ by {
            assert(old[x].path@ != old[y].path@);
        }
        assert forall|n: int| 0 <= n < new.len() implies #[trigger] new[n].folded_mask
            == mask_of_types(new[n].types()) by {
            if n != cur {
                assert(new[n] == old[n]);
            }
        }
        assert(new[0] == old[0]);
        assert forall|n: int, t: ProcessType| 0 < n < new.len() implies (#[trigger] new[n].types().contains(
            t,
        ) <==> next.contains(t) && new[n].path@ == steps_of(t)) by {
            if n != cur {
                assert(new[n] == old[n]);
                if t == pt && new[n].path@ == steps_of(t) {
                    if n < cur {
                        assert(old[n].path@ != old[cur].path@);
                    } else {
                        assert(old[cur].path@ != old[n].path@);
                    }
                }
            } else {
                assert(new[cur].types().contains(t) <==> old[cur].types().contains(t) || t == pt) by {
                    if new[cur].types().contains(t) {
                        let j = choose|j: int| 0 <= j < new[cur].types().len() && new[cur].types()[j] == t;
                        if j < old[cur].types().len() {
                            assert(old[cur].types()[j] == t);
                        }
                    }
                    if old[cur].types().contains(t) {
                        let j = choose|j: int| 0 <= j < old[cur].types().len() && old[cur].types()[j] == t;
                        assert(new[cur].types()[j] == t);
                    }
                    if t == pt {
                        assert(new[cur].types()[old[cur].types().len() as int] == t);
                    }
                }
            }
        }
    } else {
        assert forall|n: int, t: ProcessType| 0 < n < new.len() implies (#[trigger] new[n].types().contains(
            t,
        ) <==> next.contains(t) && new[n].path@ == steps_of(t)) by {
            if t == pt {
                assert(new[n].path@.len() > 0);
            }
        }
    }
    assert forall|n: int| 0 <= n < new.len() implies #[trigger] new[n].path@ == old[n].path@ by {
        if cur != 0 && n != cur {
            assert(new[n] == old[n]);
        }
    }
    assert forall|t: ProcessType| #[trigger] next.contains(t) implies has_node(new, steps_of(t)) by {
        if done.contains(t) {
            let n = choose|n: int| 0 <= n < old.len() && #[trigger] old[n].path@ == steps_of(t);
            assert(new[n].path@ == steps_of(t));
        } else {
            assert(new[cur].path@ == steps_of(t));
        }
    }
    assert forall|n: int| 0 < n < new.len() implies #[trigger] on_some_path(new[n].path@, next)
        || new[n].path@.is_prefix_of(Seq::<u8>::empty()) by {
        assert(new[n].path@ == old[n].path@);
        if on_some_path(old[n].path@, done) {
            let t = choose|t: ProcessType| #[trigger] done.contains(t) && old[n].path@.is_prefix_of(
                steps_of(t),
            );
            assert(next.contains(t));
        } else {
            assert(next.contains(pt));
        }
    }
}

/// A stripped prefix of a step list starts the stripped list.
proof fn lemma_strip_raw_take(s: Seq<u8>, i: int)
    requires
        0 <= i <= s.len(),
    ensures
        strip_raw(s.take(i)).is_prefix_of(strip_raw(s)),
{
    if i > 0 && s[0] == 0x01 {
        assert(s.take(i)[0] == s[0]);
        assert(strip_raw(s.take(i)) =~= strip_raw(s).subrange(0, i - 1));
    } else if i == 0 {
        assert(strip_raw(s.take(i)) =~= strip_raw(s).subrange(0, 0));
    } else {
        assert(s.take(i)[0] == s[0]);
        assert(strip_raw(s.take(i)) =~= strip_raw(s).subrange(0, i));
    }
}

/// The mask bit of `pt`.
fn mask_bit(pt: ProcessType) -> (r: u64)
    ensures
        r == type_mask_bit(pt),
{
    let shift = (pt.bits() % 64) as u64;
    1u64 << shift
}

/// Builds the flat-array trie of `process_type_set`. The root (index 0, bit
/// `Raw`) is always present and records `Raw` when the set holds it; each
/// type then walks its single-bit steps in ascending order, reusing the child
/// with the same step where one exists and appending a new node otherwise,
/// and is recorded at the node where its path ends.
pub fn build_process_type_tree(process_type_set: &Vec<ProcessType>) -> (r: Vec<ProcessTypeBitNode>)
    requires
        forall|i: int|
            0 <= i < process_type_set@.len() ==> #[trigger] process_type_set@[i].spec_bits() < 0x80,
    ensures
        tree_of(r@, process_type_set@),
{
    let ghost set = process_type_set@;
    let mut tree: Vec<ProcessTypeBitNode> = Vec::new();
    let mut root = ProcessTypeBitNode {
        process_type_list: Vec::new(),
        process_type_bit: ProcessType::Raw(),
        children: Vec::new(),
        folded_mask: 0,
        parent: Ghost(0),
        path: Ghost(Seq::empty()),
    };
    if contains_raw(process_type_set) {
        let raw = ProcessType::Raw();
        root.process_type_list.push(raw);
        root.folded_mask = root.folded_mask | mask_bit(raw);
        proof {
            assert(root.types().drop_last() =~= Seq::<ProcessType>::empty());
            assert(root.types() =~= seq![raw]);
            assert(mask_of_types(Seq::<ProcessType>::empty()) == 0u64);
            assert forall|t: ProcessType| root.types().contains(t) <==> (set.contains(t)
                && t.spec_bits() == 0x01) by {
                if root.types().contains(t) {
                    let j = choose|j: int| 0 <= j < root.types().len() && root.types()[j] == t;
                    assert(t == raw);
                    let w = choose|w: ProcessType| #[trigger] set.contains(w) && w.spec_bits() == 0x01;
                    ProcessType::lemma_bits_eq(w, raw);
                }
                if set.contains(t) && t.spec_bits() == 0x01 {
                    ProcessType::lemma_bits_eq(t, raw);
                    assert(root.types()[0] == t);
                }
            }
        }
    } else {
        proof {
            assert(root.types() =~= Seq::<ProcessType>::empty());
        }
    }
    tree.push(root);
    proof {
        assert(set.take(0) =~= Seq::<ProcessType>::empty());
        assert(tree@[0] == root);
        assert(root.folded_mask == mask_of_types(root.types()));
        assert(root.children@.len() == 0);
        assert(tree_wf(tree@));
        assert(masks_folded(tree@));
    }
    let mut si: usize = 0;
    while si < process_type_set.len()
        invariant
            set == process_type_set@,
            forall|i: int| 0 <= i < set.len() ==> #[trigger] set[i].spec_bits() < 0x80,
            si <= set.len(),
            tree_wf(tree@),
            paths_distinct(tree@),
            children_distinct(tree@),
            masks_folded(tree@),
            root_records(tree@, set),
            records_so_far(tree@, set.take(si as int)),
            covers(tree@, set.take(si as int)),
            no_junk(tree@, set.take(si as int), Seq::<u8>::empty()),
        decreases set.len() - si,
    {
        let pt = process_type_set[si];
        let bits = pt.iter();
        let ghost sb = single_bits(pt.spec_bits());
        proof {
            lemma_single_bits_sorted(pt.spec_bits());
            crate::api::lemma_single_bits_are_steps(pt.spec_bits());
            assert(sb.take(0) =~= Seq::<u8>::empty());
        }
        proof {
            assert forall|n: int| 0 < n < tree@.len() implies tree@[n].path@.len() > 0 by {
                assert(node_linked(tree@, n));
            }
        }
        let mut cur: usize = 0;
        let mut i: usize = 0;
        while i < bits.len()
            invariant
                set == process_type_set@,
                si < set.len(),
                pt == set[si as int],
                sb == single_bits(pt.spec_bits()),
                bits@.len() == sb.len(),
                forall|j: int| 0 <= j < bits@.len() ==> #[trigger] bits@[j].spec_bits() == sb[j],
                forall|j: int| 0 <= j < sb.len() ==> is_step_bit(#[trigger] sb[j]),
                forall|j: int| 0 <= j < sb.len() ==> 1 <= #[trigger] sb[j],
                forall|a: int, b: int| 0 <= a < b < sb.len() ==> #[trigger] sb[a] < #[trigger] sb[b],
                i <= bits@.len(),
                tree_wf(tree@),
                paths_distinct(tree@),
                children_distinct(tree@),
                masks_folded(tree@),
                cur < tree@.len(),
                tree@[cur as int].path@ == strip_raw(sb.take(i as int)),
                (cur == 0) <==> tree@[cur as int].path@.len() == 0,
                cur != 0 ==> tree@[cur as int].process_type_bit.spec_bits()
                    == tree@[cur as int].path@.last(),
                i > 0 ==> tree@[cur as int].process_type_bit.spec_bits() <= sb[i - 1],
                root_records(tree@, set),
                records_so_far(tree@, set.take(si as int)),
                covers(tree@, set.take(si as int)),
                no_junk(tree@, set.take(si as int), steps_of(pt)),
            decreases bits@.len() - i,
        {
            let bit = bits[i];
            proof {
                assert(sb.take(i + 1) =~= sb.take(i as int).push(sb[i as int]));
                lemma_strip_raw_take(sb, i + 1);
            }
            if tree[cur].process_type_bit == bit {
                proof {
                    if cur != 0 {
                        assert(strip_raw(sb.take(i as int)).len() <= i);
                        assert(sb[i - 1] < sb[i as int]);
                    }
                    if i > 0 {
                        assert(sb[0] < sb[i as int]);
                    }
                    assert(strip_raw(sb.take(1)) =~= Seq::<u8>::empty());
                }
                i += 1;
                continue;
            }
            proof {
                ProcessType::lemma_bits_eq(tree@[cur as int].process_type_bit, bit);
                if i > 0 {
                    assert(sb[0] < sb[i as int]);
                    assert(sb.take(i as int).len() > 0);
                } else {
                    assert(cur == 0);
                    assert(sb[0] != 0x01);
                }
                lemma_strip_raw_push(sb.take(i as int), sb[i as int]);
            }
            let mut found: Option<usize> = None;
            let nchildren = tree[cur].children.len();
            let mut k: usize = 0;
            while k < nchildren
                invariant
                    tree_wf(tree@),
                    cur < tree@.len(),
                    nchildren == tree@[cur as int].children@.len(),
                    k <= nchildren,
                    forall|j: int|
                        0 <= j < k ==> tree@[tree@[cur as int].children@[j] as int].process_type_bit
                            != bit,
                    found matches Some(c) ==> tree@[cur as int].children@.contains(c)
                        && tree@[c as int].process_type_bit == bit,
                ensures
                    found is None ==> k == nchildren,
                decreases nchildren - k,
            {
                let c = tree[cur].children[k];
                proof {
                    assert(child_ok(tree@, cur as int, tree@[cur as int].children@[k as int]));
                }
                if tree[c].process_type_bit == bit {
                    found = Some(c);
                    break;
                }
                k += 1;
            }
            let ghost old_tree = tree@;
            let ghost old_cur = cur;
            match found {
                Some(c) => {
                    proof {
                        let j = choose|j: int|
                            0 <= j < old_tree[cur as int].children@.len()
                                && old_tree[cur as int].children@[j] == c;
                        assert(child_ok(old_tree, cur as int, old_tree[cur as int].children@[j]));
                        assert(node_linked(old_tree, c as int));
                    }
                    cur = c;
                },
                None => {
                    let child = ProcessTypeBitNode {
                        process_type_list: Vec::new(),
                        process_type_bit: bit,
                        children: Vec::new(),
                        folded_mask: 0,
                        parent: Ghost(cur as int),
                        path: Ghost(tree@[cur as int].path@.push(bit.spec_bits())),
                    };
                    proof {
                        assert(child.types() =~= Seq::<ProcessType>::empty());
                        assert(strip_raw(sb.take(i + 1)) == child.path@);
                    }
                    tree.push(child);
                    let new_node_index = tree.len() - 1;
                    tree[cur].children.push(new_node_index);
                    cur = new_node_index;
                    proof {
                        lemma_new_step(
                            old_tree,
                            tree@,
                            old_cur as int,
                            set,
                            set.take(si as int),
                            steps_of(pt),
                        );
                    }
                },
            }
            i += 1;
        }
        proof {
            assert(sb.take(bits@.len() as int) =~= sb);
        }
        let ghost walked = tree@;
        if cur != 0 {
            tree[cur].process_type_list.push(pt);
            let m = mask_bit(pt);
            tree[cur].folded_mask = tree[cur].folded_mask | m;
            proof {
                assert(tree@[cur as int].types().drop_last() =~= walked[cur as int].types());
            }
        }
        proof {
            lemma_finish_type(walked, tree@, cur as int, pt, set, si as int);
        }
        si += 1;
    }
    proof {
        assert(set.take(set.len() as int) =~= set);
    }
    tree
}


/// The non-empty prefixes of the step paths of the types of `set`.
pub open spec fn path_prefixes(set: Seq<ProcessType>) -> Set<Seq<u8>> {
    Set::new(|p: Seq<u8>| p.len() > 0 && on_some_path(p, set))
}

/// Siblings differ: no node lists a child twice, and two children of one
/// node stand for different steps.
pub proof fn law_siblings_distinct(tree: Seq<ProcessTypeBitNode>, set: Seq<ProcessType>)
    requires
        tree_of(tree, set),
    ensures
        forall|n: int, i: int, j: int|
            0 <= n < tree.len() && 0 <= i < j < tree[n].children@.len() ==> #[trigger] tree[n].children@[i]
                != #[trigger] tree[n].children@[j] && tree[tree[n].children@[i] as int].process_type_bit
                != tree[tree[n].children@[j] as int].process_type_bit,
{
    assert forall|n: int, i: int, j: int|
        0 <= n < tree.len() && 0 <= i < j < tree[n].children@.len() implies #[trigger] tree[n].children@[i]
        != #[trigger] tree[n].children@[j] && tree[tree[n].children@[i] as int].process_type_bit
        != tree[tree[n].children@[j] as int].process_type_bit by {
        let a = tree[n].children@[i] as int;
        let b = tree[n].children@[j] as int;
        assert(child_ok(tree, n, tree[n].children@[i]));
        assert(child_ok(tree, n, tree[n].children@[j]));
        assert(node_linked(tree, a));
        assert(node_linked(tree, b));
        if tree[a].process_type_bit == tree[b].process_type_bit {
            assert(tree[a].path@ =~= tree[b].path@);
            if a < b {
                assert(tree[a].path@ != tree[b].path@);
            } else {
                assert(tree[b].path@ != tree[a].path@);
            }
        }
    }
}

/// The trie has the root and one node per distinct non-empty prefix of the
/// types' step paths, and no other: its size is one more than the number of
/// those prefixes.
pub proof fn law_node_count(tree: Seq<ProcessTypeBitNode>, set: Seq<ProcessType>)
    requires
        tree_of(tree, set),
    ensures
        forall|p: Seq<u8>|
            #[trigger] path_prefixes(set).contains(p) <==> exists|n: int|
                0 < n < tree.len() && #[trigger] tree[n].path@ == p,
        path_prefixes(set).finite(),
        tree.len() == 1 + path_prefixes(set).len(),
{
    let x = vstd::set_lib::set_int_range(1, tree.len() as int);
    let f = |n: int| tree[n].path@;
    let y = path_prefixes(set);
    lemma_nonroot_paths_nonempty(tree);
    assert forall|p: Seq<u8>| #[trigger] y.contains(p) <==> exists|n: int|
        0 < n < tree.len() && #[trigger] tree[n].path@ == p by {
        if y.contains(p) {
            let t = choose|t: ProcessType| #[trigger] set.contains(t) && p.is_prefix_of(steps_of(t));
            let w = choose|w: int| 0 <= w < tree.len() && #[trigger] tree[w].path@ == steps_of(t);
            lemma_ancestor_paths(tree, w, p.len() as int);
            assert(tree[w].path@.take(p.len() as int) =~= p);
            let m = choose|m: int| 0 <= m < tree.len() && #[trigger] tree[m].path@ == p;
            assert(m != 0);
            assert(0 < m < tree.len() && tree[m].path@ == p);
        }
        if exists|n: int| 0 < n < tree.len() && #[trigger] tree[n].path@ == p {
            let n = choose|n: int| 0 < n < tree.len() && #[trigger] tree[n].path@ == p;
            assert(on_some_path(tree[n].path@, set) || tree[n].path@.is_prefix_of(Seq::<u8>::empty()));
        }
    }
    assert(x.map(f) =~= y) by {
        assert forall|p: Seq<u8>| #[trigger] x.map(f).contains(p) implies y.contains(p) by {
            let n = choose|n: int| x.contains(n) && f(n) == p;
            assert(tree[n].path@ == p);
        }
        assert forall|p: Seq<u8>| #[trigger] y.contains(p) implies x.map(f).contains(p) by {
            let n = choose|n: int| 0 < n < tree.len() && #[trigger] tree[n].path@ == p;
            assert(x.contains(n) && f(n) == p);
        }
    }
    assert(vstd::relations::injective_on(f, x)) by {
        assert forall|a: int, b: int| x.contains(a) && x.contains(b) && #[trigger] f(a) == #[trigger] f(
            b,
        ) implies a == b by {
            if a < b {
                assert(tree[a].path@ != tree[b].path@);
            } else if b < a {
                assert(tree[b].path@ != tree[a].path@);
            }
        }
    }
    vstd::set_lib::lemma_int_range(1, tree.len() as int);
    vstd::set_lib::lemma_map_size(x, y, f);
}


/// The union of the single-bit values `s`.
pub open spec fn or_bits(s: Seq<u8>) -> u8
    decreases s.len(),
{
    if s.len() == 0 {
        0
    } else {
        or_bits(s.drop_last()) | s.last()
    }
}

/// `x` has exactly one bit set.
pub open spec fn single_bit(x: u8) -> bool {
    x == 1 || x == 2 || x == 4 || x == 8 || x == 16 || x == 32 || x == 64 || x == 128
}

/// `s` is an ascending list of single-bit values.
pub open spec fn ascending_single(s: Seq<u8>) -> bool {
    &&& forall|i: int| 0 <= i < s.len() ==> single_bit(#[trigger] s[i])
    &&& forall|i: int, j: int| 0 <= i < j < s.len() ==> #[trigger] s[i] < #[trigger] s[j]
}

/// The masks of the `k` lowest steps of a type of `set` other than `Raw`,
/// for every `k` from one to the number of those steps.
pub open spec fn lowest_bit_masks(set: Seq<ProcessType>) -> Set<u8> {
    Set::new(
        |x: u8|
            exists|t: ProcessType, k: int|
                #![trigger set.contains(t), or_bits(steps_of(t).take(k))]
                set.contains(t) && 1 <= k <= steps_of(t).len() && x == or_bits(steps_of(t).take(k)),
    )
}

/// Every single-bit value below bit `n` has one bit set.
proof fn lemma_single_bits_below_form(bits: u8, n: u8)
    requires
        n <= 8,
    ensures
        forall|i: int|
            0 <= i < single_bits_below(bits, n).len() ==> single_bit(
                #[trigger] single_bits_below(bits, n)[i],
            ),
    decreases n,
{
    if n > 0 {
        let m = (n - 1) as u8;
        lemma_single_bits_below_form(bits, m);
        let rest = single_bits_below(bits, m);
        let cur = single_bits_below(bits, n);
        assert(single_bit((1u8 << m) as u8)) by (bit_vector)
            requires
                m < 8,
        ;
        assert forall|i: int| 0 <= i < cur.len() implies single_bit(#[trigger] cur[i]) by {
            if has_bit(bits, m) {
                assert(cur == rest.push((1u8 << m) as u8));
                if i < rest.len() {
                    assert(cur[i] == rest[i]);
                }
            } else {
                assert(cur == rest);
            }
        }
    }
}

/// A prefix of a type's step path is an ascending list of single bits.
proof fn lemma_prefix_ascending_single(t: ProcessType, k: int)
    requires
        0 <= k <= steps_of(t).len(),
    ensures
        ascending_single(steps_of(t).take(k)),
{
    let sb = single_bits(t.spec_bits());
    lemma_single_bits_sorted(t.spec_bits());
    lemma_single_bits_below_form(t.spec_bits(), 8);
    let st = steps_of(t);
    let off: int = if sb.len() > 0 && sb[0] == 0x01 {
        1
    } else {
        0
    };
    assert forall|i: int| 0 <= i < st.len() implies st[i] == sb[i + off] by {
        if off == 1 {
            assert(st[i] == sb.drop_first()[i]);
        }
    }
    let p = st.take(k);
    assert forall|i: int| 0 <= i < p.len() implies single_bit(#[trigger] p[i]) by {
        assert(p[i] == sb[i + off]);
    }
    assert forall|i: int, j: int| 0 <= i < j < p.len() implies #[trigger] p[i] < #[trigger] p[j] by {
        assert(p[i] == sb[i + off] && p[j] == sb[j + off]);
    }
}

/// The union of values below a single bit stays below it.
proof fn lemma_or_below(s: Seq<u8>, l: u8)
    requires
        single_bit(l),
        forall|i: int| 0 <= i < s.len() ==> #[trigger] s[i] < l,
    ensures
        or_bits(s) < l,
    decreases s.len(),
{
    if s.len() > 0 {
        let d = s.drop_last();
        assert forall|i: int| 0 <= i < d.len() implies #[trigger] d[i] < l by {
            assert(d[i] == s[i]);
        }
        lemma_or_below(d, l);
        let a = or_bits(d);
        let b = s.last();
        assert(s[s.len() - 1] == b);
        assert((a | b) < l) by (bit_vector)
            requires
                single_bit(l),
                a < l,
                b < l,
        ;
    }
}

/// Ascending lists of single bits with the same union are equal.
proof fn lemma_or_bits_injective(a: Seq<u8>, b: Seq<u8>)
    requires
        ascending_single(a),
        ascending_single(b),
        or_bits(a) == or_bits(b),
    ensures
        a == b,
    decreases a.len() + b.len(),
{
    if a.len() == 0 && b.len() == 0 {
        assert(a =~= b);
    } else if a.len() == 0 || b.len() == 0 {
        let c = if a.len() == 0 {
            b
        } else {
            a
        };
        let l = c.last();
        let r = or_bits(c.drop_last());
        assert(single_bit(c[c.len() - 1]));
        assert((r | l) != 0u8) by (bit_vector)
            requires
                single_bit(l),
        ;
    } else {
        let la = a.last();
        let lb = b.last();
        assert(single_bit(a[a.len() - 1]) && single_bit(b[b.len() - 1]));
        let da = a.drop_last();
        let db = b.drop_last();
        assert forall|i: int| 0 <= i < da.len() implies #[trigger] da[i] < la by {
            assert(da[i] == a[i] && a[i] < a[a.len() - 1]);
        }
        assert forall|i: int| 0 <= i < db.len() implies #[trigger] db[i] < lb by {
            assert(db[i] == b[i] && b[i] < b[b.len() - 1]);
        }
        lemma_or_below(da, la);
        lemma_or_below(db, lb);
        let ra = or_bits(da);
        let rb = or_bits(db);
        assert(la == lb && ra == rb) by (bit_vector)
            requires
                single_bit(la),
                single_bit(lb),
                ra < la,
                rb < lb,
                (ra | la) == (rb | lb),
        ;
        assert(ascending_single(da)) by {
            assert forall|i: int| 0 <= i < da.len() implies single_bit(#[trigger] da[i]) by {
                assert(da[i] == a[i]);
            }
            assert forall|i: int, j: int| 0 <= i < j < da.len() implies #[trigger] da[i] < #[trigger] da[j] by {
                assert(da[i] == a[i] && da[j] == a[j]);
            }
        }
        assert(ascending_single(db)) by {
            assert forall|i: int| 0 <= i < db.len() implies single_bit(#[trigger] db[i]) by {
                assert(db[i] == b[i]);
            }
            assert forall|i: int, j: int| 0 <= i < j < db.len() implies #[trigger] db[i] < #[trigger] db[j] by {
                assert(db[i] == b[i] && db[j] == b[j]);
            }
        }
        lemma_or_bits_injective(da, db);
        assert(a =~= da.push(la));
        assert(b =~= db.push(lb));
    }
}

/// The trie's size counted by masks: one node for the root and one for each
/// mask of the `k` lowest non-`Raw` steps of a type of `set`.
pub proof fn law_node_count_by_bits(tree: Seq<ProcessTypeBitNode>, set: Seq<ProcessType>)
    requires
        tree_of(tree, set),
    ensures
        lowest_bit_masks(set).finite(),
        tree.len() == 1 + lowest_bit_masks(set).len(),
{
    law_node_count(tree, set);
    let x = path_prefixes(set);
    let y = lowest_bit_masks(set);
    let f = |p: Seq<u8>| or_bits(p);
    assert(x.map(f) =~= y) by {
        assert forall|v: u8| #[trigger] x.map(f).contains(v) implies y.contains(v) by {
            let p = choose|p: Seq<u8>| x.contains(p) && f(p) == v;
            let t = choose|t: ProcessType| #[trigger] set.contains(t) && p.is_prefix_of(steps_of(t));
            assert(p =~= steps_of(t).take(p.len() as int));
            assert(set.contains(t) && 1 <= p.len() as int <= steps_of(t).len() && v == or_bits(
                steps_of(t).take(p.len() as int),
            ));
        }
        assert forall|v: u8| #[trigger] y.contains(v) implies x.map(f).contains(v) by {
            let (t, k) = choose|t: ProcessType, k: int|
                #![trigger set.contains(t), or_bits(steps_of(t).take(k))]
                set.contains(t) && 1 <= k <= steps_of(t).len() && v == or_bits(steps_of(t).take(k));
            let p = steps_of(t).take(k);
            assert(p.is_prefix_of(steps_of(t)));
            assert(on_some_path(p, set));
            assert(x.contains(p) && f(p) == v);
        }
    }
    assert(vstd::relations::injective_on(f, x)) by {
        assert forall|p: Seq<u8>, q: Seq<u8>| x.contains(p) && x.contains(q) && #[trigger] f(p)
            == #[trigger] f(q) implies p == q by {
            let tp = choose|t: ProcessType| #[trigger] set.contains(t) && p.is_prefix_of(steps_of(t));
            let tq = choose|t: ProcessType| #[trigger] set.contains(t) && q.is_prefix_of(steps_of(t));
            assert(p =~= steps_of(tp).take(p.len() as int));
            assert(q =~= steps_of(tq).take(q.len() as int));
            lemma_prefix_ascending_single(tp, p.len() as int);
            lemma_prefix_ascending_single(tq, q.len() as int);
            lemma_or_bits_injective(p, q);
        }
    }
    vstd::set_lib::lemma_map_size(x, y, f);
}

} // verus!
