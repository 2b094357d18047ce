//! Standalone entry points of the transformation pipeline.
//!
//! They decompose a composite [`ProcessType`] into its single-bit steps, apply
//! each in ascending bit order through a [`TransformRegistry`], and return the
//! results as borrowed or owned [`Cow<str>`] values.
use std::borrow::Cow;

use vstd::prelude::*;

use crate::process_type::{has_bit, single_bits, single_bits_below, ProcessType};
use crate::step::{is_step_bit, TransformRegistry};
use crate::walk::same_text;

verus! {

/// What the steps `bits`, applied in order, make of `s`.
pub open spec fn chain_text(reg: &TransformRegistry, bits: Seq<u8>, s: Seq<char>) -> Seq<char>
    decreases bits.len(),
{
    if bits.len() == 0 {
        s
    } else {
        reg.step(bits.last()).spec_transform(chain_text(reg, bits.drop_last(), s))
    }
}

/// Whether some step of `bits`, applied in order to `s`, changes its input.
pub open spec fn chain_changes(reg: &TransformRegistry, bits: Seq<u8>, s: Seq<char>) -> bool
    decreases bits.len(),
{
    if bits.len() == 0 {
        false
    } else {
        chain_changes(reg, bits.drop_last(), s) || reg.step(bits.last()).spec_changes(
            chain_text(reg, bits.drop_last(), s),
        )
    }
}

/// The texts recorded while the steps `bits` run on `s`: it starts with `s`,
/// and each step whose output differs from the current (last) text appends
/// that output, or,
/// with `overwrite_replace` and a step other than `Delete`, overwrites the
/// last text with it.
pub open spec fn chain_variants(
    reg: &TransformRegistry,
    bits: Seq<u8>,
    s: Seq<char>,
    overwrite_replace: bool,
) -> Seq<Seq<char>>
    decreases bits.len(),
{
    if bits.len() == 0 {
        seq![s]
    } else {
        let prev = chain_variants(reg, bits.drop_last(), s, overwrite_replace);
        let step = reg.step(bits.last());
        let cur = prev.last();
        if step.spec_transform(cur) != cur {
            if overwrite_replace && bits.last() != 0x04 {
                prev.update(prev.len() - 1, step.spec_transform(cur))
            } else {
                prev.push(step.spec_transform(cur))
            }
        } else {
            prev
        }
    }
}

/// The texts held by a list of `Cow` strings.
pub open spec fn cow_views<'a>(v: Seq<Cow<'a, str>>) -> Seq<Seq<char>> {
    v.map_values(|c: Cow<'a, str>| c@)
}

/// Every single-bit value of a `ProcessType` without the unnamed top bit
/// names a step.
pub proof fn lemma_single_bits_are_steps(bits: u8)
    requires
        bits < 0x80,
    ensures
        forall|i: int|
            0 <= i < single_bits(bits).len() ==> is_step_bit(#[trigger] single_bits(bits)[i]),
{
    lemma_single_bits_below_are_steps(bits, 8);
}

proof fn lemma_single_bits_below_are_steps(bits: u8, n: u8)
    requires
        bits < 0x80,
        n <= 8,
    ensures
        forall|i: int|
            0 <= i < single_bits_below(bits, n).len() ==> is_step_bit(
                #[trigger] single_bits_below(bits, n)[i],
            ),
    decreases n,
{
    if n > 0 {
        let k = (n - 1) as u8;
        lemma_single_bits_below_are_steps(bits, k);
        if has_bit(bits, k) {
            assert(k < 7 && is_step_bit((1u8 << k) as u8)) by (bit_vector)
                requires
                    bits < 0x80,
                    k < 8,
                    (bits >> k) & 1u8 == 1u8,
            ;
            let rest = single_bits_below(bits, k);
            assert(single_bits_below(bits, n) == rest.push((1u8 << k) as u8));
            assert forall|i: int| 0 <= i < single_bits_below(bits, n).len() implies is_step_bit(
                #[trigger] single_bits_below(bits, n)[i],
            ) by {
                if i < rest.len() {
                    assert(single_bits_below(bits, n)[i] == rest[i]);
                }
            }
        } else {
            assert(single_bits_below(bits, n) == single_bits_below(bits, k));
        }
    }
}

/// The recorded texts never run out, and the last of them is the pipeline's
/// result.
pub proof fn lemma_variants_end_in_result(
    reg: &TransformRegistry,
    bits: Seq<u8>,
    s: Seq<char>,
    overwrite_replace: bool,
)
    ensures
        chain_variants(reg, bits, s, overwrite_replace).len() >= 1,
        chain_variants(reg, bits, s, overwrite_replace).last() == chain_text(reg, bits, s),
    decreases bits.len(),
{
    if bits.len() > 0 {
        lemma_variants_end_in_result(reg, bits.drop_last(), s, overwrite_replace);
        let prev = chain_variants(reg, bits.drop_last(), s, overwrite_replace);
        let step = reg.step(bits.last());
        if !step.spec_changes(prev.last()) {
            step.lemma_unchanged(prev.last());
        }
    }
}

/// Without overwriting, the first recorded text is the input itself.
pub proof fn lemma_first_variant_is_input(reg: &TransformRegistry, bits: Seq<u8>, s: Seq<char>)
    ensures
        chain_variants(reg, bits, s, false)[0] == s,
    decreases bits.len(),
{
    if bits.len() > 0 {
        lemma_first_variant_is_input(reg, bits.drop_last(), s);
        lemma_variants_end_in_result(reg, bits.drop_last(), s, false);
    }
}

/// Overwriting replace-style steps never records more texts than recording
/// every change.
pub proof fn lemma_emit_no_longer(reg: &TransformRegistry, bits: Seq<u8>, s: Seq<char>)
    ensures
        chain_variants(reg, bits, s, true).len() <= chain_variants(reg, bits, s, false).len(),
    decreases bits.len(),
{
    if bits.len() > 0 {
        lemma_emit_no_longer(reg, bits.drop_last(), s);
        lemma_variants_end_in_result(reg, bits.drop_last(), s, true);
        lemma_variants_end_in_result(reg, bits.drop_last(), s, false);
    }
}

/// Running `x` and then `y` is running `x + y`.
pub proof fn lemma_chain_text_append(reg: &TransformRegistry, x: Seq<u8>, y: Seq<u8>, s: Seq<char>)
    ensures
        chain_text(reg, x + y, s) == chain_text(reg, y, chain_text(reg, x, s)),
    decreases y.len(),
{
    if y.len() == 0 {
        assert(x + y =~= x);
    } else {
        lemma_chain_text_append(reg, x, y.drop_last(), s);
        assert((x + y).drop_last() =~= x + y.drop_last());
        assert((x + y).last() == y.last());
    }
}

/// Without a set bit below `n`, there is no single-bit value below `n`.
proof fn lemma_no_bits_below(bits: u8, n: u8)
    requires
        n <= 8,
        forall|j: u8| j < n ==> !#[trigger] has_bit(bits, j),
    ensures
        single_bits_below(bits, n) == Seq::<u8>::empty(),
    decreases n,
{
    if n > 0 {
        lemma_no_bits_below(bits, (n - 1) as u8);
        assert(!has_bit(bits, (n - 1) as u8));
    }
}

/// When every set bit of `a` lies below every set bit of `b`, the
/// single-bit values of `a | b` below `n` are those of `a` followed by those
/// of `b`.
proof fn lemma_single_bits_below_split(a: u8, b: u8, n: u8)
    requires
        n <= 8,
        forall|i: u8, j: u8|
            i < 8 && j < 8 && #[trigger] has_bit(a, i) && #[trigger] has_bit(b, j) ==> i < j,
    ensures
        single_bits_below(a | b, n) == single_bits_below(a, n) + single_bits_below(b, n),
    decreases n,
{
    if n == 0 {
        assert(Seq::<u8>::empty() + Seq::<u8>::empty() =~= Seq::<u8>::empty());
    } else {
        let k = (n - 1) as u8;
        lemma_single_bits_below_split(a, b, k);
        let sa = single_bits_below(a, k);
        let sb = single_bits_below(b, k);
        let e = (1u8 << k) as u8;
        assert(((a | b) >> k) & 1u8 == 1u8 <==> (a >> k) & 1u8 == 1u8 || (b >> k) & 1u8 == 1u8)
            by (bit_vector);
        if has_bit(a, k) {
            assert(!has_bit(b, k));
            assert forall|j: u8| j < n implies !#[trigger] has_bit(b, j) by {
                if has_bit(b, j) {
                    assert(k < j);
                }
            }
            lemma_no_bits_below(b, n);
            lemma_no_bits_below(b, k);
            assert(single_bits_below(a | b, n) =~= (sa + sb).push(e));
            assert((sa + sb).push(e) =~= sa.push(e) + single_bits_below(b, n));
        } else if has_bit(b, k) {
            assert(single_bits_below(a | b, n) =~= (sa + sb).push(e));
            assert((sa + sb).push(e) =~= sa + sb.push(e));
        } else {
            assert(single_bits_below(a | b, n) == single_bits_below(a | b, k));
        }
    }
}

/// A composite pipeline runs its lower steps first: when every set bit of
/// `a` lies below every set bit of `b`, running `a | b` on a text is running
/// `a` and then `b` on its result.
pub proof fn law_text_process_composes(
    reg: &TransformRegistry,
    a: ProcessType,
    b: ProcessType,
    s: Seq<char>,
)
    requires
        forall|i: u8, j: u8|
            i < 8 && j < 8 && #[trigger] has_bit(a.spec_bits(), i) && #[trigger] has_bit(
                b.spec_bits(),
                j,
            ) ==> i < j,
    ensures
        chain_text(reg, single_bits(a.spec_bits() | b.spec_bits()), s) == chain_text(
            reg,
            single_bits(b.spec_bits()),
            chain_text(reg, single_bits(a.spec_bits()), s),
        ),
{
    lemma_single_bits_below_split(a.spec_bits(), b.spec_bits(), 8);
    lemma_chain_text_append(reg, single_bits(a.spec_bits()), single_bits(b.spec_bits()), s);
}

/// How many of the steps `bits` are `Delete`.
pub open spec fn delete_count(bits: Seq<u8>) -> nat
    decreases bits.len(),
{
    if bits.len() == 0 {
        0
    } else {
        delete_count(bits.drop_last()) + if bits.last() == 0x04 {
            1nat
        } else {
            0nat
        }
    }
}

/// `Delete` is among the single-bit values below `n` exactly when its bit
/// is set and lies below `n`.
proof fn lemma_delete_count_below(bits: u8, n: u8)
    requires
        n <= 8,
    ensures
        delete_count(single_bits_below(bits, n)) == if n > 2 && has_bit(bits, 2) {
            1nat
        } else {
            0nat
        },
    decreases n,
{
    if n > 0 {
        let k = (n - 1) as u8;
        lemma_delete_count_below(bits, k);
        if has_bit(bits, k) {
            let rest = single_bits_below(bits, k);
            assert(k < 8 ==> (((1u8 << k) as u8 == 0x04u8) <==> k == 2)) by (bit_vector);
            assert(single_bits_below(bits, n).drop_last() =~= rest);
        }
    }
}

/// The index map `f` picks `e` out of `full` in order.
pub open spec fn picks_in_order(e: Seq<Seq<char>>, full: Seq<Seq<char>>, f: Seq<int>) -> bool {
    &&& f.len() == e.len()
    &&& forall|i: int| 0 <= i < f.len() ==> 0 <= #[trigger] f[i] < full.len() && e[i] == full[f[i]]
    &&& forall|i: int, j: int| 0 <= i < j < f.len() ==> #[trigger] f[i] < #[trigger] f[j]
}

/// The overwriting record is the full record with every text dropped that
/// a later replace-style step overwrote: it picks its texts out of the full
/// record in order, ending at the full record's last text, and holds one
/// text more than the changing `Delete` steps.
proof fn lemma_emit_picks(reg: &TransformRegistry, bits: Seq<u8>, s: Seq<char>) -> (f: Seq<int>)
    ensures
        picks_in_order(chain_variants(reg, bits, s, true), chain_variants(reg, bits, s, false), f),
        f.len() >= 1,
        f.last() == chain_variants(reg, bits, s, false).len() - 1,
        chain_variants(reg, bits, s, true).len() <= 1 + delete_count(bits),
    decreases bits.len(),
{
    if bits.len() == 0 {
        seq![0int]
    } else {
        let f0 = lemma_emit_picks(reg, bits.drop_last(), s);
        lemma_variants_end_in_result(reg, bits.drop_last(), s, true);
        lemma_variants_end_in_result(reg, bits.drop_last(), s, false);
        let pe = chain_variants(reg, bits.drop_last(), s, true);
        let pf = chain_variants(reg, bits.drop_last(), s, false);
        let step = reg.step(bits.last());
        let cur = pf.last();
        if step.spec_transform(cur) == cur {
            f0
        } else if bits.last() != 0x04 {
            let f = f0.update(f0.len() - 1, pf.len() as int);
            let e = chain_variants(reg, bits, s, true);
            let full = chain_variants(reg, bits, s, false);
            assert(e == pe.update(pe.len() - 1, step.spec_transform(cur)));
            assert(full == pf.push(step.spec_transform(cur)));
            assert forall|i: int| 0 <= i < f.len() implies 0 <= #[trigger] f[i] < full.len()
                && e[i] == full[f[i]] by {
                if i < f.len() - 1 {
                    assert(f[i] == f0[i]);
                }
            }
            assert forall|i: int, j: int| 0 <= i < j < f.len() implies #[trigger] f[i]
                < #[trigger] f[j] by {
                if j < f.len() - 1 {
                    assert(f[i] == f0[i] && f[j] == f0[j]);
                } else {
                    assert(f[i] == f0[i]);
                    assert(f0[i] < f0[f0.len() - 1]);
                }
            }
            f
        } else {
            let f = f0.push(pf.len() as int);
            let e = chain_variants(reg, bits, s, true);
            let full = chain_variants(reg, bits, s, false);
            assert(e == pe.push(step.spec_transform(cur)));
            assert(full == pf.push(step.spec_transform(cur)));
            assert forall|i: int| 0 <= i < f.len() implies 0 <= #[trigger] f[i] < full.len()
                && e[i] == full[f[i]] by {
                if i < f.len() - 1 {
                    assert(f[i] == f0[i]);
                }
            }
            assert forall|i: int, j: int| 0 <= i < j < f.len() implies #[trigger] f[i]
                < #[trigger] f[j] by {
                if j < f.len() - 1 {
                    assert(f[i] == f0[i] && f[j] == f0[j]);
                } else {
                    assert(f[i] == f0[i]);
                }
            }
            f
        }
    }
}

/// The emitted variants of a pipeline are picked in order out of its full
/// variant list and end in the same text; there is one, plus one more at
/// most when the pipeline has the `Delete` step.
pub proof fn law_emit_within_full(reg: &TransformRegistry, pt: ProcessType, s: Seq<char>)
    ensures
        ({
            let e = chain_variants(reg, single_bits(pt.spec_bits()), s, true);
            let full = chain_variants(reg, single_bits(pt.spec_bits()), s, false);
            &&& 1 <= e.len()
            &&& e.len() <= if has_bit(pt.spec_bits(), 2) {
                2nat
            } else {
                1nat
            }
            &&& e.last() == full.last()
            &&& exists|f: Seq<int>| picks_in_order(e, full, f)
        }),
{
    let bits = single_bits(pt.spec_bits());
    let f = lemma_emit_picks(reg, bits, s);
    lemma_delete_count_below(pt.spec_bits(), 8);
    lemma_variants_end_in_result(reg, bits, s, true);
    lemma_variants_end_in_result(reg, bits, s, false);
    assert(picks_in_order(
        chain_variants(reg, bits, s, true),
        chain_variants(reg, bits, s, false),
        f,
    ));
}

/// How many of the steps `bits` are not `Raw`.
pub open spec fn non_raw_count(bits: Seq<u8>) -> nat
    decreases bits.len(),
{
    if bits.len() == 0 {
        0
    } else {
        non_raw_count(bits.drop_last()) + if bits.last() == 0x01 {
            0nat
        } else {
            1nat
        }
    }
}

/// The full record of the steps `bits` starts with the input, ends with
/// their result, holds at most one text more than there are steps other
/// than `Raw`, and neighbouring texts differ.
proof fn lemma_full_record(reg: &TransformRegistry, bits: Seq<u8>, s: Seq<char>)
    ensures
        chain_variants(reg, bits, s, false)[0] == s,
        chain_variants(reg, bits, s, false).last() == chain_text(reg, bits, s),
        chain_variants(reg, bits, s, false).len() <= 1 + non_raw_count(bits),
        forall|i: int|
            1 <= i < chain_variants(reg, bits, s, false).len() ==> #[trigger] chain_variants(
                reg,
                bits,
                s,
                false,
            )[i] != chain_variants(reg, bits, s, false)[i - 1],
    decreases bits.len(),
{
    lemma_first_variant_is_input(reg, bits, s);
    lemma_variants_end_in_result(reg, bits, s, false);
    if bits.len() > 0 {
        let d = bits.drop_last();
        lemma_full_record(reg, d, s);
        lemma_variants_end_in_result(reg, d, s, false);
        let prev = chain_variants(reg, d, s, false);
        let step = reg.step(bits.last());
        let cur = prev.last();
        let full = chain_variants(reg, bits, s, false);
        if step.spec_transform(cur) != cur {
            assert(full == prev.push(step.spec_transform(cur)));
            assert(bits.last() != 0x01);
            assert forall|i: int| 1 <= i < full.len() implies #[trigger] full[i] != full[i - 1] by {
                if i < prev.len() {
                    assert(full[i] == prev[i] && full[i - 1] == prev[i - 1]);
                } else {
                    assert(full[i - 1] == cur);
                }
            }
        }
    }
}

/// In ascending steps, at least one each, only `Raw` is not counted by
/// [`non_raw_count`].
proof fn lemma_non_raw_count(bits: Seq<u8>)
    requires
        forall|i: int| 0 <= i < bits.len() ==> 1 <= #[trigger] bits[i],
        forall|i: int, j: int| 0 <= i < j < bits.len() ==> #[trigger] bits[i] < #[trigger] bits[j],
    ensures
        non_raw_count(bits) + (if bits.contains(1u8) {
            1int
        } else {
            0int
        }) == bits.len(),
    decreases bits.len(),
{
    if bits.len() > 0 {
        let d = bits.drop_last();
        assert forall|i: int, j: int| 0 <= i < j < d.len() implies #[trigger] d[i] < #[trigger] d[j] by {
            assert(d[i] == bits[i] && d[j] == bits[j]);
        }
        assert forall|i: int| 0 <= i < d.len() implies 1 <= #[trigger] d[i] by {
            assert(d[i] == bits[i]);
        }
        lemma_non_raw_count(d);
        let l = bits.len() - 1;
        if bits[l] == 1u8 {
            if d.len() > 0 {
                assert(bits[0] < bits[l]);
            }
            assert(d =~= Seq::<u8>::empty());
            assert(bits.contains(1u8));
        } else {
            assert(bits.contains(1u8) ==> d.contains(1u8)) by {
                if bits.contains(1u8) {
                    let i = choose|i: int| 0 <= i < bits.len() && bits[i] == 1u8;
                    assert(i < l && d[i] == 1u8);
                }
            }
            assert(d.contains(1u8) ==> bits.contains(1u8)) by {
                if d.contains(1u8) {
                    let i = choose|i: int| 0 <= i < d.len() && d[i] == 1u8;
                    assert(bits[i] == 1u8);
                }
            }
        }
    }
}

/// How many steps `pt` selects other than `Raw`: its set bits, not
/// counting bit 0.
pub open spec fn steps_besides_raw(pt: ProcessType) -> int {
    single_bits(pt.spec_bits()).len() - if has_bit(pt.spec_bits(), 0u8) {
        1int
    } else {
        0int
    }
}

/// The full record of the pipeline `pt` on `s` starts with `s`, ends with
/// the pipeline's result, holds at most one text more than `pt` has steps
/// other than `Raw`, and neighbouring texts differ: a step that leaves the
/// text as it was adds nothing.
pub proof fn law_reduce_text_process(reg: &TransformRegistry, pt: ProcessType, s: Seq<char>)
    ensures
        chain_variants(reg, single_bits(pt.spec_bits()), s, false)[0] == s,
        chain_variants(reg, single_bits(pt.spec_bits()), s, false).last() == chain_text(
            reg,
            single_bits(pt.spec_bits()),
            s,
        ),
        chain_variants(reg, single_bits(pt.spec_bits()), s, false).len() <= 1 + steps_besides_raw(pt),
        forall|i: int|
            1 <= i < chain_variants(reg, single_bits(pt.spec_bits()), s, false).len()
                ==> #[trigger] chain_variants(reg, single_bits(pt.spec_bits()), s, false)[i]
                != chain_variants(reg, single_bits(pt.spec_bits()), s, false)[i - 1],
{
    let bits = single_bits(pt.spec_bits());
    lemma_full_record(reg, bits, s);
    crate::process_type::lemma_single_bits_sorted(pt.spec_bits());
    lemma_non_raw_count(bits);
}

/// The text a `Cow` holds.
fn cow_str<'b, 'a>(c: &'b Cow<'a, str>) -> (r: &'b str)
    ensures
        r@ == c@,
{
    match c {
        Cow::Borrowed(b) => b,
        Cow::Owned(o) => o.as_str(),
    }
}

/// Replaces the current value of a `Cow` with an owned `String`.
fn replace_cow<'a>(current: &mut Cow<'a, str>, next: String)
    ensures
        *final(current) == Cow::<'a, str>::Owned(next),
{
    *current = Cow::Owned(next);
}

/// Applies the composite pipeline `process_type` to `text`: each single-bit
/// step in ascending bit order. When no step changes the text the result
/// borrows `text`.
pub fn text_process<'a>(registry: &TransformRegistry, process_type: ProcessType, text: &'a str) -> (r:
    Cow<'a, str>)
    requires
        process_type.spec_bits() < 0x80,
    ensures
        r@ == chain_text(registry, single_bits(process_type.spec_bits()), text@),
        r is Borrowed <==> !chain_changes(registry, single_bits(process_type.spec_bits()), text@),
        r is Borrowed ==> r == Cow::<'a, str>::Borrowed(text),
{
    let bits = process_type.iter();
    let ghost sb = single_bits(process_type.spec_bits());
    proof {
        lemma_single_bits_are_steps(process_type.spec_bits());
        assert(sb.take(0) =~= Seq::<u8>::empty());
    }
    let mut result: Cow<'a, str> = Cow::Borrowed(text);
    let mut i: usize = 0;
    while i < bits.len()
        invariant
            bits@.len() == sb.len(),
            forall|j: int| 0 <= j < bits@.len() ==> #[trigger] bits@[j].spec_bits() == sb[j],
            forall|j: int| 0 <= j < sb.len() ==> is_step_bit(#[trigger] sb[j]),
            i <= bits@.len(),
            result@ == chain_text(registry, sb.take(i as int), text@),
            result is Borrowed <==> !chain_changes(registry, sb.take(i as int), text@),
            result is Borrowed ==> result == Cow::<'a, str>::Borrowed(text),
        decreases bits@.len() - i,
    {
        let cur = cow_str(&result);
        let is_ascii = cur.is_ascii();
        let step = registry.get_transform_step(bits[i]);
        let changed = step.apply(cur, is_ascii);
        proof {
            assert(sb.take(i + 1).drop_last() =~= sb.take(i as int));
            assert(sb.take(i + 1).last() == sb[i as int]);
            if changed is None {
                step.lemma_unchanged(result@);
            }
        }
        match changed {
            Some(s) => replace_cow(&mut result, s),
            None => {},
        }
        i += 1;
    }
    proof {
        assert(sb.take(bits@.len() as int) =~= sb);
    }
    result
}

/// Runs the pipeline and records the texts along the way (see
/// [`chain_variants`]).
fn reduce_text_process_inner<'a>(
    registry: &TransformRegistry,
    process_type: ProcessType,
    text: &'a str,
    overwrite_replace: bool,
) -> (r: Vec<Cow<'a, str>>)
    requires
        process_type.spec_bits() < 0x80,
    ensures
        cow_views(r@) == chain_variants(
            registry,
            single_bits(process_type.spec_bits()),
            text@,
            overwrite_replace,
        ),
        !overwrite_replace ==> r@[0] == Cow::<'a, str>::Borrowed(text),
{
    let bits = process_type.iter();
    let ghost sb = single_bits(process_type.spec_bits());
    let mut text_list: Vec<Cow<'a, str>> = Vec::new();
    text_list.push(Cow::Borrowed(text));
    proof {
        lemma_single_bits_are_steps(process_type.spec_bits());
        assert(sb.take(0) =~= Seq::<u8>::empty());
        assert(cow_views(text_list@) =~= seq![text@]);
    }
    let mut i: usize = 0;
    while i < bits.len()
        invariant
            bits@.len() == sb.len(),
            forall|j: int| 0 <= j < bits@.len() ==> #[trigger] bits@[j].spec_bits() == sb[j],
            forall|j: int| 0 <= j < sb.len() ==> is_step_bit(#[trigger] sb[j]),
            i <= bits@.len(),
            text_list@.len() >= 1,
            cow_views(text_list@) == chain_variants(
                registry,
                sb.take(i as int),
                text@,
                overwrite_replace,
            ),
            !overwrite_replace ==> text_list@[0] == Cow::<'a, str>::Borrowed(text),
        decreases bits@.len() - i,
    {
        let last = text_list.len() - 1;
        let cur = cow_str(&text_list[last]);
        let is_ascii = cur.is_ascii();
        let bit = bits[i];
        let step = registry.get_transform_step(bit);
        let changed = step.apply(cur, is_ascii);
        let ghost before = text_list@;
        proof {
            assert(sb.take(i + 1).drop_last() =~= sb.take(i as int));
            assert(sb.take(i + 1).last() == sb[i as int]);
            assert(cow_views(before).last() == before.last()@);
        }
        let differs = match &changed {
            Some(s) => !same_text(cur, s.as_str()),
            None => false,
        };
        proof {
            if changed is None {
                step.lemma_unchanged(cur@);
            }
        }
        match changed {
            Some(s) if differs => {
                if overwrite_replace && bit.bits() != 0x04 {
                    text_list.set(last, Cow::Owned(s));
                    proof {
                        assert(cow_views(text_list@) =~= cow_views(before).update(
                            last as int,
                            text_list@[last as int]@,
                        ));
                    }
                } else {
                    text_list.push(Cow::Owned(s));
                    proof {
                        assert(cow_views(text_list@) =~= cow_views(before).push(
                            text_list@[before.len() as int]@,
                        ));
                    }
                }
            },
            _ => {},
        }
        i += 1;
    }
    proof {
        assert(sb.take(bits@.len() as int) =~= sb);
    }
    text_list
}

/// Runs the pipeline on `text` and records every change: the first entry is
/// `text` itself, each later one the output of a step that changed the text,
/// so the last entry is the fully transformed text.
pub fn reduce_text_process<'a>(
    registry: &TransformRegistry,
    process_type: ProcessType,
    text: &'a str,
) -> (r: Vec<Cow<'a, str>>)
    requires
        process_type.spec_bits() < 0x80,
    ensures
        cow_views(r@) == chain_variants(
            registry,
            single_bits(process_type.spec_bits()),
            text@,
            false,
        ),
        r@[0] == Cow::<'a, str>::Borrowed(text),
{
    reduce_text_process_inner(registry, process_type, text, false)
}

/// Like [`reduce_text_process`], but a replace-style step overwrites the last
/// entry in place; only `Delete` appends, since deletion changes which
/// characters become adjacent.
pub fn reduce_text_process_emit<'a>(
    registry: &TransformRegistry,
    process_type: ProcessType,
    text: &'a str,
) -> (r: Vec<Cow<'a, str>>)
    requires
        process_type.spec_bits() < 0x80,
    ensures
        cow_views(r@) == chain_variants(
            registry,
            single_bits(process_type.spec_bits()),
            text@,
            true,
        ),
{
    reduce_text_process_inner(registry, process_type, text, true)
}

} // verus!
