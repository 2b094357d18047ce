//! [`ProcessType`]: the bit set that selects which text transformations run
//! before matching.
//!
//! Each bit selects one transformation step and bits compose with `|`.
//! Iterating a composite value yields its single-bit steps in ascending bit
//! order: `VariantNorm`, then `Delete`, then `Normalize`, and so on.
use vstd::prelude::*;
use vstd::std_specs::ops::BitOrSpecImpl;

verus! {

/// Bit set selecting text-transformation steps.
///
/// | Flag | Bit | Value |
/// |------|-----|-------|
/// | `Raw` | 0 | `0x01` |
/// | `VariantNorm` | 1 | `0x02` |
/// | `Delete` | 2 | `0x04` |
/// | `Normalize` | 3 | `0x08` |
/// | `Romanize` | 4 | `0x10` |
/// | `RomanizeChar` | 5 | `0x20` |
/// | `EmojiNorm` | 6 | `0x40` |
///
/// The default value has no bit set, which differs from [`ProcessType::Raw`]
/// (the explicit "raw text" flag at bit 0).
#[derive(PartialEq, Eq, Structural, Clone, Copy, Debug, Hash)]
pub struct ProcessType {
    bits: u8,
}

/// Bit mask of the flags that have a name.
pub const KNOWN_BITS: u8 = 0x7F;

/// Whether bit `i` is set in `bits`.
pub open spec fn has_bit(bits: u8, i: u8) -> bool {
    (bits >> i) & 1u8 == 1u8
}

/// The single-bit values of `bits` below bit `i`, in ascending order.
pub open spec fn single_bits_below(bits: u8, i: u8) -> Seq<u8>
    decreases i,
{
    if i == 0 {
        Seq::empty()
    } else {
        let rest = single_bits_below(bits, (i - 1) as u8);
        if has_bit(bits, (i - 1) as u8) {
            rest.push((1u8 << ((i - 1) as u8)) as u8)
        } else {
            rest
        }
    }
}

/// The single-bit values of `bits`, in ascending order.
pub open spec fn single_bits(bits: u8) -> Seq<u8> {
    single_bits_below(bits, 8)
}

/// The single-bit values below bit `n` are strictly ascending, each at least
/// one and below `2^n`.
pub proof fn lemma_single_bits_below_sorted(bits: u8, n: u8)
    requires
        n <= 8,
    ensures
        forall|i: int|
            0 <= i < single_bits_below(bits, n).len() ==> 1 <= #[trigger] single_bits_below(bits, n)[i]
                && (single_bits_below(bits, n)[i] as u32) < (1u32 << (n as u32)),
        forall|i: int, j: int|
            0 <= i < j < single_bits_below(bits, n).len() ==> #[trigger] single_bits_below(bits, n)[i]
                < #[trigger] single_bits_below(bits, n)[j],
        single_bits_below(bits, n).contains(1u8) <==> (n > 0 && has_bit(bits, 0u8)),
    decreases n,
{
    if n > 0 {
        let k = (n - 1) as u8;
        lemma_single_bits_below_sorted(bits, k);
        let rest = single_bits_below(bits, k);
        assert((1u32 << (k as u32)) <= (1u32 << (n as u32))) by (bit_vector)
            requires
                k < 8,
                n == k + 1,
        ;
        if has_bit(bits, k) {
            let e = (1u8 << k) as u8;
            assert(1 <= e && (e as u32) == (1u32 << (k as u32)) && (e as u32) < (1u32 << (n as u32))
                && (k == 0 ==> e == 1) && (k > 0 ==> e >= 2))
                by (bit_vector)
                requires
                    k < 8,
                    n == k + 1,
                    e == (1u8 << k) as u8,
            ;
            assert(single_bits_below(bits, n) == rest.push(e));
            if k == 0 {
                assert(rest =~= Seq::<u8>::empty());
                assert(rest.push(e)[0] == 1u8);
            } else {
                assert(rest.push(e).contains(1u8) ==> rest.contains(1u8)) by {
                    if rest.push(e).contains(1u8) {
                        let i = choose|i: int| 0 <= i < rest.push(e).len() && rest.push(e)[i] == 1u8;
                        assert(i < rest.len() && rest[i] == 1u8);
                    }
                }
                assert(rest.contains(1u8) ==> rest.push(e).contains(1u8)) by {
                    if rest.contains(1u8) {
                        let i = choose|i: int| 0 <= i < rest.len() && rest[i] == 1u8;
                        assert(rest.push(e)[i] == 1u8);
                    }
                }
            }
        } else {
            assert(single_bits_below(bits, n) == rest);
            if k == 0 {
                assert(rest =~= Seq::<u8>::empty());
            }
        }
    }
}

/// `Raw` alone is its single step.
pub proof fn lemma_single_bits_raw()
    ensures
        single_bits(0x01u8) == seq![0x01u8],
{
    assert((0x01u8 >> 0u8) & 1u8 == 1u8 && (1u8 << 0u8) as u8 == 1u8) by (bit_vector);
    assert(forall|k: u8| 1 <= k < 8 ==> (0x01u8 >> k) & 1u8 != 1u8) by (bit_vector);
    assert(!has_bit(1u8, 1u8) && !has_bit(1u8, 2u8) && !has_bit(1u8, 3u8) && !has_bit(1u8, 4u8)
        && !has_bit(1u8, 5u8) && !has_bit(1u8, 6u8) && !has_bit(1u8, 7u8));
    reveal_with_fuel(single_bits_below, 9);
    assert(single_bits_below(1u8, 1) =~= seq![0x01u8]);
    assert(single_bits(0x01u8) =~= seq![0x01u8]);
}

/// The single-bit values of `bits` are strictly ascending and at least one.
pub proof fn lemma_single_bits_sorted(bits: u8)
    ensures
        forall|i: int| 0 <= i < single_bits(bits).len() ==> 1 <= #[trigger] single_bits(bits)[i],
        forall|i: int, j: int|
            0 <= i < j < single_bits(bits).len() ==> #[trigger] single_bits(bits)[i]
                < #[trigger] single_bits(bits)[j],
        single_bits(bits).contains(1u8) <==> has_bit(bits, 0u8),
{
    lemma_single_bits_below_sorted(bits, 8);
}

/// The display name of the single-bit value `bit`: the flag's name in
/// snake case (`emoji_norm` for `EmojiNorm`); any other value shows as
/// `unknown`.
pub open spec fn flag_name(bit: u8) -> Seq<char> {
    if bit == 0x01 {
        "none"@
    } else if bit == 0x02 {
        "variant_norm"@
    } else if bit == 0x04 {
        "delete"@
    } else if bit == 0x08 {
        "normalize"@
    } else if bit == 0x10 {
        "romanize"@
    } else if bit == 0x20 {
        "romanize_char"@
    } else if bit == 0x40 {
        "emoji_norm"@
    } else {
        "unknown"@
    }
}

/// Whether `bit` is one of the named single flags.
pub open spec fn is_named_flag(bit: u8) -> bool {
    bit == 0x01 || bit == 0x02 || bit == 0x04 || bit == 0x08 || bit == 0x10 || bit == 0x20 || bit
        == 0x40
}

/// Whether `c` may appear in a snake-case name.
pub open spec fn is_snake_char(c: char) -> bool {
    ('a' <= c && c <= 'z') || c == '_'
}

/// Distinct named flags display under distinct names, none of them empty
/// and none `unknown`; each name is in snake case: lowercase letters and
/// underscores, neither first nor last an underscore.
pub proof fn law_flag_names_distinct(a: u8, b: u8)
    requires
        is_named_flag(a),
        is_named_flag(b),
        a != b,
    ensures
        flag_name(a) != flag_name(b),
        flag_name(a).len() > 0,
        flag_name(a) != "unknown"@,
        forall|i: int| 0 <= i < flag_name(a).len() ==> is_snake_char(#[trigger] flag_name(a)[i]),
        flag_name(a)[0] != '_' && flag_name(a).last() != '_',
{
    reveal_strlit("none");
    reveal_strlit("variant_norm");
    reveal_strlit("delete");
    reveal_strlit("normalize");
    reveal_strlit("romanize");
    reveal_strlit("romanize_char");
    reveal_strlit("emoji_norm");
    reveal_strlit("unknown");
    assert(flag_name(a).len() != flag_name(b).len());
}

/// The names of the single-bit values `bits`, joined by underscores.
pub open spec fn joined_names(bits: Seq<u8>) -> Seq<char>
    decreases bits.len(),
{
    if bits.len() == 0 {
        Seq::empty()
    } else if bits.len() == 1 {
        flag_name(bits[0])
    } else {
        joined_names(bits.drop_last()) + "_"@ + flag_name(bits.last())
    }
}

/// `bits` without the `Raw` bit when any other bit is set.
pub open spec fn normalized_bits(bits: u8) -> u8 {
    if bits & 0xFEu8 != 0 {
        bits & 0xFEu8
    } else {
        bits
    }
}

impl ProcessType {
    /// The raw bits.
    pub closed spec fn spec_bits(self) -> u8 {
        self.bits
    }

    /// Two values with the same bits are the same value.
    pub proof fn lemma_bits_eq(a: Self, b: Self)
        ensures
            a.spec_bits() == b.spec_bits() <==> a == b,
    {
    }

    /// The value with the given bits.
    pub closed spec fn spec_from_bits(bits: u8) -> Self {
        ProcessType { bits }
    }

    /// The raw bits determine the value: rebuilding a value from its own bits
    /// gives it back.
    pub proof fn law_bits_round_trip(p: Self)
        ensures
            Self::spec_from_bits(p.spec_bits()) == p,
    {
    }

    /// `spec_from_bits` gives exactly the requested bits.
    pub proof fn lemma_from_bits(bits: u8)
        ensures
            Self::spec_from_bits(bits).spec_bits() == bits,
    {
    }

    /// No transformation; match the raw input.
    #[allow(non_snake_case)]
    pub fn Raw() -> (r: ProcessType)
        ensures
            r.spec_bits() == 0x01,
    {
        ProcessType { bits: 0x01 }
    }

    /// CJK variant normalization (Traditional to Simplified Chinese, Japanese
    /// Kyujitai to Shinjitai, half-width to full-width katakana).
    #[allow(non_snake_case)]
    pub fn VariantNorm() -> (r: ProcessType)
        ensures
            r.spec_bits() == 0x02,
    {
        ProcessType { bits: 0x02 }
    }

    /// Removes the codepoints configured in the delete table.
    #[allow(non_snake_case)]
    pub fn Delete() -> (r: ProcessType)
        ensures
            r.spec_bits() == 0x04,
    {
        ProcessType { bits: 0x04 }
    }

    /// Applies the normalization replacement table.
    #[allow(non_snake_case)]
    pub fn Normalize() -> (r: ProcessType)
        ensures
            r.spec_bits() == 0x08,
    {
        ProcessType { bits: 0x08 }
    }

    /// Shorthand for `Delete | Normalize`.
    #[allow(non_snake_case)]
    pub fn DeleteNormalize() -> (r: ProcessType)
        ensures
            r.spec_bits() == 0x0C,
    {
        ProcessType { bits: 0x0C }
    }

    /// Shorthand for `VariantNorm | Delete | Normalize`.
    #[allow(non_snake_case)]
    pub fn VariantNormDeleteNormalize() -> (r: ProcessType)
        ensures
            r.spec_bits() == 0x0E,
    {
        ProcessType { bits: 0x0E }
    }

    /// CJK romanization with space-separated syllables.
    #[allow(non_snake_case)]
    pub fn Romanize() -> (r: ProcessType)
        ensures
            r.spec_bits() == 0x10,
    {
        ProcessType { bits: 0x10 }
    }

    /// CJK romanization without the separating spaces.
    #[allow(non_snake_case)]
    pub fn RomanizeChar() -> (r: ProcessType)
        ensures
            r.spec_bits() == 0x20,
    {
        ProcessType { bits: 0x20 }
    }

    /// Emoji to English words.
    #[allow(non_snake_case)]
    pub fn EmojiNorm() -> (r: ProcessType)
        ensures
            r.spec_bits() == 0x40,
    {
        ProcessType { bits: 0x40 }
    }

    /// The value with no bit set.
    pub fn empty() -> (r: Self)
        ensures
            r.spec_bits() == 0,
    {
        ProcessType { bits: 0 }
    }

    /// The raw bits.
    pub fn bits(&self) -> (r: u8)
        ensures
            r == self.spec_bits(),
    {
        self.bits
    }

    /// The value with exactly `bits`, when every set bit names a flag.
    pub fn from_bits(bits: u8) -> (r: Option<Self>)
        ensures
            bits & 0x80u8 == 0 ==> r == Some(Self::spec_from_bits(bits)),
            bits & 0x80u8 != 0 ==> r is None,
    {
        if bits & 0x80u8 == 0 {
            Some(ProcessType { bits })
        } else {
            None
        }
    }

    /// The value with exactly `bits`, unknown bits included.
    pub fn from_bits_retain(bits: u8) -> (r: Self)
        ensures
            r.spec_bits() == bits,
    {
        ProcessType { bits }
    }

    /// Whether no bit is set.
    pub fn is_empty(&self) -> (r: bool)
        ensures
            r == (self.spec_bits() == 0),
    {
        self.bits == 0
    }

    /// Whether every bit of `other` is set in `self`.
    pub fn contains(&self, other: Self) -> (r: bool)
        ensures
            r == (self.spec_bits() & other.spec_bits() == other.spec_bits()),
    {
        self.bits & other.bits == other.bits
    }

    /// The bits of either value.
    pub fn union(self, other: Self) -> (r: Self)
        ensures
            r.spec_bits() == self.spec_bits() | other.spec_bits(),
    {
        ProcessType { bits: self.bits | other.bits }
    }

    /// The single-bit steps of this value in ascending bit order.
    pub fn iter(&self) -> (r: Vec<ProcessType>)
        ensures
            r@.len() == single_bits(self.spec_bits()).len(),
            forall|i: int|
                0 <= i < r@.len() ==> #[trigger] r@[i].spec_bits() == single_bits(
                    self.spec_bits(),
                )[i],
    {
        let mut out: Vec<ProcessType> = Vec::new();
        let mut i: u8 = 0;
        let ghost bits = self.bits;
        while i < 8
            invariant
                i <= 8,
                bits == self.spec_bits(),
                out@.len() == single_bits_below(bits, i).len(),
                forall|j: int|
                    0 <= j < out@.len() ==> #[trigger] out@[j].spec_bits() == single_bits_below(
                        bits,
                        i,
                    )[j],
            decreases 8 - i,
        {
            if (self.bits >> i) & 1u8 == 1u8 {
                out.push(ProcessType { bits: 1u8 << i });
            }
            i += 1;
        }
        out
    }

    /// The names of the named flags that are set, in snake case and in
    /// ascending bit order, joined by underscores; empty when no named flag
    /// is set.
    pub fn to_string(&self) -> (r: String)
        ensures
            r@ == joined_names(single_bits(self.spec_bits() & 0x7Fu8)),
    {
        let named = ProcessType { bits: self.bits & 0x7Fu8 };
        let flags = named.iter();
        let mut out = String::new();
        let mut i: usize = 0;
        while i < flags.len()
            invariant
                i <= flags@.len(),
                flags@.len() == single_bits(named.spec_bits()).len(),
                forall|j: int|
                    0 <= j < flags@.len() ==> #[trigger] flags@[j].spec_bits() == single_bits(
                        named.spec_bits(),
                    )[j],
                out@ == joined_names(single_bits(named.spec_bits()).take(i as int)),
            decreases flags@.len() - i,
        {
            let ghost sb = single_bits(named.spec_bits());
            if i > 0 {
                out.append("_");
            }
            let bit = flags[i].bits();
            let name = if bit == 0x01 {
                "none"
            } else if bit == 0x02 {
                "variant_norm"
            } else if bit == 0x04 {
                "delete"
            } else if bit == 0x08 {
                "normalize"
            } else if bit == 0x10 {
                "romanize"
            } else if bit == 0x20 {
                "romanize_char"
            } else if bit == 0x40 {
                "emoji_norm"
            } else {
                "unknown"
            };
            assert(name@ == flag_name(bit));
            out.append(name);
            proof {
                assert(sb.take(i + 1).drop_last() =~= sb.take(i as int));
                assert(sb.take(i + 1).last() == sb[i as int]);
                if i == 0 {
                    assert(sb.take(1)[0] == sb[0]);
                    assert(Seq::<char>::empty() + flag_name(bit) =~= flag_name(bit));
                }
            }
            i += 1;
        }
        proof {
            assert(single_bits(named.spec_bits()).take(flags@.len() as int) =~= single_bits(
                named.spec_bits(),
            ));
        }
        out
    }

    /// `self` with the `Raw` bit dropped when any transformation bit is also
    /// set: `Raw` only has meaning on its own.
    pub fn normalize(self) -> (r: Self)
        ensures
            r.spec_bits() == normalized_bits(self.spec_bits()),
            self.spec_bits() & 0xFEu8 == 0 ==> r == self,
    {
        if self.bits & 0xFEu8 != 0 {
            ProcessType { bits: self.bits & 0xFEu8 }
        } else {
            self
        }
    }
}

impl core::ops::BitOr for ProcessType {
    type Output = ProcessType;

    fn bitor(self, rhs: ProcessType) -> (r: ProcessType) {
        ProcessType { bits: self.bits | rhs.bits }
    }
}

impl BitOrSpecImpl for ProcessType {
    open spec fn obeys_bitor_spec() -> bool {
        true
    }

    open spec fn bitor_req(self, rhs: ProcessType) -> bool {
        true
    }

    open spec fn bitor_spec(self, rhs: ProcessType) -> ProcessType {
        ProcessType::spec_from_bits(self.spec_bits() | rhs.spec_bits())
    }
}

impl Default for ProcessType {
    fn default() -> (r: Self)
        ensures
            r.spec_bits() == 0,
    {
        ProcessType { bits: 0 }
    }
}

} // verus!
