//! Compiled single-step transforms and the registry that holds one per
//! [`ProcessType`] bit.
//!
//! Each [`TransformStep`] wraps one engine and offers a uniform
//! [`apply`](TransformStep::apply): `None` when the input is unaffected, the
//! transformed text otherwise.
use vstd::prelude::*;
use vstd::utf8::is_ascii_chars;

use crate::delete::DeleteMatcher;
use crate::filter::{filter_changes, filter_chars, lemma_filter_identity};
use crate::normalize::NormalizeMatcher;
use crate::process_type::ProcessType;
use crate::romanize::RomanizeMatcher;
use crate::variant_norm::VariantNormMatcher;

verus! {

/// One compiled single-bit transformation step.
pub enum TransformStep {
    /// Raw-text path; leaves the input unchanged.
    Raw,
    /// CJK variant normalization by page-table lookup.
    VariantNorm(VariantNormMatcher),
    /// Codepoint deletion by bitset.
    Delete(DeleteMatcher),
    /// Unicode normalization by page-table lookup.
    Normalize(NormalizeMatcher),
    /// CJK romanization with space-separated syllables.
    Romanize(RomanizeMatcher),
    /// CJK romanization without the separating spaces.
    RomanizeChar(RomanizeMatcher),
    /// Emoji to English words.
    EmojiNorm(RomanizeMatcher),
}

impl TransformStep {
    /// Whether this step changes `s`.
    pub open spec fn spec_changes(&self, s: Seq<char>) -> bool {
        match self {
            TransformStep::Raw => false,
            TransformStep::VariantNorm(m) => filter_changes(m, s),
            TransformStep::Delete(m) => filter_changes(m, s),
            TransformStep::Normalize(m) => filter_changes(m, s),
            TransformStep::Romanize(m) => filter_changes(m, s),
            TransformStep::RomanizeChar(m) => filter_changes(m, s),
            TransformStep::EmojiNorm(m) => filter_changes(m, s),
        }
    }

    /// What this step makes of `s`.
    pub open spec fn spec_transform(&self, s: Seq<char>) -> Seq<char> {
        match self {
            TransformStep::Raw => s,
            TransformStep::VariantNorm(m) => filter_chars(m, s),
            TransformStep::Delete(m) => filter_chars(m, s),
            TransformStep::Normalize(m) => filter_chars(m, s),
            TransformStep::Romanize(m) => filter_chars(m, s),
            TransformStep::RomanizeChar(m) => filter_chars(m, s),
            TransformStep::EmojiNorm(m) => filter_chars(m, s),
        }
    }

    /// The steps that never act on an ASCII character.
    pub open spec fn spec_noop_on_ascii(&self) -> bool {
        match self {
            TransformStep::Delete(_) | TransformStep::Normalize(_) => false,
            _ => true,
        }
    }

    /// A step that does not change `s` leaves it as it is.
    pub proof fn lemma_unchanged(&self, s: Seq<char>)
        requires
            !self.spec_changes(s),
        ensures
            self.spec_transform(s) == s,
    {
        match self {
            TransformStep::Raw => {},
            TransformStep::VariantNorm(m) => lemma_filter_identity(m, s),
            TransformStep::Delete(m) => lemma_filter_identity(m, s),
            TransformStep::Normalize(m) => lemma_filter_identity(m, s),
            TransformStep::Romanize(m) => lemma_filter_identity(m, s),
            TransformStep::RomanizeChar(m) => lemma_filter_identity(m, s),
            TransformStep::EmojiNorm(m) => lemma_filter_identity(m, s),
        }
    }

    /// A step that is a no-op on ASCII input changes no ASCII text.
    pub proof fn lemma_noop_on_ascii(&self, s: Seq<char>)
        requires
            self.spec_noop_on_ascii(),
            is_ascii_chars(s),
        ensures
            !self.spec_changes(s),
    {
        assert forall|i: int| 0 <= i < s.len() implies (#[trigger] s[i] as u32) < 0x80 by {
            assert('\0' <= s[i] <= '\u{7f}');
        }
    }

    /// Whether this step is guaranteed to be a no-op on ASCII input: the
    /// page-table replacements only have non-ASCII keys, while deletion and
    /// normalization may change ASCII text.
    pub fn is_noop_on_ascii_input(&self) -> (r: bool)
        ensures
            r == self.spec_noop_on_ascii(),
            r ==> forall|s: Seq<char>| is_ascii_chars(s) ==> !self.spec_changes(s),
    {
        let r = match self {
            TransformStep::Delete(_) | TransformStep::Normalize(_) => false,
            _ => true,
        };
        proof {
            if r {
                assert forall|s: Seq<char>| is_ascii_chars(s) implies !self.spec_changes(s) by {
                    self.lemma_noop_on_ascii(s);
                }
            }
        }
        r
    }

    /// Applies this step to `text`: `None` when the step leaves it unchanged,
    /// the transformed text otherwise. `parent_is_ascii` says that `text` is
    /// all ASCII, which lets the steps that cannot act on ASCII return at once.
    pub fn apply(&self, text: &str, parent_is_ascii: bool) -> (r: Option<String>)
        requires
            parent_is_ascii ==> is_ascii_chars(text@),
        ensures
            r is None <==> !self.spec_changes(text@),
            r matches Some(t) ==> t@ == self.spec_transform(text@),
    {
        if parent_is_ascii {
            match self {
                TransformStep::Delete(m) => {
                    return m.delete(text);
                },
                TransformStep::Normalize(m) => {
                    return match m.replace(text) {
                        Some((t, _)) => Some(t),
                        None => None,
                    };
                },
                _ => {
                    proof {
                        self.lemma_noop_on_ascii(text@);
                    }
                    return None;
                },
            }
        }
        match self {
            TransformStep::Raw => None,
            TransformStep::VariantNorm(m) => m.replace(text),
            TransformStep::Delete(m) => m.delete(text),
            TransformStep::Normalize(m) => match m.replace(text) {
                Some((t, _)) => Some(t),
                None => None,
            },
            TransformStep::Romanize(m) => m.replace(text),
            TransformStep::RomanizeChar(m) => m.replace(text),
            TransformStep::EmojiNorm(m) => m.replace(text),
        }
    }
}

/// The slot of the registry that holds the step of single-bit value `bit`:
/// its bit position.
pub open spec fn bit_slot(bit: u8) -> int {
    if bit == 0x01 {
        0
    } else if bit == 0x02 {
        1
    } else if bit == 0x04 {
        2
    } else if bit == 0x08 {
        3
    } else if bit == 0x10 {
        4
    } else if bit == 0x20 {
        5
    } else {
        6
    }
}

/// Whether `bit` is one of the seven named single-bit values.
pub open spec fn is_step_bit(bit: u8) -> bool {
    bit == 0x01 || bit == 0x02 || bit == 0x04 || bit == 0x08 || bit == 0x10 || bit == 0x20 || bit
        == 0x40
}

/// The compiled steps, one per named [`ProcessType`] bit.
pub struct TransformRegistry {
    steps: Vec<TransformStep>,
}

impl TransformRegistry {
    /// Slot `i` holds the step of bit `i`, of the matching kind.
    #[verifier::type_invariant]
    spec fn slots_in_order(self) -> bool {
        &&& self.steps@.len() == 7
        &&& self.steps@[0] is Raw
        &&& self.steps@[1] is VariantNorm
        &&& self.steps@[2] is Delete
        &&& self.steps@[3] is Normalize
        &&& self.steps@[4] is Romanize
        &&& self.steps@[5] is RomanizeChar
        &&& self.steps@[6] is EmojiNorm
    }

    /// The step held in the slot of single-bit value `bit`.
    pub closed spec fn slot(&self, bit: u8) -> TransformStep {
        self.steps@[bit_slot(bit)]
    }

    /// The step that runs for single-bit value `bit`; the `Raw` bit always
    /// leaves the text as it is.
    pub open spec fn step(&self, bit: u8) -> TransformStep {
        if bit == 0x01 {
            TransformStep::Raw
        } else {
            self.slot(bit)
        }
    }

    /// Assembles the registry from the compiled engines.
    pub fn new(
        variant_norm: VariantNormMatcher,
        delete: DeleteMatcher,
        normalize: NormalizeMatcher,
        romanize: RomanizeMatcher,
        romanize_char: RomanizeMatcher,
        emoji_norm: RomanizeMatcher,
    ) -> (r: Self)
        ensures
            r.step(0x01) == TransformStep::Raw,
            r.step(0x02) == TransformStep::VariantNorm(variant_norm),
            r.step(0x04) == TransformStep::Delete(delete),
            r.step(0x08) == TransformStep::Normalize(normalize),
            r.step(0x10) == TransformStep::Romanize(romanize),
            r.step(0x20) == TransformStep::RomanizeChar(romanize_char),
            r.step(0x40) == TransformStep::EmojiNorm(emoji_norm),
    {
        let mut steps: Vec<TransformStep> = Vec::new();
        steps.push(TransformStep::Raw);
        steps.push(TransformStep::VariantNorm(variant_norm));
        steps.push(TransformStep::Delete(delete));
        steps.push(TransformStep::Normalize(normalize));
        steps.push(TransformStep::Romanize(romanize));
        steps.push(TransformStep::RomanizeChar(romanize_char));
        steps.push(TransformStep::EmojiNorm(emoji_norm));
        TransformRegistry { steps }
    }

    /// The compiled step for a single-bit [`ProcessType`].
    pub fn get_transform_step(&self, process_type_bit: ProcessType) -> (r: &TransformStep)
        requires
            is_step_bit(process_type_bit.spec_bits()),
        ensures
            *r == self.step(process_type_bit.spec_bits()),
    {
        proof {
            use_type_invariant(self);
        }
        let bit = process_type_bit.bits();
        let slot: usize = if bit == 0x01 {
            0
        } else if bit == 0x02 {
            1
        } else if bit == 0x04 {
            2
        } else if bit == 0x08 {
            3
        } else if bit == 0x10 {
            4
        } else if bit == 0x20 {
            5
        } else {
            6
        };
        &self.steps[slot]
    }
}

} // verus!
