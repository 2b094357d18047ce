//! Multi-pattern text matching with configurable text transformations.
//!
//! Texts run through pipelines of transformation steps (CJK variant
//! normalization, deletion, Unicode normalization, romanization, emoji
//! naming) selected by a [`ProcessType`]; the matchers then test the
//! transformed variants.
pub mod api;
pub mod builder;
pub mod delete;
pub mod filter;
pub mod graph;
pub mod matcher;
pub mod normalize;
pub mod page_table;
pub mod process_type;
pub mod regex_matcher;
pub mod romanize;
pub mod sim_matcher;
pub mod simd;
pub mod source_map;
pub mod step;
pub mod utf8;
pub mod variant_norm;
pub mod walk;

pub use api::{reduce_text_process, reduce_text_process_emit, text_process};
pub use builder::{SimpleMatcherBuilder, SimpleResult};
pub use graph::{build_process_type_tree, ProcessTypeBitNode};
pub use matcher::{
    merge_word_matches, plan_matcher, MatchHit, MatchTable, MatchTableType, MatcherPlan,
    TextMatcherTrait, WordTableConf,
};
pub use process_type::ProcessType;
pub use regex_matcher::{RegexMatchType, RegexMatcher, RegexResult, RegexTable};
pub use sim_matcher::SimMatchType;
pub use simd::{simd_ascii_delete_mask, skip_ascii_simd, skip_non_digit_ascii_simd};
pub use step::{TransformRegistry, TransformStep};
pub use walk::{walk_process_tree, walk_process_tree_lazy, TextVariant, VariantLog, VariantVisitor};
