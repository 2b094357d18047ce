# matcher_rs

Multi-pattern text matching over transformed variants of a text, written in
Verus: the transformation engines, the pipeline, the transformation trie and
the regex matcher carry machine-checked contracts.

## Layout

- `src/` — the verified library.
  - `utf8`, `simd`, `page_table` — UTF-8 cursors, byte-skip helpers and
    two-stage page tables.
  - `filter` — the per-codepoint filter model (`filter_chars`), its
    materialized (`filter_replace`) and streamed (`FilterIterator`) forms.
  - `variant_norm`, `delete`, `normalize`, `romanize` — the engines.
  - `source_map` — parsing of the plain-text source maps and the registry
    built from them.
  - `process_type`, `step`, `api` — `ProcessType`, the compiled steps and
    `text_process` / `reduce_text_process` / `reduce_text_process_emit`.
  - `graph`, `walk` — the shared-prefix trie of pipelines and the walk that
    produces one variant per distinct text, eagerly or lazily with a
    visitor that can stop it.
  - `regex_matcher`, `builder`, `sim_matcher` — the matchers' data types
    and the regex matcher.
  - `matcher` — the layer that combines the matchers: sorting match tables
    by engine (`plan_matcher`) and merging the engines' hits with the
    exemption lists (`merge_word_matches`).
- `tests/` — tests on concrete tables.
- `app/` — serde forms of the library types, loading of the compiled tables
  from disk, and the similarity matcher (floating-point scores).

## Collections

- `ProcessTypeBitNode` keeps its type list and children in `Vec`s, as the
  public node type of the transformation trie does. The walk's record of
  the mask bits already shown to a visitor is a `tinyvec::TinyVec<[u64; 8]>`;
  Verus refuses a declaration of `TinyVec` (its `Array` bound names a trait
  it cannot see), so the list sits in a private field of `MaskList`, and
  each `TinyVec` operation the walk uses is a trusted wrapper over the
  list's contents, `mask_list`.
- `build_process_type_tree` takes the composite types as a `Vec`, in the
  order that numbers the nodes. vstd's `HashSet` specification holds only
  for key types that obey its key model, which for `ProcessType` would take
  an `assume`; a hash set's walk order is not fixed either.
- The engines' `from_map` take their entries as a list, the last entry for
  a repeated codepoint winning, where the table sources are first collected
  into an `ahash` map. The replacement strings are packed in the list's
  order, so the built tables are a function of the input.
