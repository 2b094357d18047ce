//! Delete engine backed by a Unicode bitset.
//!
//! [`DeleteMatcher`] holds a flat bitset over codepoints (bit `cp % 8` of byte
//! `cp / 8` marks `cp` for deletion) plus a 16-byte copy of its first 128
//! bits, which lets runs of kept ASCII bytes be skipped in bulk. A codepoint
//! past the end of the bitset is kept.
//!
//! [`DeleteMatcher::delete`] scans in two phases: it seeks the first deletable
//! character, then copies the kept spans between deleted characters.
use vstd::prelude::*;
use vstd::utf8::*;

use crate::filter::{
    filter_changes, filter_chars, lemma_filter_keep_run, lemma_filter_push, unit_chars,
    CodepointFilter, FilterAction, FilterIterator,
};
use crate::simd::{ascii_delete_contains, lut_contains, skip_ascii_non_delete_simd};
use crate::utf8::{
    at_char, decode_utf8_raw, lemma_ascii_run, lemma_at_char_between, lemma_at_char_end,
    lemma_at_char_start, lemma_at_char_step, lemma_char_bytes_shape, lemma_encode_utf8_append,
    string_from_utf8,
};

verus! {

/// Whether bit `cp % 8` of byte `cp / 8` of `bits` is set; a codepoint past
/// the end of `bits` is not marked.
pub open spec fn bitset_contains(bits: Seq<u8>, cp: u32) -> bool {
    (cp / 8) < bits.len() && (bits[(cp / 8) as int] & (1u8 << (cp % 8) as u8)) != 0
}

/// Tests bit `cp` of `bits`.
fn bit_is_set(bits: &[u8], cp: u32) -> (r: bool)
    ensures
        r == bitset_contains(bits@, cp),
{
    let idx = (cp / 8) as usize;
    if idx < bits.len() {
        let shift = (cp % 8) as u8;
        (bits[idx] & (1u8 << shift)) != 0
    } else {
        false
    }
}

/// The 16-byte ASCII cache of a bitset: its first 16 bytes, zero past its end.
pub open spec fn ascii_lut_of(bits: Seq<u8>, lut: Seq<u8>) -> bool {
    &&& lut.len() == 16
    &&& forall|i: int|
        0 <= i < 16 ==> #[trigger] lut[i] == if i < bits.len() {
            bits[i]
        } else {
            0u8
        }
}

/// The ASCII cache answers for ASCII bytes exactly as the bitset does.
proof fn lemma_lut_agrees(bits: Seq<u8>, lut: Seq<u8>, byte: u8)
    requires
        ascii_lut_of(bits, lut),
        byte < 0x80,
    ensures
        lut_contains(byte, lut) == bitset_contains(bits, byte as u32),
{
    let cp = byte as u32;
    assert((byte >> 3u8) as u32 == cp / 8 && (byte & 7u8) == (cp % 8) as u8 && (byte >> 3u8) < 16)
        by (bit_vector)
        requires
            byte < 0x80,
            cp == byte as u32,
    ;
    let idx = (byte >> 3u8) as int;
    if idx >= bits.len() {
        let sh = byte & 7u8;
        assert(0u8 & (1u8 << sh) == 0) by (bit_vector);
    }
}

/// Bitset-backed matcher for the delete transform.
pub struct DeleteMatcher {
    bitset: Vec<u8>,
    ascii_lut: [u8; 16],
}

impl DeleteMatcher {
    /// The ASCII cache always mirrors the bitset.
    #[verifier::type_invariant]
    spec fn lut_mirrors_bitset(self) -> bool {
        ascii_lut_of(self.bitset@, self.ascii_lut@)
    }

    /// The bitset of deletable codepoints.
    pub closed spec fn bits(&self) -> Seq<u8> {
        self.bitset@
    }

    /// Whether codepoint `cp` is deleted.
    pub open spec fn deletes(&self, cp: u32) -> bool {
        bitset_contains(self.bits(), cp)
    }
}

impl CodepointFilter for DeleteMatcher {
    open spec fn spec_buffer(&self) -> Seq<u8> {
        Seq::empty()
    }

    open spec fn spec_action(&self, cp: u32) -> FilterAction {
        if self.deletes(cp) {
            FilterAction::Delete
        } else {
            FilterAction::Keep
        }
    }

    open spec fn spec_keeps_ascii(&self) -> bool {
        false
    }

    fn buffer(&self) -> (r: &[u8]) {
        let empty: &[u8] = &[];
        assert(empty@ =~= Seq::<u8>::empty());
        empty
    }

    fn keeps_ascii(&self) -> (r: bool) {
        false
    }

    fn filter_ascii(&self, byte: u8) -> (r: FilterAction) {
        proof {
            use_type_invariant(self);
            lemma_lut_agrees(self.bitset@, self.ascii_lut@, byte);
        }
        if ascii_delete_contains(byte, &self.ascii_lut) {
            FilterAction::Delete
        } else {
            FilterAction::Keep
        }
    }

    fn filter_codepoint(&self, cp: u32) -> (r: FilterAction) {
        if bit_is_set(self.bitset.as_slice(), cp) {
            FilterAction::Delete
        } else {
            FilterAction::Keep
        }
    }

    proof fn lemma_action_wf(&self, cp: u32) {
    }
}

/// The bytes between two cursors over kept characters extend the encoded
/// output of the first prefix to that of the second.
proof fn lemma_kept_span(
    m: &DeleteMatcher,
    chars: Seq<char>,
    bytes: Seq<u8>,
    o1: int,
    k1: int,
    o2: int,
    k2: int,
)
    requires
        at_char(chars, bytes, o1, k1),
        at_char(chars, bytes, o2, k2),
        k1 <= k2,
        forall|j: int| k1 <= j < k2 ==> !m.deletes(#[trigger] chars[j] as u32),
    ensures
        o1 <= o2,
        encode_utf8(filter_chars(m, chars.take(k2))) == encode_utf8(filter_chars(m, chars.take(k1)))
            + bytes.subrange(o1, o2),
{
    lemma_at_char_between(chars, bytes, o1, k1, o2, k2);
    assert forall|j: int| k1 <= j < k2 implies m.spec_action(#[trigger] chars[j] as u32)
        == FilterAction::Keep by {
        assert(!m.deletes(chars[j] as u32));
    }
    lemma_filter_keep_run(m, chars, k1, k2);
    lemma_encode_utf8_append(filter_chars(m, chars.take(k1)), chars.subrange(k1, k2));
}

/// A deleted character adds nothing to the output.
proof fn lemma_deleted_char(m: &DeleteMatcher, chars: Seq<char>, k: int)
    requires
        0 <= k < chars.len(),
        m.deletes(chars[k] as u32),
    ensures
        filter_chars(m, chars.take(k + 1)) == filter_chars(m, chars.take(k)),
{
    assert(chars.take(k + 1) =~= chars.take(k).push(chars[k]));
    lemma_filter_push(m, chars.take(k), chars[k]);
    assert(filter_chars(m, chars.take(k)) + Seq::<char>::empty() =~= filter_chars(
        m,
        chars.take(k),
    ));
}

/// Deleting characters from an ASCII text leaves an ASCII text.
pub proof fn lemma_delete_keeps_ascii(m: &DeleteMatcher, s: Seq<char>)
    requires
        is_ascii_chars(s),
    ensures
        is_ascii_chars(filter_chars(m, s)),
    decreases s.len(),
{
    if s.len() > 0 {
        let init = s.drop_last();
        assert forall|i: int| 0 <= i < init.len() implies '\0' <= #[trigger] init[i] <= '\u{7f}' by {
            assert(init[i] == s[i]);
        }
        lemma_delete_keeps_ascii(m, init);
        let prev = filter_chars(m, init);
        let unit = unit_chars(m.spec_action(s.last() as u32), m.spec_buffer(), s.last());
        assert(filter_chars(m, s) == prev + unit);
        assert forall|i: int| 0 <= i < (prev + unit).len() implies '\0' <= #[trigger] (prev
            + unit)[i] <= '\u{7f}' by {
            if i >= prev.len() {
                assert(unit[i - prev.len()] == s[s.len() - 1]);
            }
        }
    }
}

impl DeleteMatcher {
    /// Scans from the cursor at `offset` (before character `k`) for the first
    /// deletable character. Returns its byte offset and index, or the end of
    /// the text when every remaining character is kept.
    fn seek_first_deletable(
        &self,
        bytes: &[u8],
        offset: usize,
        chars: Ghost<Seq<char>>,
        k: Ghost<int>,
    ) -> (r: (usize, Ghost<int>))
        requires
            bytes@ == encode_utf8(chars@),
            at_char(chars@, bytes@, offset as int, k@),
        ensures
            k@ <= r.1@ <= chars@.len(),
            at_char(chars@, bytes@, r.0 as int, r.1@),
            forall|j: int| k@ <= j < r.1@ ==> !self.deletes(#[trigger] chars@[j] as u32),
            r.1@ < chars@.len() ==> self.deletes(chars@[r.1@] as u32),
    {
        proof {
            use_type_invariant(self);
        }
        let len = bytes.len();
        let mut offset = offset;
        let ghost mut kk = k@;
        loop
            invariant
                bytes@ == encode_utf8(chars@),
                len == bytes@.len(),
                ascii_lut_of(self.bitset@, self.ascii_lut@),
                k@ <= kk,
                at_char(chars@, bytes@, offset as int, kk),
                forall|j: int| k@ <= j < kk ==> !self.deletes(#[trigger] chars@[j] as u32),
            decreases len - offset,
        {
            if offset >= len {
                proof {
                    lemma_at_char_end(chars@, bytes@, offset as int, kk);
                }
                return (len, Ghost(kk));
            }
            proof {
                lemma_at_char_end(chars@, bytes@, offset as int, kk);
                lemma_at_char_step(chars@, bytes@, offset as int, kk);
                lemma_char_bytes_shape(chars@[kk]);
            }
            let byte = bytes[offset];
            if byte < 0x80 {
                proof {
                    lemma_lut_agrees(self.bitset@, self.ascii_lut@, byte);
                }
                if ascii_delete_contains(byte, &self.ascii_lut) {
                    return (offset, Ghost(kk));
                }
                offset += 1;
                proof {
                    kk = kk + 1;
                }
                let r = skip_ascii_non_delete_simd(bytes, offset, &self.ascii_lut);
                proof {
                    let o = offset as int;
                    lemma_ascii_run(chars@, bytes@, o, kk, r as int);
                    assert forall|j: int| k@ <= j < kk + (r - o) implies !self.deletes(
                        #[trigger] chars@[j] as u32,
                    ) by {
                        if j >= kk {
                            let b = bytes@[o + (j - kk)];
                            lemma_lut_agrees(self.bitset@, self.ascii_lut@, b);
                            assert(chars@[j] as u32 == b);
                        }
                    }
                    kk = kk + (r - o);
                }
                offset = r;
            } else {
                let (cp, char_len) = decode_utf8_raw(bytes, offset);
                if bit_is_set(self.bitset.as_slice(), cp) {
                    return (offset, Ghost(kk));
                }
                offset += char_len;
                proof {
                    kk = kk + 1;
                }
            }
        }
    }

    /// Whether `text` holds a deletable character. Never allocates.
    pub fn has_deletable(&self, text: &str) -> (r: bool)
        ensures
            r == filter_changes(self, text@),
    {
        let bytes = text.as_bytes();
        proof {
            lemma_at_char_start(text@, bytes@);
        }
        let found = self.seek_first_deletable(bytes, 0, Ghost(text@), Ghost(0));
        let offset = found.0;
        let ghost k = found.1@;
        proof {
            lemma_at_char_end(text@, bytes@, offset as int, k);
            if k == text@.len() {
                assert forall|j: int| 0 <= j < text@.len() implies self.spec_action(
                    #[trigger] text@[j] as u32,
                ) == FilterAction::Keep by {
                    assert(!self.deletes(text@[j] as u32));
                }
            } else {
                assert(self.spec_action(text@[k] as u32) != FilterAction::Keep);
            }
        }
        offset < bytes.len()
    }

    /// Removes every deletable character from `text`. Returns `None` when
    /// nothing was deleted.
    pub fn delete(&self, text: &str) -> (r: Option<String>)
        ensures
            r is None <==> !filter_changes(self, text@),
            r matches Some(s) ==> s@ == filter_chars(self, text@),
    {
        proof {
            use_type_invariant(self);
        }
        let bytes = text.as_bytes();
        let ghost chars = text@;
        let len = bytes.len();
        proof {
            lemma_at_char_start(chars, bytes@);
        }
        let found = self.seek_first_deletable(bytes, 0, Ghost(chars), Ghost(0));
        let first = found.0;
        let ghost fk = found.1@;
        if first >= len {
            proof {
                lemma_at_char_end(chars, bytes@, first as int, fk);
                assert forall|j: int| 0 <= j < chars.len() implies self.spec_action(
                    #[trigger] chars[j] as u32,
                ) == FilterAction::Keep by {
                    assert(!self.deletes(chars[j] as u32));
                }
            }
            return None;
        }
        proof {
            lemma_at_char_end(chars, bytes@, first as int, fk);
            lemma_at_char_step(chars, bytes@, first as int, fk);
            lemma_char_bytes_shape(chars[fk]);
            assert(self.spec_action(chars[fk] as u32) != FilterAction::Keep);
            assert(filter_changes(self, chars));
            assert(chars.take(0) =~= Seq::<char>::empty());
            assert(encode_utf8(Seq::<char>::empty()) =~= Seq::<u8>::empty());
            assert(filter_chars(self, Seq::<char>::empty()) =~= Seq::<char>::empty());
            lemma_kept_span(self, chars, bytes@, 0, 0, first as int, fk);
            assert(bytes@.subrange(0, first as int) =~= Seq::<u8>::empty() + bytes@.subrange(
                0,
                first as int,
            ));
            lemma_deleted_char(self, chars, fk);
        }
        let mut out: Vec<u8> = Vec::new();
        out.extend_from_slice(&bytes[0..first]);
        let mut offset = first;
        if bytes[first] < 0x80 {
            offset += 1;
        } else {
            let (_, char_len) = decode_utf8_raw(bytes, first);
            offset += char_len;
        }
        let ghost mut kk = fk + 1;
        let mut gap_start = offset;
        let ghost mut gk = kk;
        while offset < len
            invariant
                bytes@ == encode_utf8(chars),
                chars == text@,
                len == bytes@.len(),
                ascii_lut_of(self.bitset@, self.ascii_lut@),
                gk <= kk,
                at_char(chars, bytes@, offset as int, kk),
                at_char(chars, bytes@, gap_start as int, gk),
                forall|j: int| gk <= j < kk ==> !self.deletes(#[trigger] chars[j] as u32),
                out@ == encode_utf8(filter_chars(self, chars.take(gk))),
            decreases len - offset,
        {
            proof {
                lemma_at_char_end(chars, bytes@, offset as int, kk);
                lemma_at_char_step(chars, bytes@, offset as int, kk);
                lemma_char_bytes_shape(chars[kk]);
            }
            let byte = bytes[offset];
            let deleted;
            let char_len;
            if byte < 0x80 {
                proof {
                    lemma_lut_agrees(self.bitset@, self.ascii_lut@, byte);
                }
                deleted = ascii_delete_contains(byte, &self.ascii_lut);
                char_len = 1;
            } else {
                let (cp, n) = decode_utf8_raw(bytes, offset);
                deleted = bit_is_set(self.bitset.as_slice(), cp);
                char_len = n;
            }
            if deleted {
                proof {
                    lemma_kept_span(
                        self,
                        chars,
                        bytes@,
                        gap_start as int,
                        gk,
                        offset as int,
                        kk,
                    );
                    lemma_deleted_char(self, chars, kk);
                }
                out.extend_from_slice(&bytes[gap_start..offset]);
                offset += char_len;
                gap_start = offset;
                proof {
                    kk = kk + 1;
                    gk = kk;
                }
            } else if byte < 0x80 {
                offset += 1;
                proof {
                    kk = kk + 1;
                }
                let r = skip_ascii_non_delete_simd(bytes, offset, &self.ascii_lut);
                proof {
                    let o = offset as int;
                    lemma_ascii_run(chars, bytes@, o, kk, r as int);
                    assert forall|j: int| gk <= j < kk + (r - o) implies !self.deletes(
                        #[trigger] chars[j] as u32,
                    ) by {
                        if j >= kk {
                            let b = bytes@[o + (j - kk)];
                            lemma_lut_agrees(self.bitset@, self.ascii_lut@, b);
                            assert(chars[j] as u32 == b);
                        }
                    }
                    kk = kk + (r - o);
                }
                offset = r;
            } else {
                offset += char_len;
                proof {
                    kk = kk + 1;
                }
            }
        }
        proof {
            lemma_at_char_end(chars, bytes@, offset as int, kk);
            lemma_kept_span(self, chars, bytes@, gap_start as int, gk, len as int, kk);
            assert(chars.take(chars.len() as int) =~= chars);
        }
        let ghost out_before = out@;
        out.extend_from_slice(&bytes[gap_start..len]);
        proof {
            assert(out@ == out_before + bytes@.subrange(gap_start as int, len as int));
            assert(out@ == encode_utf8(filter_chars(self, chars)));
            encode_utf8_valid_utf8(filter_chars(self, chars));
            encode_utf8_decode_utf8(filter_chars(self, chars));
        }
        match string_from_utf8(out) {
            Some(s) => Some(s),
            None => {
                proof {
                    assert(false);
                }
                None
            },
        }
    }

    /// Streams the UTF-8 bytes of `text` without its deletable characters.
    pub fn filter_bytes<'a>(&'a self, text: &'a str) -> (r: FilterIterator<'a, DeleteMatcher>)
        ensures
            r.wf(),
            r.filter == self,
            r.chars@ == text@,
            r.produced@ == Seq::<u8>::empty(),
    {
        FilterIterator::new(text, self)
    }

    /// Builds a matcher over `bitset`, caching its first 16 bytes for ASCII.
    pub fn new(bitset: &[u8]) -> (r: Self)
        ensures
            r.bits() == bitset@,
    {
        let mut ascii_lut = [0u8; 16];
        let n = if bitset.len() < 16 {
            bitset.len()
        } else {
            16
        };
        let mut i: usize = 0;
        while i < n
            invariant
                i <= n <= 16,
                n <= bitset@.len(),
                n == bitset@.len() || n == 16,
                ascii_lut@.len() == 16,
                forall|j: int| 0 <= j < i ==> #[trigger] ascii_lut@[j] == bitset@[j],
                forall|j: int| i <= j < 16 ==> #[trigger] ascii_lut@[j] == 0u8,
            decreases n - i,
        {
            ascii_lut[i] = bitset[i];
            i += 1;
        }
        let bits = vstd::slice::slice_to_vec(bitset);
        DeleteMatcher { bitset: bits, ascii_lut }
    }
}

} // verus!
