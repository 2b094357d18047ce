//! Two-stage page tables for per-codepoint lookup.
//!
//! - **L1** is indexed by `codepoint >> 8`. A non-zero entry is the page
//!   number in L2; zero means the 256-codepoint page has no mappings.
//! - **L2** is indexed by `page * 256 + (codepoint & 0xFF)`. A zero entry
//!   means the codepoint is unmapped.
//!
//! The stored `u32` is either a codepoint (VariantNorm) or a packed
//! `(byte_offset << 8) | byte_length` reference into a string buffer
//! (Romanize, Normalize).
use vstd::prelude::*;
use vstd::set_lib::*;
use vstd::string::StringSliceAdditionalSpecFns;
use vstd::utf8::*;

use crate::utf8::lemma_boundary_slice_valid;

verus! {

/// Number of L1 entries: one per 256-codepoint block of the Unicode range.
pub const L1_SIZE: usize = 4352;

/// The value stored for `cp`, or zero when `cp` has no entry. An L1 page
/// number that points past the end of L2 reads as unmapped.
pub open spec fn spec_slot(l1: Seq<u16>, l2: Seq<u32>, cp: u32) -> u32 {
    let page_idx = cp / 256;
    let char_idx = cp % 256;
    if page_idx >= l1.len() {
        0
    } else if l1[page_idx as int] == 0 {
        0
    } else if l1[page_idx as int] * 256 + char_idx >= l2.len() {
        0
    } else {
        l2[l1[page_idx as int] * 256 + char_idx]
    }
}

/// The mapping stored for `cp`, if any.
pub open spec fn spec_lookup(l1: Seq<u16>, l2: Seq<u32>, cp: u32) -> Option<u32> {
    if spec_slot(l1, l2, cp) == 0 {
        None
    } else {
        Some(spec_slot(l1, l2, cp))
    }
}

proof fn lemma_split_cp(cp: u32)
    by (bit_vector)
    ensures
        cp >> 8u32 == cp / 256,
        cp & 0xFFu32 == cp % 256,
{
}

/// Looks up one codepoint in a two-stage page table.
pub fn page_table_lookup(cp: u32, l1: &[u16], l2: &[u32]) -> (r: Option<u32>)
    ensures
        r == spec_lookup(l1@, l2@, cp),
{
    proof {
        lemma_split_cp(cp);
    }
    let page_idx = (cp >> 8u32) as usize;
    let char_idx = (cp & 0xFFu32) as usize;
    if page_idx >= l1.len() {
        return None;
    }
    let page = l1[page_idx] as usize;
    if page == 0 {
        return None;
    }
    if page * 256 + char_idx >= l2.len() {
        return None;
    }
    let value = l2[page * 256 + char_idx];
    if value != 0 {
        Some(value)
    } else {
        None
    }
}

/// Little-endian `u16` made of two bytes.
pub open spec fn le_u16(b0: u8, b1: u8) -> int {
    b0 + 256 * b1
}

/// Little-endian `u32` made of four bytes.
pub open spec fn le_u32(b0: u8, b1: u8, b2: u8, b3: u8) -> int {
    b0 + 256 * b1 + 65536 * b2 + 16777216 * b3
}

proof fn lemma_le_u16(b0: u8, b1: u8)
    by (bit_vector)
    ensures
        ((b0 as u16) | ((b1 as u16) << 8u16)) == b0 + 256 * b1,
{
}

proof fn lemma_le_u32(b0: u8, b1: u8, b2: u8, b3: u8)
    by (bit_vector)
    ensures
        ((b0 as u32) | ((b1 as u32) << 8u32) | ((b2 as u32) << 16u32) | ((b3 as u32) << 24u32))
            == b0 + 256 * b1 + 65536 * b2 + 16777216 * b3,
{
}

/// Decodes a little-endian byte buffer into `u16` values, two bytes each. A
/// trailing odd byte is ignored.
pub fn decode_u16_table(bytes: &[u8]) -> (r: Vec<u16>)
    ensures
        r@.len() == bytes@.len() / 2,
        forall|i: int|
            0 <= i < r@.len() ==> r@[i] == le_u16(bytes@[2 * i], bytes@[2 * i + 1]),
{
    let len = bytes.len();
    let n = len / 2;
    let mut r: Vec<u16> = Vec::with_capacity(n);
    let mut i: usize = 0;
    while i < n
        invariant
            n == bytes@.len() / 2,
            len == bytes@.len(),
            i <= n,
            r@.len() == i,
            forall|j: int| 0 <= j < i ==> r@[j] == le_u16(bytes@[2 * j], bytes@[2 * j + 1]),
        decreases n - i,
    {
        assert(2 * i + 1 < bytes@.len()) by (nonlinear_arith)
            requires
                i < n,
                n == bytes@.len() / 2,
        ;

        let b0 = bytes[2 * i];
        let b1 = bytes[2 * i + 1];
        proof {
            lemma_le_u16(b0, b1);
        }
        r.push((b0 as u16) | ((b1 as u16) << 8u16));
        i += 1;
    }
    r
}

/// Decodes a little-endian byte buffer into `u32` values, four bytes each.
/// Trailing bytes that do not fill a value are ignored.
pub fn decode_u32_table(bytes: &[u8]) -> (r: Vec<u32>)
    ensures
        r@.len() == bytes@.len() / 4,
        forall|i: int|
            0 <= i < r@.len() ==> r@[i] == le_u32(
                bytes@[4 * i],
                bytes@[4 * i + 1],
                bytes@[4 * i + 2],
                bytes@[4 * i + 3],
            ),
{
    let len = bytes.len();
    let n = len / 4;
    let mut r: Vec<u32> = Vec::with_capacity(n);
    let mut i: usize = 0;
    while i < n
        invariant
            n == bytes@.len() / 4,
            len == bytes@.len(),
            i <= n,
            r@.len() == i,
            forall|j: int|
                0 <= j < i ==> r@[j] == le_u32(
                    bytes@[4 * j],
                    bytes@[4 * j + 1],
                    bytes@[4 * j + 2],
                    bytes@[4 * j + 3],
                ),
        decreases n - i,
    {
        assert(4 * i + 3 < bytes@.len()) by (nonlinear_arith)
            requires
                i < n,
                n == bytes@.len() / 4,
        ;

        let b0 = bytes[4 * i];
        let b1 = bytes[4 * i + 1];
        let b2 = bytes[4 * i + 2];
        let b3 = bytes[4 * i + 3];
        proof {
            lemma_le_u32(b0, b1, b2, b3);
        }
        r.push((b0 as u32) | ((b1 as u32) << 8u32) | ((b2 as u32) << 16u32) | ((b3 as u32) << 24u32));
        i += 1;
    }
    r
}

/// Decodes both L1 and L2 page tables from raw little-endian bytes.
pub fn decode_page_table(l1: &[u8], l2: &[u8]) -> (r: (Vec<u16>, Vec<u32>))
    ensures
        r.0@.len() == l1@.len() / 2,
        forall|i: int| 0 <= i < r.0@.len() ==> r.0@[i] == le_u16(l1@[2 * i], l1@[2 * i + 1]),
        r.1@.len() == l2@.len() / 4,
        forall|i: int|
            0 <= i < r.1@.len() ==> r.1@[i] == le_u32(
                l2@[4 * i],
                l2@[4 * i + 1],
                l2@[4 * i + 2],
                l2@[4 * i + 3],
            ),
{
    (decode_u16_table(l1), decode_u32_table(l2))
}

/// The value that a list of `(codepoint, value)` entries gives `cp`: the value
/// of the last entry with that key, or zero when there is none.
pub open spec fn entries_value(entries: Seq<(u32, u32)>, cp: u32) -> u32
    decreases entries.len(),
{
    if entries.len() == 0 {
        0
    } else if entries.last().0 == cp {
        entries.last().1
    } else {
        entries_value(entries.drop_last(), cp)
    }
}

/// Invariant of a table under construction: L2 is a whole number of pages,
/// page 0 is the empty page, each non-zero L1 entry names its own page, and
/// `pages` is the set of blocks that have one.
spec fn building_wf(l1: Seq<u16>, l2: Seq<u32>, pages: Set<int>) -> bool {
    &&& l1.len() == L1_SIZE
    &&& l2.len() % 256 == 0
    &&& l2.len() >= 256
    &&& pages.subset_of(set_int_range(0, L1_SIZE as int))
    &&& pages.finite()
    &&& l2.len() == 256 * (pages.len() + 1)
    &&& forall|p: int| 0 <= p < L1_SIZE ==> (#[trigger] l1[p] != 0 <==> pages.contains(p))
    &&& forall|p: int| 0 <= p < L1_SIZE && l1[p] != 0 ==> (#[trigger] l1[p] + 1) * 256 <= l2.len()
    &&& forall|p: int, q: int|
        0 <= p < L1_SIZE && 0 <= q < L1_SIZE && p != q && l1[p] != 0 ==> #[trigger] l1[p]
            != #[trigger] l1[q]
}

proof fn lemma_pages_bound(pages: Set<int>)
    requires
        pages.subset_of(set_int_range(0, L1_SIZE as int)),
    ensures
        pages.finite(),
        pages.len() <= L1_SIZE,
{
    lemma_int_range(0, L1_SIZE as int);
    lemma_len_subset(pages, set_int_range(0, L1_SIZE as int));
}

/// Builds the two-stage page table for a list of `(codepoint, value)`
/// entries. When a codepoint occurs more than once, its last entry wins.
/// Pages are numbered in the order in which their first codepoint occurs; page
/// 0 is the all-zero page.
pub fn build_2_stage_table(entries: &Vec<(u32, u32)>) -> (r: (Vec<u16>, Vec<u32>))
    requires
        forall|i: int| 0 <= i < entries@.len() ==> #[trigger] entries@[i].0 <= 0x10FFFF,
    ensures
        r.0@.len() == L1_SIZE,
        forall|cp: u32|
            #![trigger spec_slot(r.0@, r.1@, cp)]
            cp <= 0x10FFFF ==> spec_slot(r.0@, r.1@, cp) == entries_value(entries@, cp),
        forall|cp: u32|
            #![trigger spec_lookup(r.0@, r.1@, cp)]
            spec_lookup(r.0@, r.1@, cp) == if entries_value(entries@, cp) == 0 {
                None
            } else {
                Some(entries_value(entries@, cp))
            },
{
    let mut l1: Vec<u16> = Vec::with_capacity(L1_SIZE);
    let mut k: usize = 0;
    while k < L1_SIZE
        invariant
            k <= L1_SIZE,
            l1@.len() == k,
            forall|p: int| 0 <= p < k ==> l1@[p] == 0,
        decreases L1_SIZE - k,
    {
        l1.push(0);
        k += 1;
    }
    let mut l2: Vec<u32> = Vec::with_capacity(256);
    k = 0;
    while k < 256
        invariant
            k <= 256,
            l2@.len() == k,
            forall|p: int| 0 <= p < k ==> l2@[p] == 0,
        decreases 256 - k,
    {
        l2.push(0);
        k += 1;
    }
    let ghost mut pages: Set<int> = Set::empty();
    proof {
        assert(pages.len() == 0);
    }
    let mut i: usize = 0;
    while i < entries.len()
        invariant
            i <= entries@.len(),
            forall|j: int| 0 <= j < entries@.len() ==> #[trigger] entries@[j].0 <= 0x10FFFF,
            building_wf(l1@, l2@, pages),
            forall|cp: u32|
                #![trigger spec_slot(l1@, l2@, cp)]
                cp <= 0x10FFFF ==> spec_slot(l1@, l2@, cp) == entries_value(
                    entries@.take(i as int),
                    cp,
                ),
        decreases entries@.len() - i,
    {
        let (key, value) = entries[i];
        proof {
            lemma_split_cp(key);
            lemma_pages_bound(pages);
        }
        let page = (key >> 8u32) as usize;
        let char_idx = (key & 0xFFu32) as usize;
        let ghost l1_before = l1@;
        let ghost l2_before = l2@;
        if l1[page] == 0 {
            let new_page = l2.len() / 256;
            assert(new_page <= L1_SIZE + 1);
            l1.set(page, new_page as u16);
            let mut c: usize = 0;
            while c < 256
                invariant
                    c <= 256,
                    l2@.len() == l2_before.len() + c,
                    forall|p: int| 0 <= p < l2_before.len() ==> l2@[p] == l2_before[p],
                    forall|p: int| l2_before.len() <= p < l2@.len() ==> l2@[p] == 0,
                decreases 256 - c,
            {
                l2.push(0);
                c += 1;
            }
            proof {
                let old_pages = pages;
                pages = pages.insert(page as int);
                assert(!old_pages.contains(page as int));
                assert(pages.len() == old_pages.len() + 1);
                assert forall|p: int| 0 <= p < L1_SIZE implies (#[trigger] l1@[p] != 0
                    <==> pages.contains(p)) by {
                    if p != page {
                        assert(l1@[p] == l1_before[p]);
                    }
                }
                assert forall|p: int| 0 <= p < L1_SIZE && l1@[p] != 0 implies (#[trigger] l1@[p]
                    + 1) * 256 <= l2@.len() by {
                    if p != page {
                        assert(l1@[p] == l1_before[p]);
                    }
                }
                assert forall|p: int, q: int|
                    0 <= p < L1_SIZE && 0 <= q < L1_SIZE && p != q && l1@[p] != 0 implies #[trigger] l1@[p]
                    != #[trigger] l1@[q] by {
                    if p != page && q != page {
                        assert(l1@[p] == l1_before[p]);
                        assert(l1@[q] == l1_before[q]);
                    } else if p == page {
                        assert(l1@[q] == l1_before[q]);
                        if l1_before[q] != 0 {
                            assert((l1_before[q] + 1) * 256 <= l2_before.len());
                        }
                    } else {
                        assert(l1@[p] == l1_before[p]);
                        assert((l1_before[p] + 1) * 256 <= l2_before.len());
                    }
                }
                assert forall|cp: u32| cp <= 0x10FFFF implies #[trigger] spec_slot(l1@, l2@, cp)
                    == spec_slot(l1_before, l2_before, cp) by {
                    if cp / 256 != page {
                        assert(l1@[(cp / 256) as int] == l1_before[(cp / 256) as int]);
                        if l1_before[(cp / 256) as int] != 0 {
                            assert((l1_before[(cp / 256) as int] + 1) * 256 <= l2_before.len());
                        }
                    }
                }
            }
        }
        let ghost l1_mid = l1@;
        let ghost l2_mid = l2@;
        let slot = (l1[page] as usize) * 256 + char_idx;
        assert(slot < l2@.len());
        l2.set(slot, value);
        proof {
            assert(entries@.take(i + 1).drop_last() =~= entries@.take(i as int));
            assert(entries@.take(i + 1).last() == entries@[i as int]);
            assert forall|cp: u32| cp <= 0x10FFFF implies #[trigger] spec_slot(l1@, l2@, cp)
                == entries_value(entries@.take(i + 1), cp) by {
                assert(spec_slot(l1_mid, l2_mid, cp) == entries_value(entries@.take(i as int), cp));
                if cp == key {
                } else if cp / 256 == page {
                    assert(cp % 256 != key % 256);
                } else {
                    let q = (cp / 256) as int;
                    if l1@[q] != 0 {
                        assert(l1@[q] != l1@[page as int]);
                    }
                }
            }
        }
        i += 1;
    }
    proof {
        assert(entries@.take(entries@.len() as int) =~= entries@);
        assert forall|cp: u32| #[trigger] spec_lookup(l1@, l2@, cp) == if entries_value(entries@, cp) == 0 {
                None
            } else {
                Some(entries_value(entries@, cp))
            } by {
            if cp > 0x10FFFF {
                lemma_entries_value_absent(entries@, cp);
            }
        }
    }
    (l1, l2)
}

proof fn lemma_entries_value_absent(entries: Seq<(u32, u32)>, cp: u32)
    requires
        forall|i: int| 0 <= i < entries.len() ==> #[trigger] entries[i].0 != cp,
    ensures
        entries_value(entries, cp) == 0,
    decreases entries.len(),
{
    if entries.len() > 0 {
        assert(entries.last() == entries[entries.len() - 1]);
        lemma_entries_value_absent(entries.drop_last(), cp);
    }
}

/// The byte range `(start, end)` that a packed `(byte_offset << 8) | length`
/// value names in the string buffer `strings`, when it lies inside the buffer
/// and on character boundaries.
pub open spec fn spec_unpack(value: u32, strings: Seq<u8>) -> Option<(usize, usize)> {
    let off = value / 256;
    let len = value % 256;
    if off + len <= strings.len() && is_char_boundary(strings, off as int) && is_char_boundary(
        strings,
        off + len,
    ) {
        Some((off as usize, (off + len) as usize))
    } else {
        None
    }
}

/// An unpacked range of a valid UTF-8 buffer holds valid UTF-8.
pub proof fn lemma_unpack_valid(value: u32, strings: Seq<u8>)
    requires
        valid_utf8(strings),
        spec_unpack(value, strings) is Some,
    ensures
        ({
            let (a, b) = spec_unpack(value, strings)->0;
            a <= b <= strings.len() && valid_utf8(strings.subrange(a as int, b as int))
        }),
{
    let off = value / 256;
    let len = value % 256;
    lemma_boundary_slice_valid(strings, off as int, off + len);
}

/// Unpacks a `(byte_offset << 8) | length` value into a byte range of
/// `strings`. Returns `None` when the range leaves the buffer or does not lie
/// on character boundaries.
pub fn unpack_str_ref(value: u32, strings: &str) -> (r: Option<(usize, usize)>)
    ensures
        r == spec_unpack(value, strings.spec_bytes()),
{
    proof {
        lemma_split_cp(value);
    }
    let offset = (value >> 8u32) as usize;
    let len = (value & 0xFFu32) as usize;
    let bytes = strings.as_bytes();
    if offset + len <= bytes.len() && strings.is_char_boundary(offset)
        && strings.is_char_boundary(offset + len) {
        Some((offset, offset + len))
    } else {
        None
    }
}

/// First position in `start..end` that is not an ASCII space, or `end`.
pub open spec fn trim_start(bytes: Seq<u8>, start: int, end: int) -> int
    decreases end - start,
{
    if start < end && bytes[start] == 0x20 {
        trim_start(bytes, start + 1, end)
    } else {
        start
    }
}

/// End of `start..end` after dropping trailing ASCII spaces.
pub open spec fn trim_end(bytes: Seq<u8>, start: int, end: int) -> int
    decreases end - start,
{
    if end > start && bytes[end - 1] == 0x20 {
        trim_end(bytes, start, end - 1)
    } else {
        end
    }
}

/// The packed value after trimming: the new start shifted left by eight
/// (keeping the low 32 bits) with the new length in the low byte.
pub open spec fn spec_trim_packed(value: u32, strings: Seq<u8>) -> u32 {
    let start = value / 256;
    let end = start + value % 256;
    if value == 0 {
        0
    } else if end > strings.len() {
        value
    } else {
        let s2 = trim_start(strings, start as int, end);
        let e2 = trim_end(strings, s2, end);
        ((s2 as u32) << 8u32) | ((e2 - s2) as u32)
    }
}

/// Removes leading and trailing ASCII spaces from the range that a packed
/// value names in `strings`. Zero stays zero; a value whose range leaves the
/// buffer is returned unchanged.
pub fn trim_romanize_packed(value: u32, strings: &str) -> (r: u32)
    ensures
        r == spec_trim_packed(value, strings.spec_bytes()),
{
    if value == 0 {
        return 0;
    }
    proof {
        lemma_split_cp(value);
    }
    let bytes = strings.as_bytes();
    let mut start = (value >> 8u32) as usize;
    let mut end = start + (value & 0xFFu32) as usize;
    if end > bytes.len() {
        return value;
    }
    let ghost s0 = start as int;
    let ghost e0 = end as int;
    while start < end && bytes[start] == 0x20
        invariant
            s0 <= start <= end,
            end == e0,
            e0 <= bytes@.len(),
            trim_start(bytes@, s0, e0) == trim_start(bytes@, start as int, e0),
        decreases end - start,
    {
        start += 1;
    }
    let ghost s2 = start as int;
    while end > start && bytes[end - 1] == 0x20
        invariant
            s2 <= end <= e0,
            start == s2,
            e0 <= bytes@.len(),
            trim_end(bytes@, s2, e0) == trim_end(bytes@, s2, end as int),
        decreases end - start,
    {
        end -= 1;
    }
    ((start as u32) << 8u32) | ((end - start) as u32)
}

/// Packing a start below `2^24` and a length below 256 keeps both.
pub proof fn lemma_pack_value(start: u32, len: u32)
    requires
        start < 0x1000000,
        len < 256,
    ensures
        (start << 8u32) | len == start * 256 + len,
{
    lemma_pack(start, len);
}

proof fn lemma_pack(start: u32, len: u32)
    by (bit_vector)
    requires
        start < 0x1000000,
        len < 256,
    ensures
        (start << 8u32) | len == start * 256 + len,
{
}

} // verus!
