//! Byte-skip helpers that let the transform engines jump over runs of ASCII
//! bytes that cannot produce a change.
//!
//! Each helper returns the first offset at or after `offset` whose byte stops
//! the scan, or `bytes.len()` when no such byte remains.
use vstd::prelude::*;

verus! {

/// Whether `byte` is marked in the 128-bit ASCII delete bitset `ascii_lut`
/// (bit `byte & 7` of byte `byte >> 3`).
pub open spec fn lut_contains(byte: u8, ascii_lut: Seq<u8>) -> bool {
    (ascii_lut[(byte >> 3u8) as int] & (1u8 << (byte & 7u8))) != 0
}

/// A byte that stops [`skip_ascii_simd`]: any non-ASCII byte.
pub open spec fn stops_ascii(b: u8) -> bool {
    b >= 0x80
}

/// A byte that stops [`skip_non_digit_ascii_simd`]: non-ASCII or an ASCII digit.
pub open spec fn stops_non_digit(b: u8) -> bool {
    b >= 0x80 || (0x30 <= b && b <= 0x39)
}

/// A byte that stops [`skip_ascii_non_delete_simd`]: non-ASCII or deletable.
pub open spec fn stops_non_delete(b: u8, ascii_lut: Seq<u8>) -> bool {
    b >= 0x80 || lut_contains(b, ascii_lut)
}

/// Tests whether the ASCII byte `byte` is marked for deletion in `ascii_lut`.
pub fn ascii_delete_contains(byte: u8, ascii_lut: &[u8; 16]) -> (r: bool)
    requires
        byte < 0x80,
    ensures
        r == lut_contains(byte, ascii_lut@),
{
    let idx = byte >> 3u8;
    assert(idx < 16) by (bit_vector)
        requires
            byte < 0x80,
            idx == byte >> 3u8,
    ;
    assert(byte & 7u8 < 8) by (bit_vector);
    (ascii_lut[idx as usize] & (1u8 << (byte & 7u8))) != 0
}

/// Returns the first offset at or after `offset` whose byte is non-ASCII, or
/// `bytes.len()`.
pub fn find_non_ascii_scalar(bytes: &[u8], offset: usize) -> (r: usize)
    requires
        offset <= bytes@.len(),
    ensures
        offset <= r <= bytes@.len(),
        forall|i: int| offset <= i < r ==> !stops_ascii(#[trigger] bytes@[i]),
        r < bytes@.len() ==> stops_ascii(bytes@[r as int]),
{
    let mut offset = offset;
    let ghost start = offset;
    while offset < bytes.len() && bytes[offset] < 0x80
        invariant
            start <= offset <= bytes@.len(),
            forall|i: int| start <= i < offset ==> !stops_ascii(#[trigger] bytes@[i]),
        decreases bytes@.len() - offset,
    {
        offset += 1;
    }
    offset
}

/// Returns the first offset at or after `offset` whose byte is non-ASCII or an
/// ASCII digit, or `bytes.len()`.
pub fn find_non_digit_ascii_scalar(bytes: &[u8], offset: usize) -> (r: usize)
    requires
        offset <= bytes@.len(),
    ensures
        offset <= r <= bytes@.len(),
        forall|i: int| offset <= i < r ==> !stops_non_digit(#[trigger] bytes@[i]),
        r < bytes@.len() ==> stops_non_digit(bytes@[r as int]),
{
    let mut offset = offset;
    let ghost start = offset;
    while offset < bytes.len() && !(bytes[offset] >= 0x80 || (0x30 <= bytes[offset]
        && bytes[offset] <= 0x39))
        invariant
            start <= offset <= bytes@.len(),
            forall|i: int| start <= i < offset ==> !stops_non_digit(#[trigger] bytes@[i]),
        decreases bytes@.len() - offset,
    {
        offset += 1;
    }
    offset
}

/// Returns the first offset at or after `offset` whose byte is non-ASCII or
/// marked deletable in `ascii_lut`, or `bytes.len()`.
pub fn find_ascii_non_delete_scalar(bytes: &[u8], offset: usize, ascii_lut: &[u8; 16]) -> (r:
    usize)
    requires
        offset <= bytes@.len(),
    ensures
        offset <= r <= bytes@.len(),
        forall|i: int| offset <= i < r ==> !stops_non_delete(#[trigger] bytes@[i], ascii_lut@),
        r < bytes@.len() ==> stops_non_delete(bytes@[r as int], ascii_lut@),
{
    let mut offset = offset;
    let ghost start = offset;
    while offset < bytes.len() && bytes[offset] < 0x80 && !ascii_delete_contains(
        bytes[offset],
        ascii_lut,
    )
        invariant
            start <= offset <= bytes@.len(),
            forall|i: int|
                start <= i < offset ==> !stops_non_delete(#[trigger] bytes@[i], ascii_lut@),
        decreases bytes@.len() - offset,
    {
        offset += 1;
    }
    offset
}

/// Advances `offset` past all ASCII bytes. Returns `offset` unchanged when it
/// is already at or past the end, or already at a non-ASCII byte.
pub fn skip_ascii_simd(bytes: &[u8], offset: usize) -> (r: usize)
    ensures
        offset >= bytes@.len() ==> r == offset,
        offset < bytes@.len() ==> {
            &&& offset <= r <= bytes@.len()
            &&& forall|i: int| offset <= i < r ==> !stops_ascii(#[trigger] bytes@[i])
            &&& r < bytes@.len() ==> stops_ascii(bytes@[r as int])
        },
{
    if offset >= bytes.len() || bytes[offset] >= 0x80 {
        return offset;
    }
    find_non_ascii_scalar(bytes, offset)
}

/// Advances `offset` past ASCII bytes that are not digits, stopping at the
/// first non-ASCII byte or ASCII digit.
pub fn skip_non_digit_ascii_simd(bytes: &[u8], offset: usize) -> (r: usize)
    ensures
        offset >= bytes@.len() ==> r == offset,
        offset < bytes@.len() ==> {
            &&& offset <= r <= bytes@.len()
            &&& forall|i: int| offset <= i < r ==> !stops_non_digit(#[trigger] bytes@[i])
            &&& r < bytes@.len() ==> stops_non_digit(bytes@[r as int])
        },
{
    if offset >= bytes.len() {
        return offset;
    }
    let b0 = bytes[offset];
    if b0 >= 0x80 || (0x30 <= b0 && b0 <= 0x39) {
        return offset;
    }
    find_non_digit_ascii_scalar(bytes, offset)
}

/// Whether lane `i` of a delete mask is set.
pub open spec fn mask_bit(mask: u64, i: u64) -> bool {
    (mask >> i) & 1u64 == 1u64
}

proof fn lemma_mask_set_bit(r: u64, nr: u64, i: u64, j: u64)
    by (bit_vector)
    requires
        i < 16,
        j < i,
        r >> i == 0,
        nr == r | (1u64 << i),
    ensures
        ((nr >> j) & 1u64 == 1u64) == ((r >> j) & 1u64 == 1u64),
        (nr >> i) & 1u64 == 1u64,
        nr >> ((i + 1) as u64) == 0,
{
}

proof fn lemma_mask_keep_bit(r: u64, i: u64)
    by (bit_vector)
    requires
        i < 16,
        r >> i == 0,
    ensures
        (r >> i) & 1u64 == 0u64,
        r >> ((i + 1) as u64) == 0,
{
}

proof fn lemma_mask_set_top(r: u64, nr: u64, i: u64)
    by (bit_vector)
    requires
        i < 16,
        r >> i == 0,
        nr == r | (1u64 << i),
    ensures
        (nr >> i) & 1u64 == 1u64,
        nr >> ((i + 1) as u64) == 0,
{
}

/// Computes a bitmask whose bit `i` is set exactly when `chunk[i]` is an ASCII
/// byte marked for deletion in `ascii_lut`. Non-ASCII lanes are never set.
pub fn simd_ascii_delete_mask(chunk: [u8; 16], ascii_lut: [u8; 16]) -> (r: u64)
    ensures
        r >> 16u64 == 0,
        forall|i: u64|
            i < 16 ==> (mask_bit(r, i) <==> (chunk@[i as int] < 0x80 && lut_contains(
                chunk@[i as int],
                ascii_lut@,
            ))),
{
    let mut r: u64 = 0;
    let mut i: usize = 0;
    assert(0u64 >> 0u64 == 0) by (bit_vector);
    while i < 16
        invariant
            0 <= i <= 16,
            r >> (i as u64) == 0,
            forall|j: u64|
                j < i ==> (mask_bit(r, j) <==> (chunk@[j as int] < 0x80 && lut_contains(
                    chunk@[j as int],
                    ascii_lut@,
                ))),
        decreases 16 - i,
    {
        let b = chunk[i];
        let set = b < 0x80 && ascii_delete_contains(b, &ascii_lut);
        let ghost old_r = r;
        if set {
            r = r | (1u64 << (i as u64));
            proof {
                lemma_mask_set_top(old_r, r, i as u64);
                assert forall|j: u64| j < i implies mask_bit(r, j) == mask_bit(old_r, j) by {
                    lemma_mask_set_bit(old_r, r, i as u64, j);
                }
            }
        } else {
            proof {
                lemma_mask_keep_bit(r, i as u64);
            }
        }
        i += 1;
    }
    r
}

/// Computes a bitmask whose bit `i` is set exactly when `chunk[i]` is a
/// non-ASCII byte.
fn non_ascii_mask(chunk: &[u8; 16]) -> (r: u64)
    ensures
        r >> 16u64 == 0,
        forall|i: u64| i < 16 ==> (mask_bit(r, i) <==> chunk@[i as int] >= 0x80),
{
    let mut r: u64 = 0;
    let mut i: usize = 0;
    assert(0u64 >> 0u64 == 0) by (bit_vector);
    while i < 16
        invariant
            0 <= i <= 16,
            r >> (i as u64) == 0,
            forall|j: u64| j < i ==> (mask_bit(r, j) <==> chunk@[j as int] >= 0x80),
        decreases 16 - i,
    {
        let ghost old_r = r;
        if chunk[i] >= 0x80 {
            r = r | (1u64 << (i as u64));
            proof {
                lemma_mask_set_top(old_r, r, i as u64);
                assert forall|j: u64| j < i implies mask_bit(r, j) == mask_bit(old_r, j) by {
                    lemma_mask_set_bit(old_r, r, i as u64, j);
                }
            }
        } else {
            proof {
                lemma_mask_keep_bit(r, i as u64);
            }
        }
        i += 1;
    }
    r
}

/// The 16 bytes of `bytes` from `offset` on.
fn load_chunk(bytes: &[u8], offset: usize) -> (r: [u8; 16])
    requires
        offset + 16 <= bytes@.len(),
    ensures
        forall|i: int| 0 <= i < 16 ==> #[trigger] r@[i] == bytes@[offset + i],
{
    let len = bytes.len();
    let mut chunk = [0u8; 16];
    let mut k: usize = 0;
    while k < 16
        invariant
            k <= 16,
            len == bytes@.len(),
            offset + 16 <= bytes@.len(),
            chunk@.len() == 16,
            forall|i: int| 0 <= i < k ==> #[trigger] chunk@[i] == bytes@[offset + i],
        decreases 16 - k,
    {
        chunk[k] = bytes[offset + k];
        k += 1;
    }
    chunk
}

/// The first set lane of a 16-lane stop mask: every lane below it is clear.
proof fn lemma_first_stop(stop: u64, tz: u32)
    requires
        stop != 0,
        stop >> 16u64 == 0,
        tz == vstd::std_specs::bits::u64_trailing_zeros(stop),
    ensures
        tz < 16,
        mask_bit(stop, tz as u64),
        forall|j: u64| j < tz ==> !mask_bit(stop, j),
{
    vstd::std_specs::bits::axiom_u64_trailing_zeros(stop);
    let t = tz as u64;
    assert(t < 64 && stop >> 16u64 == 0 && (stop >> t) & 1u64 == 1u64 ==> t < 16) by (bit_vector);
}

/// Advances `offset` past ASCII bytes that are not in the delete bitset,
/// stopping at the first non-ASCII byte or deletable ASCII byte. Scans 16
/// bytes at a time with lane masks, then the tail byte by byte.
pub fn skip_ascii_non_delete_simd(bytes: &[u8], offset: usize, ascii_lut: &[u8; 16]) -> (r:
    usize)
    ensures
        offset >= bytes@.len() ==> r == offset,
        offset < bytes@.len() ==> {
            &&& offset <= r <= bytes@.len()
            &&& forall|i: int|
                offset <= i < r ==> !stops_non_delete(#[trigger] bytes@[i], ascii_lut@)
            &&& r < bytes@.len() ==> stops_non_delete(bytes@[r as int], ascii_lut@)
        },
{
    if offset >= bytes.len() {
        return offset;
    }
    let b0 = bytes[offset];
    if b0 >= 0x80 || ascii_delete_contains(b0, ascii_lut) {
        return offset;
    }
    let len = bytes.len();
    let mut pos = offset;
    while len - pos >= 16
        invariant
            len == bytes@.len(),
            offset < len,
            offset <= pos <= len,
            forall|i: int| offset <= i < pos ==> !stops_non_delete(#[trigger] bytes@[i], ascii_lut@),
        decreases len - pos,
    {
        let chunk = load_chunk(bytes, pos);
        let non_ascii = non_ascii_mask(&chunk);
        let deletable = simd_ascii_delete_mask(chunk, *ascii_lut);
        let stop = non_ascii | deletable;
        proof {
            assert forall|i: u64| i < 16 implies (mask_bit(stop, i) <==> stops_non_delete(
                chunk@[i as int],
                ascii_lut@,
            )) by {
                assert(mask_bit(non_ascii, i) == (chunk@[i as int] >= 0x80));
                assert(mask_bit(deletable, i) == (chunk@[i as int] < 0x80 && lut_contains(
                    chunk@[i as int],
                    ascii_lut@,
                )));
                assert(i < 64 ==> (((non_ascii | deletable) >> i) & 1u64 == 1u64 <==> (non_ascii
                    >> i) & 1u64 == 1u64 || (deletable >> i) & 1u64 == 1u64)) by (bit_vector);
            }
            assert(stop >> 16u64 == 0) by (bit_vector)
                requires
                    stop == non_ascii | deletable,
                    non_ascii >> 16u64 == 0,
                    deletable >> 16u64 == 0,
            ;
        }
        if stop != 0 {
            let tz = stop.trailing_zeros();
            proof {
                lemma_first_stop(stop, tz);
                assert forall|i: int| offset <= i < pos + tz implies !stops_non_delete(
                    #[trigger] bytes@[i],
                    ascii_lut@,
                ) by {
                    if i >= pos {
                        let j = (i - pos) as u64;
                        assert(!mask_bit(stop, j));
                        assert(chunk@[j as int] == bytes@[i]);
                    }
                }
                assert(chunk@[tz as int] == bytes@[pos + tz]);
                assert(mask_bit(stop, tz as u64));
            }
            return pos + tz as usize;
        }
        proof {
            assert forall|i: int| offset <= i < pos + 16 implies !stops_non_delete(
                #[trigger] bytes@[i],
                ascii_lut@,
            ) by {
                if i >= pos {
                    let j = (i - pos) as u64;
                    assert(stop == 0u64 ==> !mask_bit(stop, j)) by (bit_vector);
                    assert(chunk@[j as int] == bytes@[i]);
                }
            }
        }
        pos += 16;
    }
    proof {
        assert(!stops_non_delete(bytes@[offset as int], ascii_lut@));
    }
    let r = find_ascii_non_delete_scalar(bytes, pos, ascii_lut);
    r
}

} // verus!
