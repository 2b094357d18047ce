//! UTF-8 helpers shared by the transform engines: decoding one scalar from a
//! byte buffer, encoding a scalar, and the byte-cursor lemmas that relate a
//! position in `text.as_bytes()` to a position in `text@`.
use vstd::prelude::*;
use vstd::utf8::*;

verus! {

/// The UTF-8 bytes of one character.
pub open spec fn char_bytes(c: char) -> Seq<u8> {
    encode_scalar(c as u32)
}

/// `offset` in `bytes` sits on the boundary before character `k` of `chars`:
/// the bytes from `offset` on are exactly the encoding of `chars[k..]`.
pub open spec fn at_char(chars: Seq<char>, bytes: Seq<u8>, offset: int, k: int) -> bool {
    &&& 0 <= k <= chars.len()
    &&& 0 <= offset <= bytes.len()
    &&& bytes.subrange(offset, bytes.len() as int) == encode_utf8(chars.subrange(k, chars.len() as int))
}

/// The encoding of a concatenation is the concatenation of the encodings.
pub proof fn lemma_encode_utf8_append(a: Seq<char>, b: Seq<char>)
    ensures
        encode_utf8(a + b) == encode_utf8(a) + encode_utf8(b),
    decreases a.len(),
{
    if a.len() == 0 {
        assert(a + b =~= b);
        assert(encode_utf8(a) =~= Seq::<u8>::empty());
        assert(encode_utf8(a) + encode_utf8(b) =~= encode_utf8(b));
    } else {
        lemma_encode_utf8_append(a.drop_first(), b);
        assert((a + b).drop_first() =~= a.drop_first() + b);
        assert((a + b)[0] == a[0]);
        assert(encode_utf8(a + b) == encode_scalar(a[0] as u32) + encode_utf8(a.drop_first() + b));
        assert(encode_utf8(a) == encode_scalar(a[0] as u32) + encode_utf8(a.drop_first()));
        assert(encode_utf8(a + b) =~= encode_utf8(a) + encode_utf8(b));
    }
}

/// The encoding of a single character is its UTF-8 bytes.
pub proof fn lemma_encode_utf8_single(c: char)
    ensures
        encode_utf8(seq![c]) == char_bytes(c),
{
    assert(seq![c].drop_first() =~= Seq::<char>::empty());
    assert(encode_utf8(Seq::<char>::empty()) =~= Seq::<u8>::empty());
    assert(char_bytes(c) + Seq::<u8>::empty() =~= char_bytes(c));
}

/// Each character's encoding has between one and four bytes, and its first
/// byte is below `0x80` exactly when the character is ASCII, in which case it
/// is the character's value.
pub proof fn lemma_char_bytes_shape(c: char)
    ensures
        1 <= char_bytes(c).len() <= 4,
        (char_bytes(c)[0] < 0x80) == ((c as u32) < 0x80),
        (c as u32) < 0x80 ==> char_bytes(c) == seq![(c as u32) as u8],
{
    char_is_scalar(c);
    let s = c as u32;
    if has_width_1_encoding(s) {
        assert((s & 0x7F) as u8 == s as u8) by (bit_vector)
            requires s <= 0x7f;
        assert(char_bytes(c) =~= seq![(c as u32) as u8]);
    } else if has_width_2_encoding(s) {
        assert((0xC0u8 | ((s >> 6) & 0x1F) as u8) >= 0x80) by (bit_vector);
    } else if has_width_3_encoding(s) {
        assert((0xE0u8 | ((s >> 12) & 0x0F) as u8) >= 0x80) by (bit_vector);
    } else {
        assert((0xF0u8 | ((s >> 18) & 0x7) as u8) >= 0x80) by (bit_vector);
    }
}

/// Stepping over character `k`: the cursor moves by the character's byte
/// length, the byte under the cursor is the character's first byte, and the
/// next `n` bytes are the character's encoding.
pub proof fn lemma_at_char_step(chars: Seq<char>, bytes: Seq<u8>, offset: int, k: int)
    requires
        at_char(chars, bytes, offset, k),
        k < chars.len(),
    ensures
        offset + char_bytes(chars[k]).len() <= bytes.len(),
        bytes.subrange(offset, offset + char_bytes(chars[k]).len()) == char_bytes(chars[k]),
        bytes[offset] == char_bytes(chars[k])[0],
        at_char(chars, bytes, offset + char_bytes(chars[k]).len(), k + 1),
        valid_first_scalar(bytes.subrange(offset, bytes.len() as int)),
        decode_first_scalar(bytes.subrange(offset, bytes.len() as int)) == chars[k] as u32,
        length_of_first_scalar(bytes.subrange(offset, bytes.len() as int)) == char_bytes(chars[k]).len(),
{
    let rest = chars.subrange(k, chars.len() as int);
    let tail = bytes.subrange(offset, bytes.len() as int);
    let cb = char_bytes(chars[k]);
    lemma_char_bytes_shape(chars[k]);
    assert(rest[0] == chars[k]);
    assert(rest.drop_first() =~= chars.subrange(k + 1, chars.len() as int));
    assert(encode_utf8(rest) == cb + encode_utf8(rest.drop_first()));
    assert(tail.len() == bytes.len() - offset);
    assert(tail[0] == cb[0]);
    assert(bytes[offset] == tail[0]);
    assert(bytes.subrange(offset, offset + cb.len()) =~= tail.subrange(0, cb.len() as int));
    assert(tail.subrange(0, cb.len() as int) =~= cb);
    assert(bytes.subrange(offset + cb.len(), bytes.len() as int) =~= tail.subrange(cb.len() as int, tail.len() as int));
    assert(tail.subrange(cb.len() as int, tail.len() as int) =~= encode_utf8(rest.drop_first()));
    encode_utf8_first_scalar(rest);
}

/// The whole text's bytes put the cursor at character 0.
pub proof fn lemma_at_char_start(chars: Seq<char>, bytes: Seq<u8>)
    requires
        bytes == encode_utf8(chars),
    ensures
        at_char(chars, bytes, 0, 0),
{
    assert(bytes.subrange(0, bytes.len() as int) =~= bytes);
    assert(chars.subrange(0, chars.len() as int) =~= chars);
}

/// At the end of the bytes the cursor has passed every character.
pub proof fn lemma_at_char_end(chars: Seq<char>, bytes: Seq<u8>, offset: int, k: int)
    requires
        at_char(chars, bytes, offset, k),
    ensures
        (offset == bytes.len()) == (k == chars.len()),
{
    if k < chars.len() {
        lemma_at_char_step(chars, bytes, offset, k);
    } else {
        assert(chars.subrange(k, chars.len() as int) =~= Seq::<char>::empty());
        assert(encode_utf8(Seq::<char>::empty()) =~= Seq::<u8>::empty());
        assert(bytes.subrange(offset, bytes.len() as int).len() == bytes.len() - offset);
    }
}

/// Decodes the multi-byte UTF-8 scalar that starts at `offset`, returning its
/// value and its length in bytes.
pub fn decode_utf8_raw(bytes: &[u8], offset: usize) -> (r: (u32, usize))
    requires
        offset < bytes@.len(),
        bytes@[offset as int] >= 0x80,
        valid_first_scalar(bytes@.subrange(offset as int, bytes@.len() as int)),
    ensures
        r.0 == decode_first_scalar(bytes@.subrange(offset as int, bytes@.len() as int)),
        r.1 == length_of_first_scalar(bytes@.subrange(offset as int, bytes@.len() as int)),
        2 <= r.1 <= 4,
{
    let ghost tail = bytes@.subrange(offset as int, bytes@.len() as int);
    assert(tail[0] == bytes@[offset as int]);
    let b0 = bytes[offset];
    if b0 < 0xE0 {
        assert(tail[1] == bytes@[offset + 1]);
        let b1 = bytes[offset + 1];
        ((((b0 as u32) & 0x1F) << 6) | ((b1 as u32) & 0x3F), 2)
    } else if b0 < 0xF0 {
        assert(tail[1] == bytes@[offset + 1]);
        assert(tail[2] == bytes@[offset + 2]);
        let b1 = bytes[offset + 1];
        let b2 = bytes[offset + 2];
        (
            (((b0 as u32) & 0x0F) << 12) | (((b1 as u32) & 0x3F) << 6) | ((b2 as u32) & 0x3F),
            3,
        )
    } else {
        assert(tail[1] == bytes@[offset + 1]);
        assert(tail[2] == bytes@[offset + 2]);
        assert(tail[3] == bytes@[offset + 3]);
        let b1 = bytes[offset + 1];
        let b2 = bytes[offset + 2];
        let b3 = bytes[offset + 3];
        (
            (((b0 as u32) & 0x07) << 18) | (((b1 as u32) & 0x3F) << 12) | (((b2 as u32) & 0x3F)
                << 6) | ((b3 as u32) & 0x3F),
            4,
        )
    }
}


/// A Unicode scalar survives the round trip through `char`.
pub proof fn lemma_scalar_char_roundtrip(v: u32)
    requires
        is_scalar(v),
    ensures
        (v as char) as u32 == v,
        char_bytes(v as char) == encode_scalar(v),
{
}

/// The bytes between two cursor positions are the encoding of the characters
/// between them.
pub proof fn lemma_at_char_between(
    chars: Seq<char>,
    bytes: Seq<u8>,
    o1: int,
    k1: int,
    o2: int,
    k2: int,
)
    requires
        at_char(chars, bytes, o1, k1),
        at_char(chars, bytes, o2, k2),
        k1 <= k2,
    ensures
        o1 <= o2,
        bytes.subrange(o1, o2) == encode_utf8(chars.subrange(k1, k2)),
{
    let a = chars.subrange(k1, k2);
    let b = chars.subrange(k2, chars.len() as int);
    assert(chars.subrange(k1, chars.len() as int) =~= a + b);
    lemma_encode_utf8_append(a, b);
    let t1 = bytes.subrange(o1, bytes.len() as int);
    let t2 = bytes.subrange(o2, bytes.len() as int);
    assert(t1 == encode_utf8(a) + t2);
    assert(t1.len() == bytes.len() - o1);
    assert(bytes.subrange(o1, o2) =~= t1.subrange(0, o2 - o1));
    assert(t1.subrange(0, encode_utf8(a).len() as int) =~= encode_utf8(a));
}

/// A run of ASCII bytes under the cursor is a run of ASCII characters, one per
/// byte.
pub proof fn lemma_ascii_run(chars: Seq<char>, bytes: Seq<u8>, o: int, k: int, r: int)
    requires
        at_char(chars, bytes, o, k),
        o <= r <= bytes.len(),
        forall|i: int| o <= i < r ==> #[trigger] bytes[i] < 0x80,
    ensures
        k + (r - o) <= chars.len(),
        at_char(chars, bytes, r, k + (r - o)),
        forall|j: int| k <= j < k + (r - o) ==> (#[trigger] chars[j] as u32) < 0x80,
        forall|j: int| k <= j < k + (r - o) ==> (chars[j] as u32) == #[trigger] bytes[o + (j - k)],
    decreases r - o,
{
    if o < r {
        lemma_at_char_end(chars, bytes, o, k);
        lemma_at_char_step(chars, bytes, o, k);
        lemma_char_bytes_shape(chars[k]);
        assert(bytes[o] < 0x80);
        assert((chars[k] as u32) < 0x80);
        assert(chars[k] as u32 == bytes[o + (k - k)]);
        lemma_ascii_run(chars, bytes, o + 1, k + 1, r);
        assert forall|j: int| k <= j < k + (r - o) implies (chars[j] as u32) == #[trigger] bytes[o
            + (j - k)] by {
            if j > k {
                assert(o + (j - k) == (o + 1) + (j - (k + 1)));
            }
        }
    }
}

/// A character-boundary slice of valid UTF-8 is valid UTF-8.
pub proof fn lemma_boundary_slice_valid(bytes: Seq<u8>, a: int, b: int)
    requires
        valid_utf8(bytes),
        0 <= a <= b <= bytes.len(),
        is_char_boundary(bytes, a),
        is_char_boundary(bytes, b),
    ensures
        valid_utf8(bytes.subrange(a, b)),
{
    if a == b {
        assert(bytes.subrange(a, b).len() == 0);
    } else {
        valid_utf8_split(bytes, b);
        let p = bytes.subrange(0, b);
        is_char_boundary_iff_is_leading_byte(bytes, a);
        assert(p[a] == bytes[a]);
        is_char_boundary_iff_is_leading_byte(p, a);
        valid_utf8_split(p, a);
        assert(p.subrange(a, p.len() as int) =~= bytes.subrange(a, b));
    }
}

/// The UTF-8 encoding of the scalar `v`: its bytes in the first `r.1` slots
/// of `r.0`.
pub fn encode_utf8_raw(v: u32) -> (r: ([u8; 4], usize))
    requires
        is_scalar(v),
    ensures
        r.1 == encode_scalar(v).len(),
        1 <= r.1 <= 4,
        r.0@.subrange(0, r.1 as int) == encode_scalar(v),
{
    if v <= 0x7F {
        let buf: [u8; 4] = [(v & 0x7F) as u8, 0, 0, 0];
        assert(buf@.subrange(0, 1) =~= encode_scalar(v));
        (buf, 1)
    } else if v <= 0x7FF {
        let buf: [u8; 4] = [0xC0u8 | ((v >> 6) & 0x1F) as u8, 0x80u8 | (v & 0x3F) as u8, 0, 0];
        assert(buf@.subrange(0, 2) =~= encode_scalar(v));
        (buf, 2)
    } else if v <= 0xFFFF {
        let buf: [u8; 4] = [
            0xE0u8 | ((v >> 12) & 0x0F) as u8,
            0x80u8 | ((v >> 6) & 0x3F) as u8,
            0x80u8 | (v & 0x3F) as u8,
            0,
        ];
        assert(buf@.subrange(0, 3) =~= encode_scalar(v));
        (buf, 3)
    } else {
        let buf: [u8; 4] = [
            0xF0u8 | ((v >> 18) & 0x7) as u8,
            0x80u8 | ((v >> 12) & 0x3F) as u8,
            0x80u8 | ((v >> 6) & 0x3F) as u8,
            0x80u8 | (v & 0x3F) as u8,
        ];
        assert(buf@.subrange(0, 4) =~= encode_scalar(v));
        (buf, 4)
    }
}

/// Converts a byte vector into a `String` (`String::from_utf8`); `None` when
/// the bytes are not valid UTF-8.
#[verifier::external_body]
pub fn string_from_utf8(bytes: Vec<u8>) -> (r: Option<String>)
    ensures
        r is Some <==> valid_utf8(bytes@),
        r matches Some(s) ==> s@ == decode_utf8(bytes@),
{
    String::from_utf8(bytes).ok()
}

} // verus!
