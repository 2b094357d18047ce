//! Per-codepoint text filters and the two ways of applying them.
//!
//! A [`CodepointFilter`] decides, for every character of a text, whether to
//! keep it, delete it, or replace it (by a byte range of the filter's string
//! buffer, or by another codepoint). [`filter_replace`] materializes the
//! filtered text; [`FilterIterator`] streams its UTF-8 bytes one at a time.
//! Both produce exactly [`filter_chars`].
use vstd::prelude::*;
use vstd::utf8::*;

use crate::simd::skip_ascii_simd;
use crate::utf8::{
    at_char, char_bytes, decode_utf8_raw, encode_utf8_raw, lemma_ascii_run, lemma_at_char_between,
    lemma_at_char_end, lemma_at_char_start, lemma_at_char_step, lemma_char_bytes_shape,
    lemma_encode_utf8_append, lemma_encode_utf8_single, lemma_scalar_char_roundtrip,
    string_from_utf8,
};

verus! {

/// What to do with one codepoint.
pub enum FilterAction {
    /// Keep the codepoint unchanged.
    Keep,
    /// Drop the codepoint.
    Delete,
    /// Replace the codepoint with the bytes `start..end` of the filter's buffer.
    ReplaceRange(usize, usize),
    /// Replace the codepoint with another codepoint.
    ReplaceCodepoint(u32),
}

/// An action can be carried out: a range lies inside the buffer and holds
/// valid UTF-8, and a replacement codepoint is a Unicode scalar.
pub open spec fn action_wf(a: FilterAction, buf: Seq<u8>) -> bool {
    match a {
        FilterAction::ReplaceRange(s, e) => s <= e <= buf.len() && valid_utf8(
            buf.subrange(s as int, e as int),
        ),
        FilterAction::ReplaceCodepoint(v) => is_scalar(v),
        _ => true,
    }
}

/// The characters that a non-`Keep` action emits.
pub open spec fn replacement_chars(a: FilterAction, buf: Seq<u8>) -> Seq<char> {
    match a {
        FilterAction::ReplaceRange(s, e) => decode_utf8(buf.subrange(s as int, e as int)),
        FilterAction::ReplaceCodepoint(v) => seq![v as char],
        _ => Seq::empty(),
    }
}

/// The characters that action `a` emits for character `c`.
pub open spec fn unit_chars(a: FilterAction, buf: Seq<u8>, c: char) -> Seq<char> {
    match a {
        FilterAction::Keep => seq![c],
        _ => replacement_chars(a, buf),
    }
}

/// Per-codepoint lookup strategy of a text transformation.
pub trait CodepointFilter {
    /// The string buffer that `ReplaceRange` actions point into.
    spec fn spec_buffer(&self) -> Seq<u8>;

    /// The action taken for codepoint `cp`.
    spec fn spec_action(&self, cp: u32) -> FilterAction;

    /// Whether every ASCII codepoint is kept, so that ASCII runs can be skipped.
    spec fn spec_keeps_ascii(&self) -> bool;

    /// The string buffer that `ReplaceRange` actions point into.
    fn buffer(&self) -> (r: &[u8])
        ensures
            r@ == self.spec_buffer(),
    ;

    /// Whether every ASCII codepoint is kept.
    fn keeps_ascii(&self) -> (r: bool)
        ensures
            r == self.spec_keeps_ascii(),
    ;

    /// Decides what to do with an ASCII byte.
    fn filter_ascii(&self, byte: u8) -> (r: FilterAction)
        requires
            byte < 0x80,
        ensures
            r == self.spec_action(byte as u32),
    ;

    /// Decides what to do with a non-ASCII codepoint.
    fn filter_codepoint(&self, cp: u32) -> (r: FilterAction)
        requires
            0x80 <= cp,
            is_scalar(cp),
        ensures
            r == self.spec_action(cp),
    ;

    /// Every action on a scalar can be carried out, and a filter that keeps
    /// ASCII keeps every ASCII codepoint.
    proof fn lemma_action_wf(&self, cp: u32)
        requires
            is_scalar(cp),
        ensures
            action_wf(self.spec_action(cp), self.spec_buffer()),
            self.spec_keeps_ascii() && cp < 0x80 ==> self.spec_action(cp) == FilterAction::Keep,
    ;
}

/// The text that filter `f` makes of the characters `s`.
pub open spec fn filter_chars<F: CodepointFilter>(f: &F, s: Seq<char>) -> Seq<char>
    decreases s.len(),
{
    if s.len() == 0 {
        Seq::empty()
    } else {
        filter_chars(f, s.drop_last()) + unit_chars(
            f.spec_action(s.last() as u32),
            f.spec_buffer(),
            s.last(),
        )
    }
}

/// Whether filter `f` acts on some character of `s`.
pub open spec fn filter_changes<F: CodepointFilter>(f: &F, s: Seq<char>) -> bool {
    exists|i: int| 0 <= i < s.len() && f.spec_action(#[trigger] s[i] as u32) != FilterAction::Keep
}

/// Filtering one more character appends that character's output.
pub proof fn lemma_filter_push<F: CodepointFilter>(f: &F, s: Seq<char>, c: char)
    ensures
        filter_chars(f, s.push(c)) == filter_chars(f, s) + unit_chars(
            f.spec_action(c as u32),
            f.spec_buffer(),
            c,
        ),
{
    assert(s.push(c).drop_last() =~= s);
    assert(s.push(c).last() == c);
}

/// A run of kept characters passes through unchanged.
pub proof fn lemma_filter_keep_run<F: CodepointFilter>(f: &F, s: Seq<char>, a: int, b: int)
    requires
        0 <= a <= b <= s.len(),
        forall|j: int| a <= j < b ==> f.spec_action(#[trigger] s[j] as u32) == FilterAction::Keep,
    ensures
        filter_chars(f, s.take(b)) == filter_chars(f, s.take(a)) + s.subrange(a, b),
    decreases b - a,
{
    if a == b {
        assert(s.subrange(a, b) =~= Seq::<char>::empty());
        assert(filter_chars(f, s.take(a)) + s.subrange(a, b) =~= filter_chars(f, s.take(a)));
    } else {
        lemma_filter_keep_run(f, s, a, b - 1);
        assert(s.take(b) =~= s.take(b - 1).push(s[b - 1]));
        lemma_filter_push(f, s.take(b - 1), s[b - 1]);
        assert(s.subrange(a, b) =~= s.subrange(a, b - 1).push(s[b - 1]));
        assert(filter_chars(f, s.take(b)) =~= filter_chars(f, s.take(a)) + s.subrange(a, b));
    }
}

/// A filter that acts on no character leaves the text unchanged.
pub proof fn lemma_filter_identity<F: CodepointFilter>(f: &F, s: Seq<char>)
    requires
        !filter_changes(f, s),
    ensures
        filter_chars(f, s) == s,
{
    assert forall|j: int| 0 <= j < s.len() implies f.spec_action(#[trigger] s[j] as u32)
        == FilterAction::Keep by {
        if f.spec_action(s[j] as u32) != FilterAction::Keep {
            assert(filter_changes(f, s));
        }
    }
    lemma_filter_keep_run(f, s, 0, s.len() as int);
    assert(s.take(0) =~= Seq::<char>::empty());
    assert(s.take(s.len() as int) =~= s);
    assert(s.subrange(0, s.len() as int) =~= s);
    assert(filter_chars(f, Seq::<char>::empty()) =~= Seq::<char>::empty());
}

/// The UTF-8 bytes that a non-`Keep` action emits.
pub proof fn lemma_replacement_bytes(a: FilterAction, buf: Seq<u8>)
    requires
        action_wf(a, buf),
    ensures
        match a {
            FilterAction::ReplaceRange(s, e) => encode_utf8(replacement_chars(a, buf))
                == buf.subrange(s as int, e as int),
            FilterAction::ReplaceCodepoint(v) => encode_utf8(replacement_chars(a, buf))
                == encode_scalar(v),
            _ => encode_utf8(replacement_chars(a, buf)) == Seq::<u8>::empty(),
        },
{
    match a {
        FilterAction::ReplaceRange(s, e) => {
            decode_utf8_encode_utf8(buf.subrange(s as int, e as int));
        },
        FilterAction::ReplaceCodepoint(v) => {
            lemma_scalar_char_roundtrip(v);
            lemma_encode_utf8_single(v as char);
        },
        _ => {
            assert(encode_utf8(Seq::<char>::empty()) =~= Seq::<u8>::empty());
        },
    }
}

/// Appends the UTF-8 bytes of a non-`Keep` action to `out`.
fn push_replacement(out: &mut Vec<u8>, buf: &[u8], action: &FilterAction)
    requires
        action_wf(*action, buf@),
    ensures
        final(out)@ == old(out)@ + encode_utf8(replacement_chars(*action, buf@)),
{
    proof {
        lemma_replacement_bytes(*action, buf@);
    }
    match action {
        FilterAction::ReplaceRange(s, e) => {
            out.extend_from_slice(&buf[*s..*e]);
        },
        FilterAction::ReplaceCodepoint(v) => {
            let (enc, n) = encode_utf8_raw(*v);
            out.extend_from_slice(&enc.as_slice()[0..n]);
        },
        _ => {
            assert(old(out)@ + Seq::<u8>::empty() =~= old(out)@);
        },
    }
}

/// Cursor over a text that stops at each character that a filter acts on.
pub struct FindIter<'a, F: CodepointFilter> {
    /// The filter that decides each character's action.
    pub filter: &'a F,
    /// The UTF-8 bytes of the text.
    pub bytes: &'a [u8],
    /// Byte offset of the next character to examine.
    pub byte_offset: usize,
    /// The characters of the text.
    pub chars: Ghost<Seq<char>>,
    /// Index of the next character to examine.
    pub k: Ghost<int>,
}

impl<'a, F: CodepointFilter> FindIter<'a, F> {
    /// The cursor sits on the boundary before character `k`.
    pub open spec fn wf(&self) -> bool {
        &&& self.bytes@ == encode_utf8(self.chars@)
        &&& at_char(self.chars@, self.bytes@, self.byte_offset as int, self.k@)
    }

    /// Starts a cursor at the beginning of `text`.
    pub fn new(filter: &'a F, text: &'a str) -> (r: Self)
        ensures
            r.wf(),
            r.filter == filter,
            r.chars@ == text@,
            r.k@ == 0,
            r.byte_offset == 0,
    {
        let bytes = text.as_bytes();
        proof {
            lemma_at_char_start(text@, bytes@);
        }
        FindIter { filter, bytes, byte_offset: 0, chars: Ghost(text@), k: Ghost(0) }
    }

    /// Advances to the next character that the filter acts on, returning its
    /// byte span and the action. Characters passed over are all kept.
    pub fn next(&mut self) -> (r: Option<(usize, usize, FilterAction)>)
        requires
            old(self).wf(),
        ensures
            final(self).wf(),
            final(self).filter == old(self).filter,
            final(self).bytes == old(self).bytes,
            final(self).chars == old(self).chars,
            old(self).k@ <= final(self).k@,
            r is None ==> final(self).k@ == final(self).chars@.len(),
            r is None ==> forall|j: int|
                old(self).k@ <= j < final(self).k@ ==> final(self).filter.spec_action(
                    #[trigger] final(self).chars@[j] as u32,
                ) == FilterAction::Keep,
            r matches Some((s, e, a)) ==> {
                &&& old(self).k@ < final(self).k@
                &&& forall|j: int|
                    old(self).k@ <= j < final(self).k@ - 1 ==> final(self).filter.spec_action(
                        #[trigger] final(self).chars@[j] as u32,
                    ) == FilterAction::Keep
                &&& a == final(self).filter.spec_action(
                    final(self).chars@[final(self).k@ - 1] as u32,
                )
                &&& a != FilterAction::Keep
                &&& action_wf(a, final(self).filter.spec_buffer())
                &&& at_char(final(self).chars@, final(self).bytes@, s as int, final(self).k@ - 1)
                &&& e == final(self).byte_offset
            },
    {
        let ghost k0 = self.k@;
        let len = self.bytes.len();
        let keeps_ascii = self.filter.keeps_ascii();
        loop
            invariant
                self.wf(),
                self.filter == old(self).filter,
                self.bytes == old(self).bytes,
                self.chars == old(self).chars,
                len == self.bytes@.len(),
                keeps_ascii == self.filter.spec_keeps_ascii(),
                k0 == old(self).k@,
                k0 <= self.k@,
                forall|j: int|
                    k0 <= j < self.k@ ==> self.filter.spec_action(#[trigger] self.chars@[j] as u32)
                        == FilterAction::Keep,
            decreases len - self.byte_offset,
        {
            if keeps_ascii {
                let r = skip_ascii_simd(self.bytes, self.byte_offset);
                proof {
                    let o = self.byte_offset as int;
                    let k = self.k@;
                    if o < len {
                        lemma_ascii_run(self.chars@, self.bytes@, o, k, r as int);
                        assert forall|j: int| k0 <= j < k + (r - o) implies self.filter.spec_action(
                            #[trigger] self.chars@[j] as u32,
                        ) == FilterAction::Keep by {
                            if j >= k {
                                char_is_scalar(self.chars@[j]);
                                self.filter.lemma_action_wf(self.chars@[j] as u32);
                            }
                        }
                        self.k@ = k + (r - o);
                    }
                }
                self.byte_offset = r;
            }
            if self.byte_offset >= len {
                proof {
                    lemma_at_char_end(self.chars@, self.bytes@, self.byte_offset as int, self.k@);
                }
                return None;
            }
            let start = self.byte_offset;
            proof {
                lemma_at_char_end(self.chars@, self.bytes@, start as int, self.k@);
                lemma_at_char_step(self.chars@, self.bytes@, start as int, self.k@);
                lemma_char_bytes_shape(self.chars@[self.k@]);
                char_is_scalar(self.chars@[self.k@]);
                self.filter.lemma_action_wf(self.chars@[self.k@] as u32);
            }
            let b = self.bytes[start];
            let action;
            if b < 0x80 {
                action = self.filter.filter_ascii(b);
                self.byte_offset = start + 1;
            } else {
                let (cp, char_len) = decode_utf8_raw(self.bytes, start);
                action = self.filter.filter_codepoint(cp);
                self.byte_offset = start + char_len;
            }
            proof {
                self.k@ = self.k@ + 1;
            }
            match action {
                FilterAction::Keep => {},
                _ => {
                    return Some((start, self.byte_offset, action));
                },
            }
        }
    }
}

/// Applies `filter` to `text`. Returns `None` when the filter acts on no
/// character, and otherwise the filtered text.
pub fn filter_replace<F: CodepointFilter>(filter: &F, text: &str) -> (r: Option<String>)
    ensures
        r is None <==> !filter_changes(filter, text@),
        r matches Some(s) ==> s@ == filter_chars(filter, text@),
{
    let bytes = text.as_bytes();
    let buf = filter.buffer();
    let mut iter = FindIter::new(filter, text);
    let ghost chars = text@;
    let mut out: Vec<u8> = Vec::new();
    let mut last_end: usize = 0;
    let ghost mut last_k: int = 0;
    let mut found_any = false;
    proof {
        assert(chars.take(0) =~= Seq::<char>::empty());
        assert(encode_utf8(Seq::<char>::empty()) =~= Seq::<u8>::empty());
        assert(filter_chars(filter, Seq::<char>::empty()) =~= Seq::<char>::empty());
    }
    loop
        invariant
            iter.wf(),
            iter.filter == filter,
            iter.bytes@ == bytes@,
            iter.chars@ == chars,
            chars == text@,
            bytes@ == encode_utf8(chars),
            buf@ == filter.spec_buffer(),
            0 <= last_k <= iter.k@,
            at_char(chars, bytes@, last_end as int, last_k),
            out@ == encode_utf8(filter_chars(filter, chars.take(last_k))),
            forall|j: int|
                last_k <= j < iter.k@ ==> filter.spec_action(#[trigger] chars[j] as u32)
                    == FilterAction::Keep,
            !found_any ==> last_k == 0,
            !found_any ==> forall|j: int|
                0 <= j < iter.k@ ==> filter.spec_action(#[trigger] chars[j] as u32)
                    == FilterAction::Keep,
            found_any ==> 0 < last_k && filter.spec_action(chars[last_k - 1] as u32)
                != FilterAction::Keep,
        ensures
            iter.k@ == chars.len(),
        decreases chars.len() - iter.k@,
    {
        let item = iter.next();
        match item {
            None => {
                break;
            },
            Some((start, end, action)) => {
                let ghost j = iter.k@ - 1;
                proof {
                    lemma_at_char_between(chars, bytes@, last_end as int, last_k, start as int, j);
                    lemma_filter_keep_run(filter, chars, last_k, j);
                    lemma_encode_utf8_append(
                        filter_chars(filter, chars.take(last_k)),
                        chars.subrange(last_k, j),
                    );
                    assert(chars.take(j + 1) =~= chars.take(j).push(chars[j]));
                    lemma_filter_push(filter, chars.take(j), chars[j]);
                    lemma_encode_utf8_append(
                        filter_chars(filter, chars.take(j)),
                        replacement_chars(action, buf@),
                    );
                }
                out.extend_from_slice(&bytes[last_end..start]);
                push_replacement(&mut out, buf, &action);
                last_end = end;
                proof {
                    last_k = j + 1;
                }
                found_any = true;
            },
        }
    }
    if !found_any {
        proof {
            assert(!filter_changes(filter, text@));
        }
        return None;
    }
    proof {
        lemma_at_char_start(chars, bytes@);
        assert(at_char(chars, bytes@, bytes@.len() as int, chars.len() as int)) by {
            assert(chars.subrange(chars.len() as int, chars.len() as int) =~= Seq::<char>::empty());
            assert(encode_utf8(Seq::<char>::empty()) =~= Seq::<u8>::empty());
            assert(bytes@.subrange(bytes@.len() as int, bytes@.len() as int) =~= Seq::<u8>::empty());
        }
        lemma_at_char_between(
            chars,
            bytes@,
            last_end as int,
            last_k,
            bytes@.len() as int,
            chars.len() as int,
        );
        lemma_filter_keep_run(filter, chars, last_k, chars.len() as int);
        lemma_encode_utf8_append(
            filter_chars(filter, chars.take(last_k)),
            chars.subrange(last_k, chars.len() as int),
        );
        assert(chars.take(chars.len() as int) =~= chars);
        assert(filter_changes(filter, text@));
    }
    let ghost out_before = out@;
    out.extend_from_slice(&bytes[last_end..bytes.len()]);
    proof {
        assert(out@ == out_before + bytes@.subrange(last_end as int, bytes@.len() as int));
        assert(filter_chars(filter, chars.take(chars.len() as int)) == filter_chars(
            filter,
            chars.take(last_k),
        ) + chars.subrange(last_k, chars.len() as int));
        assert(out@ == encode_utf8(filter_chars(filter, chars)));
        encode_utf8_valid_utf8(filter_chars(filter, chars));
        encode_utf8_decode_utf8(filter_chars(filter, chars));
    }
    match string_from_utf8(out) {
        Some(s) => Some(s),
        None => {
            proof {
                assert(false);
            }
            None
        },
    }
}

/// Filtering is a homomorphism: the output of a concatenation is the
/// concatenation of the outputs.
pub proof fn lemma_filter_append<F: CodepointFilter>(f: &F, a: Seq<char>, b: Seq<char>)
    ensures
        filter_chars(f, a + b) == filter_chars(f, a) + filter_chars(f, b),
    decreases b.len(),
{
    if b.len() == 0 {
        assert(a + b =~= a);
        assert(filter_chars(f, b) =~= Seq::<char>::empty());
        assert(filter_chars(f, a) + filter_chars(f, b) =~= filter_chars(f, a));
    } else {
        lemma_filter_append(f, a, b.drop_last());
        assert((a + b).drop_last() =~= a + b.drop_last());
        assert((a + b).last() == b.last());
        assert(filter_chars(f, a + b) =~= filter_chars(f, a) + filter_chars(f, b));
    }
}

/// Streaming byte iterator over the filtered form of a text.
///
/// Yields the UTF-8 bytes of [`filter_chars`] one at a time without
/// materializing the filtered string.
pub struct FilterIterator<'a, F: CodepointFilter> {
    /// The filter that decides each character's action.
    pub filter: &'a F,
    /// The UTF-8 bytes of the text.
    pub bytes: &'a [u8],
    /// Byte offset of the next character to examine.
    pub offset: usize,
    /// Buffer holding pending bytes: the rest of a kept character, or of a
    /// replacement range.
    pub pending_src: &'a [u8],
    /// Next pending byte in `pending_src`.
    pub pending_pos: usize,
    /// End of the pending bytes in `pending_src`.
    pub pending_end: usize,
    /// Encoded replacement codepoint.
    pub buf: [u8; 4],
    /// Next pending byte in `buf`.
    pub buf_pos: usize,
    /// Number of bytes in `buf`.
    pub buf_len: usize,
    /// The characters of the text.
    pub chars: Ghost<Seq<char>>,
    /// Number of characters consumed.
    pub k: Ghost<int>,
    /// The bytes yielded so far.
    pub produced: Ghost<Seq<u8>>,
}

impl<'a, F: CodepointFilter> FilterIterator<'a, F> {
    /// Bytes decided but not yet yielded.
    pub open spec fn pending(&self) -> Seq<u8> {
        self.pending_src@.subrange(self.pending_pos as int, self.pending_end as int)
            + self.buf@.subrange(self.buf_pos as int, self.buf_len as int)
    }

    /// The whole byte stream that the iterator yields.
    pub open spec fn total(&self) -> Seq<u8> {
        encode_utf8(filter_chars(self.filter, self.chars@))
    }

    /// The bytes yielded so far and the pending ones are the encoding of the
    /// filtered prefix of `k` characters.
    pub open spec fn wf(&self) -> bool {
        &&& self.bytes@ == encode_utf8(self.chars@)
        &&& at_char(self.chars@, self.bytes@, self.offset as int, self.k@)
        &&& self.pending_pos <= self.pending_end <= self.pending_src@.len()
        &&& self.buf_pos <= self.buf_len <= 4
        &&& self.produced@ + self.pending() == encode_utf8(
            filter_chars(self.filter, self.chars@.take(self.k@)),
        )
    }

    /// What a well-formed iterator has yielded is a prefix of the whole
    /// stream, so it yields at most as many bytes as the stream holds.
    pub proof fn lemma_produced_prefix(&self)
        requires
            self.wf(),
        ensures
            self.produced@.len() <= self.total().len(),
            self.produced@ == self.total().take(self.produced@.len() as int),
    {
        let k = self.k@;
        let head = self.chars@.take(k);
        let tail = self.chars@.skip(k);
        assert(head + tail =~= self.chars@);
        lemma_filter_append(self.filter, head, tail);
        lemma_encode_utf8_append(filter_chars(self.filter, head), filter_chars(self.filter, tail));
        let done = encode_utf8(filter_chars(self.filter, head));
        assert(self.total() == done + encode_utf8(filter_chars(self.filter, tail)));
        assert(self.produced@ =~= done.take(self.produced@.len() as int));
        assert(self.produced@ =~= self.total().take(self.produced@.len() as int));
    }

    /// Starts streaming the filtered form of `text`.
    pub fn new(text: &'a str, filter: &'a F) -> (r: Self)
        ensures
            r.wf(),
            r.filter == filter,
            r.chars@ == text@,
            r.produced@ == Seq::<u8>::empty(),
    {
        let bytes = text.as_bytes();
        proof {
            lemma_at_char_start(text@, bytes@);
            assert(text@.take(0) =~= Seq::<char>::empty());
            assert(filter_chars(filter, Seq::<char>::empty()) =~= Seq::<char>::empty());
            assert(encode_utf8(Seq::<char>::empty()) =~= Seq::<u8>::empty());
        }
        let r = FilterIterator {
            filter,
            bytes,
            offset: 0,
            pending_src: bytes,
            pending_pos: 0,
            pending_end: 0,
            buf: [0u8; 4],
            buf_pos: 0,
            buf_len: 0,
            chars: Ghost(text@),
            k: Ghost(0),
            produced: Ghost(Seq::empty()),
        };
        assert(r.pending() =~= Seq::<u8>::empty());
        r
    }

    /// Yields the next byte of the filtered text, or `None` at its end.
    pub fn next(&mut self) -> (r: Option<u8>)
        requires
            old(self).wf(),
        ensures
            final(self).wf(),
            final(self).filter == old(self).filter,
            final(self).chars == old(self).chars,
            r matches Some(b) ==> final(self).produced@ == old(self).produced@.push(b),
            r is None ==> final(self).produced@ == old(self).produced@,
            r is None ==> final(self).produced@ == final(self).total(),
            final(self).produced@.len() <= final(self).total().len(),
    {
        if self.pending_pos < self.pending_end {
            let b = self.pending_src[self.pending_pos];
            self.pending_pos = self.pending_pos + 1;
            proof {
                let old_pending = old(self).pending_src@.subrange(
                    old(self).pending_pos as int,
                    old(self).pending_end as int,
                );
                assert(old_pending =~= seq![b] + self.pending_src@.subrange(
                    self.pending_pos as int,
                    self.pending_end as int,
                ));
                self.produced@ = self.produced@.push(b);
                assert(self.produced@ + self.pending() =~= old(self).produced@ + old(self).pending());
            }
            proof { self.lemma_produced_prefix(); }
            return Some(b);
        }
        if self.buf_pos < self.buf_len {
            let b = self.buf[self.buf_pos];
            self.buf_pos = self.buf_pos + 1;
            proof {
                assert(old(self).buf@.subrange(old(self).buf_pos as int, old(self).buf_len as int)
                    =~= seq![b] + self.buf@.subrange(self.buf_pos as int, self.buf_len as int));
                self.produced@ = self.produced@.push(b);
                assert(self.produced@ + self.pending() =~= old(self).produced@ + old(self).pending());
            }
            proof { self.lemma_produced_prefix(); }
            return Some(b);
        }
        let len = self.bytes.len();
        proof {
            assert(self.pending() =~= Seq::<u8>::empty());
            assert(self.produced@ + self.pending() =~= self.produced@);
        }
        loop
            invariant
                self.wf(),
                self.filter == old(self).filter,
                self.chars == old(self).chars,
                self.produced == old(self).produced,
                self.pending() == Seq::<u8>::empty(),
                len == self.bytes@.len(),
            decreases len - self.offset,
        {
            if self.offset >= len {
                proof {
                    lemma_at_char_end(self.chars@, self.bytes@, self.offset as int, self.k@);
                    assert(self.chars@.take(self.k@) =~= self.chars@);
                    assert(self.produced@ + self.pending() =~= self.produced@);
                }
                proof { self.lemma_produced_prefix(); }
                return None;
            }
            let start = self.offset;
            let ghost c = self.chars@[self.k@];
            let ghost prefix = filter_chars(self.filter, self.chars@.take(self.k@));
            proof {
                lemma_at_char_end(self.chars@, self.bytes@, start as int, self.k@);
                lemma_at_char_step(self.chars@, self.bytes@, start as int, self.k@);
                lemma_char_bytes_shape(c);
                char_is_scalar(c);
                self.filter.lemma_action_wf(c as u32);
                assert(self.chars@.take(self.k@ + 1) =~= self.chars@.take(self.k@).push(c));
                lemma_filter_push(self.filter, self.chars@.take(self.k@), c);
                assert(self.produced@ + self.pending() =~= self.produced@);
            }
            let b = self.bytes[start];
            let action;
            let char_len;
            if b < 0x80 {
                action = self.filter.filter_ascii(b);
                char_len = 1;
            } else {
                let (cp, n) = decode_utf8_raw(self.bytes, start);
                action = self.filter.filter_codepoint(cp);
                char_len = n;
            }
            self.offset = start + char_len;
            proof {
                self.k@ = self.k@ + 1;
            }
            match action {
                FilterAction::Keep => {
                    self.pending_src = self.bytes;
                    self.pending_pos = start + 1;
                    self.pending_end = start + char_len;
                    proof {
                        lemma_encode_utf8_append(prefix, seq![c]);
                        lemma_encode_utf8_single(c);
                        let cb = char_bytes(c);
                        assert(cb =~= seq![b] + self.bytes@.subrange(
                            start + 1,
                            start + char_len,
                        ));
                        self.produced@ = self.produced@.push(b);
                        assert(self.produced@ + self.pending() =~= old(self).produced@ + cb);
                    }
                    proof { self.lemma_produced_prefix(); }
                    return Some(b);
                },
                FilterAction::Delete => {
                    proof {
                        assert(unit_chars(action, self.filter.spec_buffer(), c) =~= Seq::<
                            char,
                        >::empty());
                        assert(prefix + Seq::<char>::empty() =~= prefix);
                    }
                },
                FilterAction::ReplaceRange(s, e) => {
                    proof {
                        lemma_replacement_bytes(action, self.filter.spec_buffer());
                        lemma_encode_utf8_append(
                            prefix,
                            replacement_chars(action, self.filter.spec_buffer()),
                        );
                    }
                    if s == e {
                        proof {
                            assert(self.filter.spec_buffer().subrange(s as int, e as int)
                                =~= Seq::<u8>::empty());
                            assert(encode_utf8(prefix) + Seq::<u8>::empty() =~= encode_utf8(prefix));
                        }
                    } else {
                        let buffer = self.filter.buffer();
                        let first = buffer[s];
                        self.pending_src = buffer;
                        self.pending_pos = s + 1;
                        self.pending_end = e;
                        proof {
                            assert(buffer@.subrange(s as int, e as int) =~= seq![first]
                                + buffer@.subrange(s + 1, e as int));
                            self.produced@ = self.produced@.push(first);
                            assert(self.produced@ + self.pending() =~= old(self).produced@
                                + buffer@.subrange(s as int, e as int));
                        }
                        proof { self.lemma_produced_prefix(); }
                        return Some(first);
                    }
                },
                FilterAction::ReplaceCodepoint(v) => {
                    proof {
                        lemma_replacement_bytes(action, self.filter.spec_buffer());
                        lemma_encode_utf8_append(
                            prefix,
                            replacement_chars(action, self.filter.spec_buffer()),
                        );
                    }
                    let (enc, n) = encode_utf8_raw(v);
                    self.buf = enc;
                    self.buf_pos = 1;
                    self.buf_len = n;
                    let first = enc[0];
                    proof {
                        assert(enc@.subrange(0, n as int) =~= seq![first] + enc@.subrange(
                            1,
                            n as int,
                        ));
                        self.produced@ = self.produced@.push(first);
                        assert(self.produced@ + self.pending() =~= old(self).produced@
                            + encode_scalar(v));
                    }
                    proof { self.lemma_produced_prefix(); }
                    return Some(first);
                },
            }
        }
    }
}

} // verus!
