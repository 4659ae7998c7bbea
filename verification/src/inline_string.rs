//! A short UTF-8 string held entirely in a fixed-size, stack-resident byte
//! buffer. It can never be longer than [`INLINE_STRING_CAPACITY`] bytes.
//!
//! The capacity restriction makes many operations fallible that would be
//! infallible on a growable string: the growing operations return
//! [`NotEnoughCapacity`] when the result would not fit, and never apply
//! partially on failure.

use crate::codec;
use crate::ranges::{end_of, resolve_bounds, start_of, RangeBound};
use vstd::prelude::*;
use vstd::string::StringSliceAdditionalSpecFns;
use vstd::utf8::*;

verus! {

/// The capacity, in bytes, of the inline storage of [`InlineString`].
///
/// The value is the size of a heap-allocated string value (three words)
/// plus one further word, minus two bytes of bookkeeping, so that an
/// [`InlineString`] together with its length byte is no larger than the
/// heap-backed alternative it replaces.
pub const INLINE_STRING_CAPACITY: usize = 30;

/// The error returned when the result of an operation would be longer than
/// [`INLINE_STRING_CAPACITY`] bytes.
#[derive(Debug, Copy, Clone, PartialEq, Eq, Structural)]
pub struct NotEnoughCapacity;

/// A short UTF-8 string stored in a fixed-size buffer inside the value
/// itself, with no heap allocation.
///
/// The first `length` bytes of `bytes` hold the content and are always
/// well-formed UTF-8; the remaining bytes are irrelevant filler.
#[derive(Clone, Copy, Debug)]
pub struct InlineString {
    length: u8,
    bytes: [u8; 30],
}

impl View for InlineString {
    type V = Seq<u8>;

    /// The content of the string: its first `length` bytes.
    closed spec fn view(&self) -> Seq<u8> {
        self.bytes@.subrange(0, self.length as int)
    }
}

impl InlineString {
    /// Well-formed values hold no more than the capacity and their content
    /// is valid UTF-8.
    pub closed spec fn wf(&self) -> bool {
        &&& self.length as int <= INLINE_STRING_CAPACITY as int
        &&& valid_utf8(self@)
    }

    /// What well-formedness guarantees: the content is valid UTF-8 and fits
    /// the inline capacity.
    pub proof fn lemma_wf(&self)
        requires
            self.wf(),
        ensures
            valid_utf8(self@),
            self@.len() <= INLINE_STRING_CAPACITY as int,
    {
    }

    /// Creates a new string buffer initialized with the empty string.
    pub fn new() -> (r: InlineString)
        ensures
            r.wf(),
            r@ == Seq::<u8>::empty(),
    {
        let r = InlineString { length: 0, bytes: [0; 30] };
        proof {
            assert(r@ =~= Seq::<u8>::empty());
        }
        r
    }

    /// Returns the number of bytes in this string.
    pub fn len(&self) -> (n: usize)
        requires
            self.wf(),
        ensures
            n == self@.len(),
    {
        self.length as usize
    }

    /// Returns true if the string contains no bytes.
    pub fn is_empty(&self) -> (r: bool)
        requires
            self.wf(),
        ensures
            r == (self@.len() == 0),
    {
        self.length == 0
    }

    /// Works with the underlying buffer as a byte slice.
    pub fn as_bytes(&self) -> (r: &[u8])
        requires
            self.wf(),
        ensures
            r@ == self@,
    {
        &self.bytes[0..self.length as usize]
    }

    /// Builds an inline buffer holding the given well-formed bytes.
    pub(crate) fn from_byte_slice(src: &[u8]) -> (r: InlineString)
        requires
            src@.len() <= INLINE_STRING_CAPACITY as int,
            valid_utf8(src@),
        ensures
            r.wf(),
            r@ == src@,
    {
        let mut r = InlineString::new();
        array_copy_from_slice(&mut r.bytes, 0, src);
        r.length = src.len() as u8;
        proof {
            assert(r@ =~= src@);
        }
        r
    }

    /// Turns a string slice into an inline buffer when its content fits;
    /// fails with [`NotEnoughCapacity`] otherwise, allocating in neither
    /// case.
    pub fn try_from(string: &str) -> (r: Result<InlineString, NotEnoughCapacity>)
        ensures
            string.spec_bytes().len() <= INLINE_STRING_CAPACITY as int <==> r is Ok,
            r matches Ok(s) ==> s.wf() && s@ == string.spec_bytes(),
    {
        proof {
            encode_utf8_valid_utf8(string@);
        }
        let b = string.as_bytes();
        if b.len() <= INLINE_STRING_CAPACITY {
            Ok(Self::from_byte_slice(b))
        } else {
            Err(NotEnoughCapacity)
        }
    }

    /// Returns the underlying byte buffer, encoded as UTF-8; the filler
    /// bytes past the content are zeroed.
    pub fn into_bytes(self) -> (r: [u8; 30])
        requires
            self.wf(),
        ensures
            r@.subrange(0, self@.len() as int) == self@,
            forall|k: int| self@.len() <= k < 30 ==> r@[k] == 0,
    {
        let mut this = self;
        let mut i = this.length as usize;
        while i < 30
            invariant
                this.length as usize <= i <= 30,
                this.length == self.length,
                forall|k: int| 0 <= k < this.length as int ==> this.bytes@[k] == self.bytes@[k],
                forall|k: int| self.length as int <= k < i ==> this.bytes@[k] == 0,
            decreases 30 - i,
        {
            this.bytes[i] = 0;
            i = i + 1;
        }
        proof {
            assert(this.bytes@.subrange(0, self@.len() as int) =~= self@);
        }
        this.bytes
    }

    /// Pushes the given string onto this string buffer; fails with
    /// [`NotEnoughCapacity`], changing nothing, when the result would not
    /// fit.
    pub fn push_str(&mut self, string: &str) -> (r: Result<(), NotEnoughCapacity>)
        requires
            old(self).wf(),
        ensures
            final (self).wf(),
            old(self)@.len() + string.spec_bytes().len() <= INLINE_STRING_CAPACITY as int <==> r
                is Ok,
            r is Ok ==> final (self)@ == old(self)@ + string.spec_bytes(),
            r is Err ==> *final (self) == *old(self),
    {
        proof {
            encode_utf8_valid_utf8(string@);
        }
        let b = string.as_bytes();
        let len = self.length as usize;
        if b.len() > INLINE_STRING_CAPACITY - len {
            return Err(NotEnoughCapacity);
        }
        array_copy_from_slice(&mut self.bytes, len, b);
        self.length = (len + b.len()) as u8;
        proof {
            assert(self@ =~= old(self)@ + string.spec_bytes());
            valid_utf8_concat(old(self)@, string.spec_bytes());
        }
        Ok(())
    }

    /// Adds the given character to the end of the string; fails with
    /// [`NotEnoughCapacity`], changing nothing, when the result would not
    /// fit.
    pub fn push(&mut self, ch: char) -> (r: Result<(), NotEnoughCapacity>)
        requires
            old(self).wf(),
        ensures
            final (self).wf(),
            old(self)@.len() + encode_scalar(ch as u32).len() <= INLINE_STRING_CAPACITY as int
                <==> r is Ok,
            r is Ok ==> final (self)@ == old(self)@ + encode_scalar(ch as u32),
            r is Err ==> *final (self) == *old(self),
    {
        proof {
            codec::lemma_encode_scalar_of_char(ch);
        }
        let (buf, w) = codec::encode_char(ch);
        let len = self.length as usize;
        if w > INLINE_STRING_CAPACITY - len {
            return Err(NotEnoughCapacity);
        }
        let src = &buf[0..w];
        array_copy_from_slice(&mut self.bytes, len, src);
        self.length = (len + w) as u8;
        proof {
            assert(self@ =~= old(self)@ + encode_scalar(ch as u32));
            valid_utf8_concat(old(self)@, encode_scalar(ch as u32));
        }
        Ok(())
    }

    /// Shortens the string to `new_len` bytes, which must lie on a character
    /// boundary; does nothing when the string is already no longer than
    /// that.
    pub fn truncate(&mut self, new_len: usize)
        requires
            old(self).wf(),
            new_len < old(self)@.len() ==> is_char_boundary(old(self)@, new_len as int),
        ensures
            final (self).wf(),
            new_len >= old(self)@.len() ==> *final (self) == *old(self),
            new_len < old(self)@.len() ==> final (self)@ == old(self)@.subrange(
                0,
                new_len as int,
            ),
    {
        if new_len < self.length as usize {
            proof {
                valid_utf8_split(old(self)@, new_len as int);
            }
            self.length = new_len as u8;
            proof {
                assert(self@ =~= old(self)@.subrange(0, new_len as int));
            }
        }
    }

    /// Truncates the string, returning it to zero length.
    pub fn clear(&mut self)
        requires
            old(self).wf(),
        ensures
            final (self).wf(),
            final (self)@ == Seq::<u8>::empty(),
    {
        self.length = 0;
        proof {
            assert(self@ =~= Seq::<u8>::empty());
        }
    }

    /// Removes the last character from the string buffer and returns it;
    /// returns `None` on an empty buffer.
    pub fn pop(&mut self) -> (r: Option<char>)
        requires
            old(self).wf(),
        ensures
            final (self).wf(),
            old(self)@.len() == 0 ==> r is None && *final (self) == *old(self),
            old(self)@.len() > 0 ==> {
                let l = length_of_last_scalar(old(self)@);
                &&& r matches Some(c) && c as u32 == decode_last_scalar(old(self)@)
                &&& final (self)@ == old(self)@.subrange(0, old(self)@.len() - l)
            },
    {
        if self.length == 0 {
            return None;
        }
        let len = self.length as usize;
        let ghost s = self@;
        proof {
            codec::lemma_last_scalar(s);
        }
        let content = &self.bytes[0..len];
        assert(content@ == s);
        let l = codec::last_scalar_len(content);
        let (c, w) = codec::decode_char_in(content, len - l);
        proof {
            assert(s.subrange(len - l, len as int) =~= take_last_scalar(s));
            valid_utf8_split(s, (len - l) as int);
        }
        self.length = (len - l) as u8;
        proof {
            assert(self@ =~= s.subrange(0, len - l));
        }
        Some(c)
    }

    /// Removes the character starting at byte offset `idx` and returns it,
    /// closing the gap it leaves.
    pub fn remove(&mut self, idx: usize) -> (r: char)
        requires
            old(self).wf(),
            idx < old(self)@.len(),
            is_char_boundary(old(self)@, idx as int),
        ensures
            final (self).wf(),
            ({
                let s = old(self)@;
                let w = length_of_first_scalar(s.subrange(idx as int, s.len() as int));
                &&& r as u32 == decode_first_scalar(s.subrange(idx as int, s.len() as int))
                &&& encode_scalar(r as u32) == s.subrange(idx as int, idx + w)
                &&& final (self)@ == s.subrange(0, idx as int) + s.subrange(
                    idx + w,
                    s.len() as int,
                )
            }),
    {
        let len = self.length as usize;
        let ghost s = self@;
        let (c, w) = {
            let content = &self.bytes[0..len];
            assert(content@ == s);
            codec::decode_char_in(content, idx)
        };
        array_copy_within(&mut self.bytes, idx + w, len, idx);
        self.length = (len - w) as u8;
        proof {
            valid_utf8_split(s, idx as int);
            let suffix = s.subrange(idx as int, s.len() as int);
            assert(suffix.subrange(0, suffix.len() as int) =~= suffix);
            codec::lemma_boundary_after_scalar(suffix, 0);
            valid_utf8_split(suffix, w as int);
            assert(suffix.subrange(w as int, suffix.len() as int) =~= s.subrange(
                idx + w,
                s.len() as int,
            ));
            valid_utf8_concat(s.subrange(0, idx as int), s.subrange(idx + w, s.len() as int));
            assert(self@ =~= s.subrange(0, idx as int) + s.subrange(idx + w, s.len() as int));
        }
        c
    }

    /// Removes the described byte range, whose ends must lie on character
    /// boundaries, shifting the tail of the string left to close the gap.
    pub fn remove_range(&mut self, start: RangeBound, end: RangeBound)
        requires
            old(self).wf(),
            ({
                let s = start_of(start);
                let e = end_of(end, old(self)@.len() as int);
                &&& 0 <= s <= e <= old(self)@.len()
                &&& is_char_boundary(old(self)@, s)
                &&& is_char_boundary(old(self)@, e)
            }),
        ensures
            final (self).wf(),
            final (self)@ == old(self)@.subrange(0, start_of(start)) + old(self)@.subrange(
                end_of(end, old(self)@.len() as int),
                old(self)@.len() as int,
            ),
    {
        let len = self.length as usize;
        let ghost sv = self@;
        let (s, e) = resolve_bounds(start, end, len);
        array_copy_within(&mut self.bytes, e, len, s);
        self.length = (len - (e - s)) as u8;
        proof {
            valid_utf8_split(sv, e as int);
            codec::lemma_boundary_of_prefix(sv, e as int, s as int);
            valid_utf8_split(sv.subrange(0, e as int), s as int);
            assert(sv.subrange(0, e as int).subrange(0, s as int) =~= sv.subrange(0, s as int));
            valid_utf8_concat(sv.subrange(0, s as int), sv.subrange(e as int, sv.len() as int));
            assert(self@ =~= sv.subrange(0, s as int) + sv.subrange(e as int, sv.len() as int));
        }
    }

    /// Inserts a string at byte offset `idx`, which must lie on a character
    /// boundary whenever the result fits; fails with [`NotEnoughCapacity`],
    /// changing nothing, when the result would not fit.
    pub fn insert_str(&mut self, idx: usize, string: &str) -> (r: Result<(), NotEnoughCapacity>)
        requires
            old(self).wf(),
            old(self)@.len() + string.spec_bytes().len() <= INLINE_STRING_CAPACITY as int ==> idx
                <= old(self)@.len() && is_char_boundary(old(self)@, idx as int),
        ensures
            final (self).wf(),
            old(self)@.len() + string.spec_bytes().len() <= INLINE_STRING_CAPACITY as int <==> r
                is Ok,
            r is Ok ==> final (self)@ == old(self)@.subrange(0, idx as int)
                + string.spec_bytes() + old(self)@.subrange(idx as int, old(self)@.len() as int),
            r is Err ==> *final (self) == *old(self),
    {
        proof {
            encode_utf8_valid_utf8(string@);
        }
        let b = string.as_bytes();
        let len = self.length as usize;
        if b.len() > INLINE_STRING_CAPACITY - len {
            return Err(NotEnoughCapacity);
        }
        let amt = b.len();
        let ghost s = self@;
        array_copy_within(&mut self.bytes, idx, len, idx + amt);
        array_copy_from_slice(&mut self.bytes, idx, b);
        self.length = (len + amt) as u8;
        proof {
            assert(self@ =~= s.subrange(0, idx as int) + string.spec_bytes() + s.subrange(
                idx as int,
                s.len() as int,
            ));
            valid_utf8_split(s, idx as int);
            valid_utf8_concat(s.subrange(0, idx as int), string.spec_bytes());
            valid_utf8_concat(
                s.subrange(0, idx as int) + string.spec_bytes(),
                s.subrange(idx as int, s.len() as int),
            );
        }
        Ok(())
    }

    /// Inserts a character at byte offset `idx`, which must lie on a
    /// character boundary whenever the result fits; fails with
    /// [`NotEnoughCapacity`], changing nothing, when the result would not
    /// fit.
    pub fn insert(&mut self, idx: usize, ch: char) -> (r: Result<(), NotEnoughCapacity>)
        requires
            old(self).wf(),
            old(self)@.len() + encode_scalar(ch as u32).len() <= INLINE_STRING_CAPACITY as int
                ==> idx <= old(self)@.len() && is_char_boundary(old(self)@, idx as int),
        ensures
            final (self).wf(),
            old(self)@.len() + encode_scalar(ch as u32).len() <= INLINE_STRING_CAPACITY as int
                <==> r is Ok,
            r is Ok ==> final (self)@ == old(self)@.subrange(0, idx as int) + encode_scalar(
                ch as u32,
            ) + old(self)@.subrange(idx as int, old(self)@.len() as int),
            r is Err ==> *final (self) == *old(self),
    {
        proof {
            codec::lemma_encode_scalar_of_char(ch);
        }
        let (buf, w) = codec::encode_char(ch);
        let len = self.length as usize;
        if w > INLINE_STRING_CAPACITY - len {
            return Err(NotEnoughCapacity);
        }
        let ghost s = self@;
        array_copy_within(&mut self.bytes, idx, len, idx + w);
        array_copy_from_slice(&mut self.bytes, idx, &buf[0..w]);
        self.length = (len + w) as u8;
        proof {
            assert(self@ =~= s.subrange(0, idx as int) + encode_scalar(ch as u32) + s.subrange(
                idx as int,
                s.len() as int,
            ));
            valid_utf8_split(s, idx as int);
            valid_utf8_concat(s.subrange(0, idx as int), encode_scalar(ch as u32));
            valid_utf8_concat(
                s.subrange(0, idx as int) + encode_scalar(ch as u32),
                s.subrange(idx as int, s.len() as int),
            );
        }
        Ok(())
    }

    /// Splits the string into two at the given byte offset, which must lie
    /// on a character boundary: `self` keeps the bytes before `at`, and the
    /// returned buffer holds the bytes from `at` onward.
    #[must_use]
    pub fn split_off(&mut self, at: usize) -> (r: InlineString)
        requires
            old(self).wf(),
            at <= old(self)@.len(),
            is_char_boundary(old(self)@, at as int),
        ensures
            final (self).wf(),
            r.wf(),
            final (self)@ == old(self)@.subrange(0, at as int),
            r@ == old(self)@.subrange(at as int, old(self)@.len() as int),
    {
        let len = self.length as usize;
        let ghost s = self@;
        proof {
            valid_utf8_split(s, at as int);
        }
        let r = {
            let tail = &self.bytes[at..len];
            assert(tail@ =~= s.subrange(at as int, s.len() as int));
            Self::from_byte_slice(tail)
        };
        self.length = at as u8;
        proof {
            assert(self@ =~= s.subrange(0, at as int));
        }
        r
    }

    /// Retains only the characters for which the predicate returns true,
    /// visiting each character exactly once in the original order and
    /// preserving the order of the retained characters.
    pub fn retain<F: Fn(char) -> bool>(&mut self, f: F)
        requires
            old(self).wf(),
            forall|c: char| #[trigger] call_requires(f, (c,)),
        ensures
            final (self).wf(),
            exists|keep: Seq<bool>|
                #![trigger crate::codec::select_chars(decode_utf8(old(self)@), keep)]
                {
                    &&& keep.len() == decode_utf8(old(self)@).len()
                    &&& (forall|k: int|
                        0 <= k < keep.len() ==> #[trigger] call_ensures(
                            f,
                            (decode_utf8(old(self)@)[k],),
                            keep[k],
                        ))
                    &&& final (self)@ == encode_utf8(
                        crate::codec::select_chars(decode_utf8(old(self)@), keep),
                    )
                },
    {
        let len = self.length as usize;
        let ghost s = self@;
        let ghost cs = decode_utf8(s);
        let mut out = InlineString::new();
        let mut i: usize = 0;
        let ghost mut done: Seq<char> = Seq::empty();
        let ghost mut keep: Seq<bool> = Seq::empty();
        proof {
            assert(s.subrange(0, 0) =~= Seq::<u8>::empty());
        }
        while i < len
            invariant
                self.wf(),
                s == self@,
                len == s.len(),
                0 <= i <= len,
                len <= 30,
                is_char_boundary(s, i as int),
                done == decode_utf8(s.subrange(0, i as int)),
                keep.len() == done.len(),
                forall|k: int|
                    0 <= k < keep.len() ==> #[trigger] call_ensures(f, (done[k],), keep[k]),
                out.wf(),
                out@.len() <= i,
                out@ == encode_utf8(codec::select_chars(done, keep)),
                forall|c: char| #[trigger] call_requires(f, (c,)),
            decreases len - i,
        {
            let (c, w) = {
                let content = &self.bytes[0..len];
                assert(content@ == s);
                codec::decode_char_in(content, i)
            };
            let b = f(c);
            proof {
                valid_utf8_split(s, (i + w) as int);
                let prefix2 = s.subrange(0, (i + w) as int);
                codec::lemma_boundary_of_prefix(s, (i + w) as int, i as int);
                decode_utf8_split(prefix2, i as int);
                assert(prefix2.subrange(0, i as int) =~= s.subrange(0, i as int));
                assert(prefix2.subrange(i as int, (i + w) as int) =~= s.subrange(
                    i as int,
                    (i + w) as int,
                ));
                assert(s.subrange(i as int, s.len() as int).subrange(0, w as int) =~= s.subrange(
                    i as int,
                    (i + w) as int,
                ));
                assert(s.subrange(i as int, (i + w) as int) == encode_scalar(c as u32)) by {
                    assert(encode_scalar(c as u32) == s.subrange(i as int, s.len() as int).subrange(
                        0,
                        w as int,
                    )) by {
                        valid_utf8_split(s, i as int);
                        assert(take_first_scalar(s.subrange(i as int, s.len() as int))
                            == s.subrange(i as int, s.len() as int).subrange(0, w as int));
                        decode_utf8_first_scalar(s.subrange(i as int, s.len() as int));
                        char_u32_cast(c, decode_first_scalar(s.subrange(i as int, s.len() as int)));
                    }
                }
                codec::lemma_encode_scalar_of_char(c);
                encode_utf8_decode_utf8(seq![c]);
                assert(decode_utf8(prefix2) =~= done + seq![c]);
                codec::lemma_select_chars_snoc(done, keep, c, b);
                codec::lemma_encode_utf8_concat(
                    codec::select_chars(done, keep),
                    if b {
                        seq![c]
                    } else {
                        Seq::<char>::empty()
                    },
                );
            }
            if b {
                let ghost out_old = out@;
                let ol = out.length as usize;
                {
                    let src = &self.bytes[i..i + w];
                    assert(src@ =~= s.subrange(i as int, (i + w) as int));
                    array_copy_from_slice(&mut out.bytes, ol, src);
                }
                out.length = (ol + w) as u8;
                proof {
                    assert(out@ =~= out_old + encode_scalar(c as u32));
                    valid_utf8_concat(out_old, encode_scalar(c as u32));
                }
            } else {
                proof {
                    assert(encode_utf8(Seq::<char>::empty()) == Seq::<u8>::empty());
                    assert(out@ + encode_utf8(Seq::<char>::empty()) =~= out@);
                }
            }
            proof {
                done = done + seq![c];
                keep = keep + seq![b];
            }
            i = i + w;
        }
        proof {
            assert(s.subrange(0, len as int) =~= s);
            assert(done == cs);
        }
        *self = out;
        proof {
            let ghost keep_w = keep;
            assert({
                &&& keep_w.len() == cs.len()
                &&& (forall|k: int|
                    0 <= k < keep_w.len() ==> #[trigger] call_ensures(f, (cs[k],), keep_w[k]))
                &&& self@ == encode_utf8(codec::select_chars(cs, keep_w))
            });
        }
    }
}

/// Law: for any well-formed byte sequence that fits the inline capacity,
/// building an inline buffer from the text those bytes spell — which
/// [`InlineString::try_from`] guarantees to succeed with exactly the text's
/// bytes — and reading it back gives the original bytes: the encoding of
/// the decoded characters is the input itself.
pub proof fn lemma_try_from_round_trip(b: Seq<u8>)
    requires
        valid_utf8(b),
        b.len() <= INLINE_STRING_CAPACITY as int,
    ensures
        encode_utf8(decode_utf8(b)) == b,
{
    decode_utf8_encode_utf8(b);
}

/// Copies `src` into `buf` starting at offset `at`; the bytes outside the
/// written region keep their values.
fn array_copy_from_slice(buf: &mut [u8; 30], at: usize, src: &[u8])
    requires
        at + src@.len() <= 30,
    ensures
        forall|k: int|
            at <= k < at + src@.len() ==> #[trigger] final (buf)@[k] == src@[k - at],
        forall|k: int|
            (0 <= k < at || at + src@.len() <= k < 30) ==> #[trigger] final (buf)@[k] == old(
                buf,
            )@[k],
{
    let n = src.len();
    let mut i: usize = 0;
    while i < n
        invariant
            0 <= i <= n,
            n == src@.len(),
            at + n <= 30,
            forall|k: int| at <= k < at + i ==> #[trigger] buf@[k] == src@[k - at],
            forall|k: int|
                (0 <= k < at || at + i <= k < 30) ==> #[trigger] buf@[k] == old(buf)@[k],
        decreases n - i,
    {
        buf[at + i] = src[i];
        i = i + 1;
    }
}

/// Moves the bytes of `buf` in `[src_start, src_end)` so that they start at
/// `dst`, tolerating overlap between the two regions; the bytes outside the
/// written region keep their values.
fn array_copy_within(buf: &mut [u8; 30], src_start: usize, src_end: usize, dst: usize)
    requires
        src_start <= src_end <= 30,
        dst + (src_end - src_start) <= 30,
    ensures
        forall|k: int|
            dst <= k < dst + (src_end - src_start) ==> #[trigger] final (buf)@[k] == old(
                buf,
            )@[k - dst + src_start],
        forall|k: int|
            (0 <= k < dst || dst + (src_end - src_start) <= k < 30)
                ==> #[trigger] final (buf)@[k] == old(buf)@[k],
{
    let cnt = src_end - src_start;
    if dst <= src_start {
        let mut i: usize = 0;
        while i < cnt
            invariant
                0 <= i <= cnt,
                cnt == src_end - src_start,
                src_start <= src_end <= 30,
                dst + cnt <= 30,
                dst <= src_start,
                forall|k: int|
                    dst <= k < dst + i ==> #[trigger] buf@[k] == old(buf)@[k - dst + src_start],
                forall|k: int|
                    (0 <= k < dst || dst + i <= k < 30) ==> #[trigger] buf@[k] == old(buf)@[k],
            decreases cnt - i,
        {
            let b = buf[src_start + i];
            assert(b == old(buf)@[src_start + i]);
            buf[dst + i] = b;
            i = i + 1;
        }
    } else {
        let mut i: usize = cnt;
        while i > 0
            invariant
                0 <= i <= cnt,
                cnt == src_end - src_start,
                src_start <= src_end <= 30,
                dst + cnt <= 30,
                dst > src_start,
                forall|k: int|
                    dst + i <= k < dst + cnt ==> #[trigger] buf@[k] == old(buf)@[k - dst
                        + src_start],
                forall|k: int|
                    (0 <= k < dst + i || dst + cnt <= k < 30) ==> #[trigger] buf@[k] == old(
                        buf,
                    )@[k],
            decreases i,
        {
            i = i - 1;
            let b = buf[src_start + i];
            assert(b == old(buf)@[src_start + i]);
            buf[dst + i] = b;
        }
    }
}

} // verus!
