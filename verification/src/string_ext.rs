//! The capability contract that owned, mutable UTF-8 string types satisfy,
//! so that generic algorithms can be written once and run unmodified over
//! the inline-optimized type or any other conforming string type.
//!
//! A small set of primitive operations is required; the remaining
//! operations are derived from them by default methods, verified once
//! against the primitives' contracts.

use crate::codec;
use crate::ranges::{end_of, resolve_bounds, start_of, RangeBound};
use vstd::prelude::*;
use vstd::string::StringSliceAdditionalSpecFns;
use vstd::utf8::*;

verus! {

/// The error returned when a byte vector holds malformed UTF-8; it carries
/// the rejected bytes back to the caller.
#[derive(Debug, Clone)]
pub struct FromUtf8Error {
    bytes: Vec<u8>,
}

impl View for FromUtf8Error {
    type V = Seq<u8>;

    /// The rejected bytes.
    closed spec fn view(&self) -> Seq<u8> {
        self.bytes@
    }
}

impl FromUtf8Error {
    /// Wraps the rejected bytes.
    pub(crate) fn new(bytes: Vec<u8>) -> (r: FromUtf8Error)
        ensures
            r@ == bytes@,
    {
        FromUtf8Error { bytes }
    }

    /// Returns the bytes that were rejected.
    pub fn into_bytes(self) -> (r: Vec<u8>)
        ensures
            r@ == self@,
    {
        self.bytes
    }

    /// The rejected bytes, as a slice.
    pub fn as_bytes(&self) -> (r: &[u8])
        ensures
            r@ == self@,
    {
        self.bytes.as_slice()
    }
}

/// The error returned when a sequence of 16-bit units is not well-formed
/// UTF-16.
#[derive(Debug, Clone, Copy, PartialEq, Eq, Structural)]
pub struct FromUtf16Error;

/// The capability contract of an owned, growable UTF-8 string: a required
/// set of primitive operations, and the operations derived from them.
///
/// The view of a conforming type is its byte content, which well-formed
/// values keep as valid UTF-8 ([`StringExt::wf_implies_valid`]).
pub trait StringExt: Sized + View<V = Seq<u8>> {
    /// Well-formedness of a value of the implementing type.
    spec fn wf(&self) -> bool;

    /// The content of every well-formed value is valid UTF-8.
    proof fn wf_implies_valid(&self)
        requires
            self.wf(),
        ensures
            valid_utf8(self@),
    ;

    /// Creates an empty string able to hold at least `capacity` bytes
    /// without reallocating.
    fn with_capacity(capacity: usize) -> (r: Self)
        ensures
            r.wf(),
            r@ == Seq::<u8>::empty(),
    ;

    /// Returns the vector as a string, when it holds well-formed UTF-8;
    /// returns the vector and an error otherwise.
    fn from_utf8(vec: Vec<u8>) -> (r: Result<Self, FromUtf8Error>)
        ensures
            valid_utf8(vec@) <==> r is Ok,
            r matches Ok(s) ==> s.wf() && s@ == vec@,
            r matches Err(e) ==> e@ == vec@,
    ;

    /// Decodes a UTF-16 encoded slice into a string, or fails when the
    /// units are not well-formed UTF-16.
    fn from_utf16(v: &[u16]) -> (r: Result<Self, FromUtf16Error>)
        ensures
            codec::utf16_valid(v@) <==> r is Ok,
            r matches Ok(s) ==> s.wf() && s@ == encode_utf8(codec::utf16_chars(v@)),
    ;

    /// Decodes a UTF-16 encoded slice into a string, replacing each
    /// malformed unit with the replacement character.
    fn from_utf16_lossy(v: &[u16]) -> (r: Self)
        ensures
            r.wf(),
            r@ == encode_utf8(codec::utf16_chars_lossy(v@)),
    ;

    /// Converts a byte slice to a string, replacing each maximal malformed
    /// subsequence with the replacement character.
    fn from_utf8_lossy(v: &[u8]) -> (r: Self)
        ensures
            r.wf(),
            r@ == codec::utf8_lossy_of(v@),
            valid_utf8(v@) ==> r@ == v@,
    ;

    /// Returns the underlying byte buffer of the string.
    fn into_bytes(self) -> (r: Vec<u8>)
        requires
            self.wf(),
        ensures
            r@ == self@,
    ;

    /// The number of bytes the string can hold without reallocating.
    fn capacity(&self) -> (r: usize)
        requires
            self.wf(),
        ensures
            r >= self@.len(),
    ;

    /// Reserves room for at least `additional` more bytes.
    fn reserve(&mut self, additional: usize)
        requires
            old(self).wf(),
            old(self)@.len() + additional <= usize::MAX,
        ensures
            final (self).wf(),
            final (self)@ == old(self)@,
    ;

    /// Reserves room for exactly `additional` more bytes.
    fn reserve_exact(&mut self, additional: usize)
        requires
            old(self).wf(),
            old(self)@.len() + additional <= usize::MAX,
        ensures
            final (self).wf(),
            final (self)@ == old(self)@,
    ;

    /// Shrinks the string's storage to match its content.
    fn shrink_to_fit(&mut self)
        requires
            old(self).wf(),
        ensures
            final (self).wf(),
            final (self)@ == old(self)@,
    ;

    /// Works with the string's content as a byte slice.
    fn as_bytes(&self) -> (r: &[u8])
        requires
            self.wf(),
        ensures
            r@ == self@,
    ;

    /// Shortens the string to `new_len` bytes, which must lie on a
    /// character boundary; does nothing when the string is already no
    /// longer than that.
    fn truncate(&mut self, new_len: usize)
        requires
            old(self).wf(),
            new_len < old(self)@.len() ==> is_char_boundary(old(self)@, new_len as int),
        ensures
            final (self).wf(),
            new_len >= old(self)@.len() ==> final (self)@ == old(self)@,
            new_len < old(self)@.len() ==> final (self)@ == old(self)@.subrange(0, new_len as int),
    ;

    /// Removes the last character of the string and returns it; returns
    /// `None` on an empty string.
    fn pop(&mut self) -> (r: Option<char>)
        requires
            old(self).wf(),
        ensures
            final (self).wf(),
            old(self)@.len() == 0 ==> r is None && final (self)@ == old(self)@,
            old(self)@.len() > 0 ==> {
                let l = length_of_last_scalar(old(self)@);
                &&& r matches Some(c) && c as u32 == decode_last_scalar(old(self)@)
                &&& final (self)@ == old(self)@.subrange(0, old(self)@.len() - l)
            },
    ;

    /// Removes the character starting at byte offset `idx` and returns it.
    fn remove(&mut self, idx: usize) -> (r: char)
        requires
            old(self).wf(),
            idx < old(self)@.len(),
            is_char_boundary(old(self)@, idx as int),
        ensures
            final (self).wf(),
            ({
                let s = old(self)@;
                let w = length_of_first_scalar(s.subrange(idx as int, s.len() as int));
                &&& r as u32 == decode_first_scalar(s.subrange(idx as int, s.len() as int))
                &&& encode_scalar(r as u32) == s.subrange(idx as int, idx + w)
                &&& final (self)@ == s.subrange(0, idx as int) + s.subrange(
                    idx + w,
                    s.len() as int,
                )
            }),
    ;

    /// Inserts a string at byte offset `idx`, which must lie on a character
    /// boundary.
    fn insert_str(&mut self, idx: usize, string: &str)
        requires
            old(self).wf(),
            idx <= old(self)@.len(),
            is_char_boundary(old(self)@, idx as int),
            old(self)@.len() + string.spec_bytes().len() <= usize::MAX,
        ensures
            final (self).wf(),
            final (self)@ == old(self)@.subrange(0, idx as int) + string.spec_bytes() + old(
                self,
            )@.subrange(idx as int, old(self)@.len() as int),
    ;

    /// The number of bytes in the string.
    fn len(&self) -> (r: usize)
        requires
            self.wf(),
        ensures
            r == self@.len(),
    ;

    /// Splits the string into two at the given byte offset, which must lie
    /// on a character boundary: `self` keeps the bytes before `at`, and the
    /// returned string holds the bytes from `at` onward.
    fn split_off(&mut self, at: usize) -> (r: Self)
        requires
            old(self).wf(),
            at <= old(self)@.len(),
            is_char_boundary(old(self)@, at as int),
        ensures
            final (self).wf(),
            r.wf(),
            final (self)@ == old(self)@.subrange(0, at as int),
            r@ == old(self)@.subrange(at as int, old(self)@.len() as int),
    ;

    /// Retains only the characters for which the predicate returns true,
    /// visiting each character exactly once in the original order and
    /// preserving the order of the retained characters.
    fn retain<F: Fn(char) -> bool>(&mut self, f: F)
        requires
            old(self).wf(),
            forall|c: char| #[trigger] call_requires(f, (c,)),
        ensures
            final (self).wf(),
            exists|keep: Seq<bool>|
                #![trigger codec::select_chars(decode_utf8(old(self)@), keep)]
                {
                    &&& keep.len() == decode_utf8(old(self)@).len()
                    &&& (forall|k: int|
                        0 <= k < keep.len() ==> #[trigger] call_ensures(
                            f,
                            (decode_utf8(old(self)@)[k],),
                            keep[k],
                        ))
                    &&& final (self)@ == encode_utf8(
                        codec::select_chars(decode_utf8(old(self)@), keep),
                    )
                },
    ;

    /// Creates a new string initialized with the empty string.
    fn new() -> (r: Self)
        ensures
            r.wf(),
            r@ == Seq::<u8>::empty(),
    {
        Self::with_capacity(0)
    }

    /// True when the string contains no bytes.
    fn is_empty(&self) -> (r: bool)
        requires
            self.wf(),
        ensures
            r == (self@.len() == 0),
    {
        self.len() == 0
    }

    /// Truncates the string, returning it to zero length.
    fn clear(&mut self)
        requires
            old(self).wf(),
        ensures
            final (self).wf(),
            final (self)@ == Seq::<u8>::empty(),
    {
        proof {
            self.wf_implies_valid();
        }
        let len = self.len();
        if len > 0 {
            proof {
                is_char_boundary_start_end_of_seq(self@);
            }
            self.truncate(0);
            proof {
                assert(old(self)@.subrange(0, 0) =~= Seq::<u8>::empty());
            }
        } else {
            proof {
                assert(self@ =~= Seq::<u8>::empty());
            }
        }
    }

    /// Extracts a string slice containing the entire content.
    fn as_str(&self) -> (r: &str)
        requires
            self.wf(),
        ensures
            r.spec_bytes() == self@,
    {
        proof {
            self.wf_implies_valid();
        }
        codec::bytes_as_str(self.as_bytes())
    }

    /// Pushes the given string onto the end of this string.
    fn push_str(&mut self, string: &str)
        requires
            old(self).wf(),
            old(self)@.len() + string.spec_bytes().len() <= usize::MAX,
        ensures
            final (self).wf(),
            final (self)@ == old(self)@ + string.spec_bytes(),
    {
        proof {
            self.wf_implies_valid();
            is_char_boundary_start_end_of_seq(self@);
        }
        let len = self.len();
        self.insert_str(len, string);
        proof {
            assert(old(self)@.subrange(0, len as int) =~= old(self)@);
            assert(old(self)@.subrange(len as int, len as int) =~= Seq::<u8>::empty());
            assert(self@ =~= old(self)@ + string.spec_bytes());
        }
    }

    /// Inserts a character at byte offset `idx`, which must lie on a
    /// character boundary, by encoding it into a small stack buffer and
    /// delegating to the string-taking primitive.
    fn insert(&mut self, idx: usize, ch: char)
        requires
            old(self).wf(),
            idx <= old(self)@.len(),
            is_char_boundary(old(self)@, idx as int),
            old(self)@.len() + encode_scalar(ch as u32).len() <= usize::MAX,
        ensures
            final (self).wf(),
            final (self)@ == old(self)@.subrange(0, idx as int) + encode_scalar(ch as u32) + old(
                self,
            )@.subrange(idx as int, old(self)@.len() as int),
    {
        proof {
            codec::lemma_encode_scalar_of_char(ch);
        }
        let (buf, w) = codec::encode_char(ch);
        let s = codec::bytes_as_str(&buf[0..w]);
        self.insert_str(idx, s);
    }

    /// Adds the given character to the end of the string.
    fn push(&mut self, ch: char)
        requires
            old(self).wf(),
            old(self)@.len() + encode_scalar(ch as u32).len() <= usize::MAX,
        ensures
            final (self).wf(),
            final (self)@ == old(self)@ + encode_scalar(ch as u32),
    {
        proof {
            self.wf_implies_valid();
            is_char_boundary_start_end_of_seq(self@);
        }
        let len = self.len();
        self.insert(len, ch);
        proof {
            assert(old(self)@.subrange(0, len as int) =~= old(self)@);
            assert(old(self)@.subrange(len as int, len as int) =~= Seq::<u8>::empty());
            assert(self@ =~= old(self)@ + encode_scalar(ch as u32));
        }
    }

    /// Removes the described byte range, whose ends must lie on character
    /// boundaries, by repeatedly removing the character at the range's
    /// start until the removed bytes cover the requested span.
    fn remove_range(&mut self, start: RangeBound, end: RangeBound)
        requires
            old(self).wf(),
            ({
                let s = start_of(start);
                let e = end_of(end, old(self)@.len() as int);
                &&& 0 <= s <= e <= old(self)@.len()
                &&& is_char_boundary(old(self)@, s)
                &&& is_char_boundary(old(self)@, e)
            }),
        ensures
            final (self).wf(),
            final (self)@ == old(self)@.subrange(0, start_of(start)) + old(self)@.subrange(
                end_of(end, old(self)@.len() as int),
                old(self)@.len() as int,
            ),
    {
        proof {
            self.wf_implies_valid();
        }
        let len0 = self.len();
        let ghost sv = old(self)@;
        let (s, e) = resolve_bounds(start, end, len0);
        let diff = e - s;
        let mut sum: usize = 0;
        proof {
            valid_utf8_split(sv, s as int);
            assert(sv.subrange(s as int, s as int) =~= Seq::<u8>::empty());
            assert(self@ =~= sv.subrange(0, s as int) + sv.subrange(s as int, sv.len() as int));
        }
        while sum < diff
            invariant
                self.wf(),
                0 <= sum <= diff,
                diff == e - s,
                s == start_of(start),
                e == end_of(end, sv.len() as int),
                s + diff == e <= sv.len(),
                valid_utf8(sv),
                is_char_boundary(sv, s as int),
                is_char_boundary(sv, e as int),
                is_char_boundary(sv, s + sum),
                self@ == sv.subrange(0, s as int) + sv.subrange(s + sum, sv.len() as int),
            decreases diff - sum,
        {
            proof {
                valid_utf8_split(sv, s + sum);
                valid_utf8_split(sv, s as int);
                codec::lemma_boundary_concat(
                    sv.subrange(0, s as int),
                    sv.subrange(s + sum, sv.len() as int),
                );
                assert(is_char_boundary(self@, s as int));
            }
            let ghost prev = self@;
            let c = self.remove(s);
            let w = codec::char_utf8_width(c);
            proof {
                let tail = prev.subrange(s as int, prev.len() as int);
                assert(tail =~= sv.subrange(s + sum, sv.len() as int));
                assert(w == length_of_first_scalar(tail)) by {
                    assert(encode_scalar(c as u32) == prev.subrange(s as int, s + w));
                }
                assert(self@ =~= sv.subrange(0, s as int) + sv.subrange(
                    s + sum + w,
                    sv.len() as int,
                )) by {
                    assert(prev.subrange(0, s as int) =~= sv.subrange(0, s as int));
                    assert(prev.subrange(s + w, prev.len() as int) =~= sv.subrange(
                        s + sum + w,
                        sv.len() as int,
                    ));
                }
                codec::lemma_boundary_after_scalar(sv, s + sum);
                codec::lemma_boundary_gap(sv, s + sum, e as int);
            }
            sum = sum + w;
        }
        proof {
            assert(sum == diff);
        }
    }

    /// Replaces the described byte range, whose ends must lie on character
    /// boundaries, with the given string, by removing the range and
    /// inserting the replacement at its start.
    fn replace_range(&mut self, start: RangeBound, end: RangeBound, replace_with: &str)
        requires
            old(self).wf(),
            ({
                let s = start_of(start);
                let e = end_of(end, old(self)@.len() as int);
                &&& 0 <= s <= e <= old(self)@.len()
                &&& is_char_boundary(old(self)@, s)
                &&& is_char_boundary(old(self)@, e)
                &&& old(self)@.len() - (e - s) + replace_with.spec_bytes().len() <= usize::MAX
            }),
        ensures
            final (self).wf(),
            final (self)@ == old(self)@.subrange(0, start_of(start)) + replace_with.spec_bytes()
                + old(self)@.subrange(
                end_of(end, old(self)@.len() as int),
                old(self)@.len() as int,
            ),
    {
        proof {
            self.wf_implies_valid();
        }
        let len0 = self.len();
        let ghost sv = old(self)@;
        let (s, e) = resolve_bounds(start, end, len0);
        self.remove_range(start, end);
        proof {
            valid_utf8_split(sv, e as int);
            codec::lemma_boundary_of_prefix(sv, e as int, s as int);
            valid_utf8_split(sv.subrange(0, e as int), s as int);
            assert(sv.subrange(0, e as int).subrange(0, s as int) =~= sv.subrange(0, s as int));
            codec::lemma_boundary_concat(
                sv.subrange(0, s as int),
                sv.subrange(e as int, sv.len() as int),
            );
        }
        self.insert_str(s, replace_with);
        proof {
            let mid = sv.subrange(0, s as int) + sv.subrange(e as int, sv.len() as int);
            assert(mid.subrange(0, s as int) =~= sv.subrange(0, s as int));
            assert(mid.subrange(s as int, mid.len() as int) =~= sv.subrange(
                e as int,
                sv.len() as int,
            ));
            assert(self@ =~= sv.subrange(0, s as int) + replace_with.spec_bytes() + sv.subrange(
                e as int,
                sv.len() as int,
            ));
        }
    }
}

} // verus!
