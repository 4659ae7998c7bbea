//! An owned, growable UTF-8 string that stores short content inline and
//! transparently promotes itself to a heap buffer when content outgrows
//! [`INLINE_STRING_CAPACITY`].
//!
//! Every growing operation applies in place while the result still fits
//! inline, and otherwise copies the content into a freshly sized heap
//! buffer and switches representation. Shrinking operations never demote
//! back to inline storage on their own; only an explicit
//! [`StringExt::shrink_to_fit`] request does.

use crate::codec;
use crate::inline_string::{InlineString, INLINE_STRING_CAPACITY};
use crate::ranges::{end_of, resolve_bounds, start_of, RangeBound};
use crate::string_ext::{FromUtf16Error, FromUtf8Error, StringExt};
use vstd::prelude::*;
use vstd::slice::{slice_subrange, slice_to_vec};
use vstd::string::StringSliceAdditionalSpecFns;
use vstd::utf8::*;

verus! {

/// Relies on `Vec::capacity`: the number of bytes the vector can hold
/// without reallocating, never less than its length.
#[verifier::external_body]
fn vec_capacity(v: &Vec<u8>) -> (r: usize)
    ensures
        r >= v@.len(),
{
    v.capacity()
}

/// Relies on `Vec::reserve_exact`: it changes only the allocation, never
/// the content.
#[verifier::external_body]
fn vec_reserve_exact(v: &mut Vec<u8>, additional: usize)
    ensures
        final (v)@ == old(v)@,
{
    v.reserve_exact(additional)
}

/// Relies on `Vec::shrink_to_fit`: it changes only the allocation, never
/// the content.
#[verifier::external_body]
fn vec_shrink_to_fit(v: &mut Vec<u8>)
    ensures
        final (v)@ == old(v)@,
{
    v.shrink_to_fit()
}

/// Builds a byte vector holding the concatenation of three slices.
fn vec_from_parts(a: &[u8], b: &[u8], c: &[u8]) -> (r: Vec<u8>)
    requires
        a@.len() + b@.len() + c@.len() <= usize::MAX,
    ensures
        r@ == a@ + b@ + c@,
{
    let mut r: Vec<u8> = Vec::with_capacity(a.len() + b.len() + c.len());
    r.extend_from_slice(a);
    r.extend_from_slice(b);
    r.extend_from_slice(c);
    proof {
        assert(r@ =~= a@ + b@ + c@);
    }
    r
}

/// An owned, growable UTF-8 string that stores short strings inline and
/// avoids heap allocation until content exceeds the inline capacity.
#[derive(Debug, Clone)]
pub enum InlinableString {
    /// A heap-allocated string buffer.
    Heap(Vec<u8>),
    /// A short string stored inline.
    Inline(InlineString),
}

impl View for InlinableString {
    type V = Seq<u8>;

    /// The byte content of the string, whichever representation holds it.
    closed spec fn view(&self) -> Seq<u8> {
        match self {
            InlinableString::Heap(v) => v@,
            InlinableString::Inline(s) => s@,
        }
    }
}

impl InlinableString {
    /// True when the content is held in inline storage.
    pub open spec fn is_inline(&self) -> bool {
        self is Inline
    }

    /// Builds the string from a string slice, using inline storage exactly
    /// when the content fits.
    pub fn from(string: &str) -> (r: InlinableString)
        ensures
            r.wf(),
            r@ == string.spec_bytes(),
            r.is_inline() <==> string.spec_bytes().len() <= INLINE_STRING_CAPACITY as int,
    {
        proof {
            encode_utf8_valid_utf8(string@);
        }
        match InlineString::try_from(string) {
            Ok(s) => InlinableString::Inline(s),
            Err(_) => InlinableString::Heap(slice_to_vec(string.as_bytes())),
        }
    }

    /// Holds after one [`StringExt::push`]: the content grows by the
    /// character's encoding, and the representation is inline exactly when
    /// it was inline before and the grown content still fits.
    pub open spec fn push_post(pre: InlinableString, ch: char, post: InlinableString) -> bool {
        &&& post@ == pre@ + encode_scalar(ch as u32)
        &&& (post.is_inline() <==> pre.is_inline() && pre@.len() + encode_scalar(
            ch as u32,
        ).len() <= INLINE_STRING_CAPACITY as int)
    }

    /// Holds after one [`StringExt::shrink_to_fit`]: the content is
    /// unchanged, an inline value is untouched, and a heap value is demoted
    /// exactly when its content fits inline.
    pub open spec fn shrink_post(pre: InlinableString, post: InlinableString) -> bool {
        &&& post@ == pre@
        &&& post.wf()
        &&& (pre.is_inline() ==> post == pre)
        &&& (!pre.is_inline() && pre@.len() <= INLINE_STRING_CAPACITY as int
            ==> post.is_inline())
        &&& (!pre.is_inline() && pre@.len() > INLINE_STRING_CAPACITY as int
            ==> !post.is_inline())
    }
}

impl StringExt for InlinableString {
    /// A heap value holds well-formed UTF-8; an inline value is a
    /// well-formed inline buffer.
    open spec fn wf(&self) -> bool {
        match self {
            InlinableString::Heap(v) => valid_utf8(v@),
            InlinableString::Inline(s) => s.wf(),
        }
    }

    proof fn wf_implies_valid(&self) {
        match self {
            InlinableString::Heap(v) => {
                assert(self@ == v@);
                assert(valid_utf8(v@));
            },
            InlinableString::Inline(s) => {
                s.lemma_wf();
            },
        }
    }

    /// Uses inline storage exactly when `capacity` fits the inline buffer,
    /// and a heap buffer sized for `capacity` bytes otherwise.
    fn with_capacity(capacity: usize) -> (r: Self)
        ensures
            r.is_inline() <==> capacity <= INLINE_STRING_CAPACITY,
    {
        if capacity <= INLINE_STRING_CAPACITY {
            InlinableString::Inline(InlineString::new())
        } else {
            InlinableString::Heap(Vec::with_capacity(capacity))
        }
    }

    fn from_utf8(vec: Vec<u8>) -> (r: Result<Self, FromUtf8Error>) {
        if codec::validate_utf8(vec.as_slice()) {
            Ok(InlinableString::Heap(vec))
        } else {
            Err(FromUtf8Error::new(vec))
        }
    }

    fn from_utf16(v: &[u16]) -> (r: Result<Self, FromUtf16Error>) {
        match codec::utf16_to_utf8(v) {
            Some(b) => Ok(InlinableString::Heap(b)),
            None => Err(FromUtf16Error),
        }
    }

    fn from_utf16_lossy(v: &[u16]) -> (r: Self) {
        InlinableString::Heap(codec::utf16_to_utf8_lossy(v))
    }

    fn from_utf8_lossy(v: &[u8]) -> (r: Self) {
        InlinableString::Heap(codec::utf8_lossy_bytes(v))
    }

    fn into_bytes(self) -> (r: Vec<u8>) {
        match self {
            InlinableString::Heap(v) => v,
            InlinableString::Inline(s) => slice_to_vec(s.as_bytes()),
        }
    }

    /// The inline representation always reports the fixed inline capacity.
    fn capacity(&self) -> (r: usize)
        ensures
            self.is_inline() ==> r == INLINE_STRING_CAPACITY,
    {
        match self {
            InlinableString::Heap(v) => vec_capacity(v),
            InlinableString::Inline(s) => {
                proof {
                    s.lemma_wf();
                }
                INLINE_STRING_CAPACITY
            },
        }
    }

    /// An inline value is promoted to the heap exactly when the reserved
    /// room no longer fits inline.
    fn reserve(&mut self, additional: usize)
        ensures
            final (self).is_inline() <==> old(self).is_inline() && old(self)@.len() + additional
                <= INLINE_STRING_CAPACITY as int,
    {
        let promoted: Option<Vec<u8>> = match self {
            InlinableString::Inline(s) => {
                proof {
                    s.lemma_wf();
                }
                let len = s.len();
                if additional <= INLINE_STRING_CAPACITY - len {
                    None
                } else {
                    let mut v: Vec<u8> = Vec::with_capacity(len + additional);
                    v.extend_from_slice(s.as_bytes());
                    proof {
                        assert(v@ =~= s@);
                    }
                    Some(v)
                }
            },
            InlinableString::Heap(v) => {
                v.reserve(additional);
                None
            },
        };
        if let Some(v) = promoted {
            *self = InlinableString::Heap(v);
        }
    }

    /// An inline value is promoted to the heap exactly when the reserved
    /// room no longer fits inline.
    fn reserve_exact(&mut self, additional: usize)
        ensures
            final (self).is_inline() <==> old(self).is_inline() && old(self)@.len() + additional
                <= INLINE_STRING_CAPACITY as int,
    {
        let promoted: Option<Vec<u8>> = match self {
            InlinableString::Inline(s) => {
                proof {
                    s.lemma_wf();
                }
                let len = s.len();
                if additional <= INLINE_STRING_CAPACITY - len {
                    None
                } else {
                    let mut v: Vec<u8> = Vec::with_capacity(len + additional);
                    v.extend_from_slice(s.as_bytes());
                    proof {
                        assert(v@ =~= s@);
                    }
                    Some(v)
                }
            },
            InlinableString::Heap(v) => {
                vec_reserve_exact(v, additional);
                None
            },
        };
        if let Some(v) = promoted {
            *self = InlinableString::Heap(v);
        }
    }

    /// Demotes a heap value back to inline storage when its content fits;
    /// otherwise shrinks the heap allocation; an inline value is untouched.
    fn shrink_to_fit(&mut self)
        ensures
            InlinableString::shrink_post(*old(self), *final (self)),
    {
        let inlined: Option<InlineString> = match self {
            InlinableString::Heap(v) => {
                if v.len() <= INLINE_STRING_CAPACITY {
                    Some(InlineString::from_byte_slice(v.as_slice()))
                } else {
                    vec_shrink_to_fit(v);
                    None
                }
            },
            InlinableString::Inline(_) => None,
        };
        if let Some(s) = inlined {
            *self = InlinableString::Inline(s);
        }
    }

    fn as_bytes(&self) -> (r: &[u8]) {
        match self {
            InlinableString::Heap(v) => v.as_slice(),
            InlinableString::Inline(s) => s.as_bytes(),
        }
    }

    fn truncate(&mut self, new_len: usize) {
        match self {
            InlinableString::Heap(v) => {
                let ghost s0 = v@;
                if new_len < v.len() {
                    proof {
                        valid_utf8_split(v@, new_len as int);
                    }
                    v.truncate(new_len);
                } else {
                    v.truncate(new_len);
                    proof {
                        assert(v@ =~= s0);
                    }
                }
            },
            InlinableString::Inline(s) => {
                s.truncate(new_len);
            },
        }
    }

    fn pop(&mut self) -> (r: Option<char>) {
        match self {
            InlinableString::Heap(v) => {
                let len = v.len();
                if len == 0 {
                    return None;
                }
                let ghost s = v@;
                proof {
                    codec::lemma_last_scalar(s);
                }
                let l = codec::last_scalar_len(v.as_slice());
                let (c, w) = codec::decode_char_in(v.as_slice(), len - l);
                proof {
                    assert(s.subrange(len - l, len as int) =~= take_last_scalar(s));
                    valid_utf8_split(s, (len - l) as int);
                }
                v.truncate(len - l);
                Some(c)
            },
            InlinableString::Inline(s) => s.pop(),
        }
    }

    fn remove(&mut self, idx: usize) -> (r: char) {
        match self {
            InlinableString::Heap(v) => {
                let len = v.len();
                let ghost s = v@;
                let (c, w) = codec::decode_char_in(v.as_slice(), idx);
                let mut k: usize = 0;
                proof {
                    assert(v@ =~= s.subrange(0, idx as int) + s.subrange(
                        idx as int,
                        s.len() as int,
                    ));
                }
                while k < w
                    invariant
                        0 <= k <= w,
                        w <= 4,
                        idx + w <= s.len(),
                        s.len() <= usize::MAX,
                        v@ == s.subrange(0, idx as int) + s.subrange(idx + k, s.len() as int),
                    decreases w - k,
                {
                    v.remove(idx);
                    proof {
                        assert(v@ =~= s.subrange(0, idx as int) + s.subrange(
                            idx + k + 1,
                            s.len() as int,
                        ));
                    }
                    k = k + 1;
                }
                proof {
                    valid_utf8_split(s, idx as int);
                    let suffix = s.subrange(idx as int, s.len() as int);
                    assert(suffix.subrange(0, suffix.len() as int) =~= suffix);
                    codec::lemma_boundary_after_scalar(suffix, 0);
                    valid_utf8_split(suffix, w as int);
                    assert(suffix.subrange(w as int, suffix.len() as int) =~= s.subrange(
                        idx + w,
                        s.len() as int,
                    ));
                    valid_utf8_concat(
                        s.subrange(0, idx as int),
                        s.subrange(idx + w, s.len() as int),
                    );
                }
                c
            },
            InlinableString::Inline(s) => s.remove(idx),
        }
    }

    /// Inserting applies in place while the result still fits inline, and
    /// otherwise lands the combined content in a heap buffer.
    fn insert_str(&mut self, idx: usize, string: &str)
        ensures
            final (self).is_inline() <==> old(self).is_inline() && old(self)@.len()
                + string.spec_bytes().len() <= INLINE_STRING_CAPACITY as int,
    {
        proof {
            encode_utf8_valid_utf8(string@);
            self.wf_implies_valid();
        }
        let ghost sv = old(self)@;
        let promoted: Option<Vec<u8>> = match self {
            InlinableString::Heap(v) => {
                let len = v.len();
                let nv = {
                    let sl = v.as_slice();
                    let pre = slice_subrange(sl, 0, idx);
                    let suf = slice_subrange(sl, idx, len);
                    vec_from_parts(pre, string.as_bytes(), suf)
                };
                *v = nv;
                None
            },
            InlinableString::Inline(s) => {
                match s.insert_str(idx, string) {
                    Ok(_) => None,
                    Err(_) => {
                        let len = s.len();
                        let nv = {
                            let sl = s.as_bytes();
                            let pre = slice_subrange(sl, 0, idx);
                            let suf = slice_subrange(sl, idx, len);
                            vec_from_parts(pre, string.as_bytes(), suf)
                        };
                        Some(nv)
                    },
                }
            },
        };
        if let Some(nv) = promoted {
            *self = InlinableString::Heap(nv);
        }
        proof {
            valid_utf8_split(sv, idx as int);
            valid_utf8_concat(sv.subrange(0, idx as int), string.spec_bytes());
            valid_utf8_concat(
                sv.subrange(0, idx as int) + string.spec_bytes(),
                sv.subrange(idx as int, sv.len() as int),
            );
            assert(self@ =~= sv.subrange(0, idx as int) + string.spec_bytes() + sv.subrange(
                idx as int,
                sv.len() as int,
            ));
        }
    }

    fn len(&self) -> (r: usize) {
        match self {
            InlinableString::Heap(v) => v.len(),
            InlinableString::Inline(s) => s.len(),
        }
    }

    /// When a heap value is split and the right half fits inline, the right
    /// half is demoted to inline storage while the left half stays on the
    /// heap; an inline value splits into two inline values; otherwise both
    /// halves stay on the heap.
    fn split_off(&mut self, at: usize) -> (r: Self)
        ensures
            old(self).is_inline() ==> final (self).is_inline() && r.is_inline(),
            !old(self).is_inline() ==> !final (self).is_inline() && (r.is_inline() <==> old(
                self,
            )@.len() - at <= INLINE_STRING_CAPACITY as int),
    {
        match self {
            InlinableString::Heap(v) => {
                let len = v.len();
                let ghost s = v@;
                proof {
                    valid_utf8_split(s, at as int);
                }
                if len - at <= INLINE_STRING_CAPACITY {
                    let right = {
                        let tail = slice_subrange(v.as_slice(), at, len);
                        InlineString::from_byte_slice(tail)
                    };
                    v.truncate(at);
                    InlinableString::Inline(right)
                } else {
                    InlinableString::Heap(v.split_off(at))
                }
            },
            InlinableString::Inline(s) => InlinableString::Inline(s.split_off(at)),
        }
    }

    fn retain<F: Fn(char) -> bool>(&mut self, f: F) {
        match self {
            InlinableString::Heap(v) => {
                let ghost src0 = v@;
                let out = retain_vec(v.as_slice(), f);
                *v = out;
                proof {
                    let keep = choose|keep: Seq<bool>|
                        #![trigger codec::select_chars(decode_utf8(src0), keep)]
                        {
                            &&& keep.len() == decode_utf8(src0).len()
                            &&& (forall|k: int|
                                0 <= k < keep.len() ==> #[trigger] call_ensures(
                                    f,
                                    (decode_utf8(src0)[k],),
                                    keep[k],
                                ))
                            &&& v@ == encode_utf8(codec::select_chars(decode_utf8(src0), keep))
                        };
                    assert({
                        &&& keep.len() == decode_utf8(old(self)@).len()
                        &&& (forall|k: int|
                            0 <= k < keep.len() ==> #[trigger] call_ensures(
                                f,
                                (decode_utf8(old(self)@)[k],),
                                keep[k],
                            ))
                        &&& self@ == encode_utf8(codec::select_chars(decode_utf8(old(self)@), keep))
                    });
                }
            },
            InlinableString::Inline(s) => {
                let ghost src0 = s@;
                s.retain(f);
                proof {
                    let keep = choose|keep: Seq<bool>|
                        #![trigger codec::select_chars(decode_utf8(src0), keep)]
                        {
                            &&& keep.len() == decode_utf8(src0).len()
                            &&& (forall|k: int|
                                0 <= k < keep.len() ==> #[trigger] call_ensures(
                                    f,
                                    (decode_utf8(src0)[k],),
                                    keep[k],
                                ))
                            &&& s@ == encode_utf8(codec::select_chars(decode_utf8(src0), keep))
                        };
                    assert({
                        &&& keep.len() == decode_utf8(old(self)@).len()
                        &&& (forall|k: int|
                            0 <= k < keep.len() ==> #[trigger] call_ensures(
                                f,
                                (decode_utf8(old(self)@)[k],),
                                keep[k],
                            ))
                        &&& self@ == encode_utf8(codec::select_chars(decode_utf8(old(self)@), keep))
                    });
                }
            },
        }
    }

    /// Pushing applies in place on the inline buffer while the result still
    /// fits; otherwise the combined content lands in a heap buffer sized to
    /// exactly hold it.
    fn push(&mut self, ch: char)
        ensures
            InlinableString::push_post(*old(self), ch, *final (self)),
    {
        proof {
            codec::lemma_encode_scalar_of_char(ch);
            self.wf_implies_valid();
        }
        let ghost sv = old(self)@;
        let promoted: Option<Vec<u8>> = match self {
            InlinableString::Inline(s) => {
                match s.push(ch) {
                    Ok(_) => None,
                    Err(_) => {
                        let (buf, w) = codec::encode_char(ch);
                        let len = s.len();
                        let mut nv: Vec<u8> = Vec::with_capacity(len + w);
                        nv.extend_from_slice(s.as_bytes());
                        nv.extend_from_slice(slice_subrange(buf.as_slice(), 0, w));
                        proof {
                            assert(nv@ =~= sv + encode_scalar(ch as u32));
                        }
                        Some(nv)
                    },
                }
            },
            InlinableString::Heap(v) => {
                let (buf, w) = codec::encode_char(ch);
                v.extend_from_slice(slice_subrange(buf.as_slice(), 0, w));
                proof {
                    assert(v@ =~= sv + encode_scalar(ch as u32));
                }
                None
            },
        };
        if let Some(nv) = promoted {
            *self = InlinableString::Heap(nv);
        }
        proof {
            valid_utf8_concat(sv, encode_scalar(ch as u32));
            assert(self@ =~= sv + encode_scalar(ch as u32));
        }
    }

    /// Pushing a string applies in place on the inline buffer while the
    /// result still fits; otherwise the combined content lands in a heap
    /// buffer sized to exactly hold it.
    fn push_str(&mut self, string: &str)
        ensures
            final (self).is_inline() <==> old(self).is_inline() && old(self)@.len()
                + string.spec_bytes().len() <= INLINE_STRING_CAPACITY as int,
    {
        proof {
            encode_utf8_valid_utf8(string@);
            self.wf_implies_valid();
        }
        let ghost sv = old(self)@;
        let promoted: Option<Vec<u8>> = match self {
            InlinableString::Inline(s) => {
                match s.push_str(string) {
                    Ok(_) => None,
                    Err(_) => {
                        let len = s.len();
                        let mut nv: Vec<u8> = Vec::with_capacity(len + string.len());
                        nv.extend_from_slice(s.as_bytes());
                        nv.extend_from_slice(string.as_bytes());
                        proof {
                            assert(nv@ =~= sv + string.spec_bytes());
                        }
                        Some(nv)
                    },
                }
            },
            InlinableString::Heap(v) => {
                v.extend_from_slice(string.as_bytes());
                proof {
                    assert(v@ =~= sv + string.spec_bytes());
                }
                None
            },
        };
        if let Some(nv) = promoted {
            *self = InlinableString::Heap(nv);
        }
        proof {
            valid_utf8_concat(sv, string.spec_bytes());
            assert(self@ =~= sv + string.spec_bytes());
        }
    }

    /// Inserting a character applies in place on the inline buffer while
    /// the result still fits; otherwise the combined content lands in a
    /// heap buffer.
    fn insert(&mut self, idx: usize, ch: char)
        ensures
            final (self).is_inline() <==> old(self).is_inline() && old(self)@.len()
                + encode_scalar(ch as u32).len() <= INLINE_STRING_CAPACITY as int,
    {
        proof {
            codec::lemma_encode_scalar_of_char(ch);
            self.wf_implies_valid();
        }
        let ghost sv = old(self)@;
        let promoted: Option<Vec<u8>> = match self {
            InlinableString::Inline(s) => {
                match s.insert(idx, ch) {
                    Ok(_) => None,
                    Err(_) => {
                        let (buf, w) = codec::encode_char(ch);
                        let len = s.len();
                        let nv = {
                            let sl = s.as_bytes();
                            let pre = slice_subrange(sl, 0, idx);
                            let suf = slice_subrange(sl, idx, len);
                            vec_from_parts(pre, slice_subrange(buf.as_slice(), 0, w), suf)
                        };
                        Some(nv)
                    },
                }
            },
            InlinableString::Heap(v) => {
                let (buf, w) = codec::encode_char(ch);
                let len = v.len();
                let nv = {
                    let sl = v.as_slice();
                    let pre = slice_subrange(sl, 0, idx);
                    let suf = slice_subrange(sl, idx, len);
                    vec_from_parts(pre, slice_subrange(buf.as_slice(), 0, w), suf)
                };
                *v = nv;
                None
            },
        };
        if let Some(nv) = promoted {
            *self = InlinableString::Heap(nv);
        }
        proof {
            valid_utf8_split(sv, idx as int);
            valid_utf8_concat(sv.subrange(0, idx as int), encode_scalar(ch as u32));
            valid_utf8_concat(
                sv.subrange(0, idx as int) + encode_scalar(ch as u32),
                sv.subrange(idx as int, sv.len() as int),
            );
            assert(self@ =~= sv.subrange(0, idx as int) + encode_scalar(ch as u32) + sv.subrange(
                idx as int,
                sv.len() as int,
            ));
        }
    }

    /// Removing a range keeps the representation: an inline value shifts
    /// its tail in place, and a heap value keeps its heap buffer.
    fn remove_range(&mut self, start: RangeBound, end: RangeBound)
        ensures
            final (self).is_inline() <==> old(self).is_inline(),
    {
        proof {
            self.wf_implies_valid();
        }
        let ghost sv = old(self)@;
        match self {
            InlinableString::Inline(s) => {
                s.remove_range(start, end);
            },
            InlinableString::Heap(v) => {
                let len = v.len();
                let (st, e) = resolve_bounds(start, end, len);
                let nv = {
                    let sl = v.as_slice();
                    let pre = slice_subrange(sl, 0, st);
                    let mid = slice_subrange(sl, st, st);
                    let suf = slice_subrange(sl, e, len);
                    vec_from_parts(pre, mid, suf)
                };
                *v = nv;
                proof {
                    valid_utf8_split(sv, e as int);
                    codec::lemma_boundary_of_prefix(sv, e as int, st as int);
                    valid_utf8_split(sv.subrange(0, e as int), st as int);
                    assert(sv.subrange(0, e as int).subrange(0, st as int) =~= sv.subrange(
                        0,
                        st as int,
                    ));
                    valid_utf8_concat(
                        sv.subrange(0, st as int),
                        sv.subrange(e as int, sv.len() as int),
                    );
                    assert(v@ =~= sv.subrange(0, st as int) + sv.subrange(
                        e as int,
                        sv.len() as int,
                    ));
                }
            },
        }
    }

    /// Replacing a range lands the result in the inline buffer exactly when
    /// the value was inline and the new content fits; a heap value keeps
    /// its heap buffer.
    fn replace_range(&mut self, start: RangeBound, end: RangeBound, replace_with: &str)
        ensures
            final (self).is_inline() <==> old(self).is_inline() && old(self)@.len() - (end_of(
                end,
                old(self)@.len() as int,
            ) - start_of(start)) + replace_with.spec_bytes().len()
                <= INLINE_STRING_CAPACITY as int,
    {
        proof {
            encode_utf8_valid_utf8(replace_with@);
            self.wf_implies_valid();
        }
        let ghost sv = old(self)@;
        let promoted: Option<Vec<u8>> = match self {
            InlinableString::Heap(v) => {
                let len = v.len();
                let (st, e) = resolve_bounds(start, end, len);
                let nv = {
                    let sl = v.as_slice();
                    let pre = slice_subrange(sl, 0, st);
                    let suf = slice_subrange(sl, e, len);
                    vec_from_parts(pre, replace_with.as_bytes(), suf)
                };
                *v = nv;
                None
            },
            InlinableString::Inline(s) => {
                proof {
                    s.lemma_wf();
                }
                let len = s.len();
                let (st, e) = resolve_bounds(start, end, len);
                if replace_with.len() <= INLINE_STRING_CAPACITY - (len - (e - st)) {
                    s.remove_range(start, end);
                    proof {
                        valid_utf8_split(sv, e as int);
                        codec::lemma_boundary_of_prefix(sv, e as int, st as int);
                        valid_utf8_split(sv.subrange(0, e as int), st as int);
                        assert(sv.subrange(0, e as int).subrange(0, st as int) =~= sv.subrange(
                            0,
                            st as int,
                        ));
                        codec::lemma_boundary_concat(
                            sv.subrange(0, st as int),
                            sv.subrange(e as int, sv.len() as int),
                        );
                    }
                    let r = s.insert_str(st, replace_with);
                    proof {
                        assert(r is Ok);
                        let mid = sv.subrange(0, st as int) + sv.subrange(e as int, sv.len() as int);
                        assert(mid.subrange(0, st as int) =~= sv.subrange(0, st as int));
                        assert(mid.subrange(st as int, mid.len() as int) =~= sv.subrange(
                            e as int,
                            sv.len() as int,
                        ));
                    }
                    None
                } else {
                    let nv = {
                        let sl = s.as_bytes();
                        let pre = slice_subrange(sl, 0, st);
                        let suf = slice_subrange(sl, e, len);
                        vec_from_parts(pre, replace_with.as_bytes(), suf)
                    };
                    Some(nv)
                }
            },
        };
        if let Some(nv) = promoted {
            *self = InlinableString::Heap(nv);
        }
        proof {
            let st = start_of(start);
            let e = end_of(end, sv.len() as int);
            valid_utf8_split(sv, e as int);
            codec::lemma_boundary_of_prefix(sv, e as int, st);
            valid_utf8_split(sv.subrange(0, e), st);
            assert(sv.subrange(0, e).subrange(0, st) =~= sv.subrange(0, st));
            valid_utf8_concat(sv.subrange(0, st), replace_with.spec_bytes());
            valid_utf8_concat(
                sv.subrange(0, st) + replace_with.spec_bytes(),
                sv.subrange(e, sv.len() as int),
            );
            assert(self@ =~= sv.subrange(0, st) + replace_with.spec_bytes() + sv.subrange(
                e,
                sv.len() as int,
            ));
        }
    }
}

/// Law: a value built by repeated pushes changes representation exactly
/// once, at the push whose resulting length first exceeds the inline
/// capacity, and never before — an inline value stays inline while the
/// grown content fits, leaves inline storage exactly when it does not, and
/// a heap value never returns to inline storage by pushing.
pub proof fn lemma_promotion_threshold(pre: InlinableString, ch: char, post: InlinableString)
    requires
        InlinableString::push_post(pre, ch, post),
    ensures
        pre.is_inline() && pre@.len() + encode_scalar(ch as u32).len()
            <= INLINE_STRING_CAPACITY as int ==> post.is_inline(),
        pre.is_inline() && pre@.len() + encode_scalar(ch as u32).len()
            > INLINE_STRING_CAPACITY as int ==> !post.is_inline(),
        !pre.is_inline() ==> !post.is_inline(),
{
}

/// Law: an explicit shrink is idempotent — for content that fits the
/// inline buffer, a second shrink returns the very value the first one
/// produced, so it reports the same capacity.
pub proof fn lemma_shrink_idempotent(a: InlinableString, b: InlinableString, c: InlinableString)
    requires
        InlinableString::shrink_post(a, b),
        InlinableString::shrink_post(b, c),
        a@.len() <= INLINE_STRING_CAPACITY as int,
    ensures
        c == b,
        b.is_inline(),
{
}

/// Law: splitting is inverted by concatenation — after `split_off(at)`,
/// whose contract leaves `self` with the bytes before `at` and returns the
/// bytes from `at` onward, the two contents joined give back the original
/// content, whatever representations the halves landed in.
pub proof fn lemma_split_off_inverse(s: Seq<u8>, at: int)
    requires
        0 <= at <= s.len(),
    ensures
        s.subrange(0, at) + s.subrange(at, s.len() as int) == s,
{
    assert(s.subrange(0, at) + s.subrange(at, s.len() as int) =~= s);
}

/// Builds the byte vector holding the characters of `src` for which the
/// predicate returns true, in their original order.
fn retain_vec<F: Fn(char) -> bool>(src: &[u8], f: F) -> (r: Vec<u8>)
    requires
        valid_utf8(src@),
        forall|c: char| #[trigger] call_requires(f, (c,)),
    ensures
        valid_utf8(r@),
        exists|keep: Seq<bool>|
            #![trigger codec::select_chars(decode_utf8(src@), keep)]
            {
                &&& keep.len() == decode_utf8(src@).len()
                &&& (forall|k: int|
                    0 <= k < keep.len() ==> #[trigger] call_ensures(
                        f,
                        (decode_utf8(src@)[k],),
                        keep[k],
                    ))
                &&& r@ == encode_utf8(codec::select_chars(decode_utf8(src@), keep))
            },
{
    let n = src.len();
    let ghost s = src@;
    let ghost cs = decode_utf8(s);
    let mut out: Vec<u8> = Vec::new();
    let mut i: usize = 0;
    let ghost mut done: Seq<char> = Seq::empty();
    let ghost mut keep: Seq<bool> = Seq::empty();
    proof {
        assert(s.subrange(0, 0) =~= Seq::<u8>::empty());
    }
    while i < n
        invariant
            0 <= i <= n,
            n == s.len(),
            s == src@,
            valid_utf8(s),
            is_char_boundary(s, i as int),
            done == decode_utf8(s.subrange(0, i as int)),
            keep.len() == done.len(),
            forall|k: int| 0 <= k < keep.len() ==> #[trigger] call_ensures(f, (done[k],), keep[k]),
            valid_utf8(out@),
            out@ == encode_utf8(codec::select_chars(done, keep)),
            forall|c: char| #[trigger] call_requires(f, (c,)),
        decreases n - i,
    {
        let (c, w) = codec::decode_char_in(src, i);
        let b = f(c);
        proof {
            valid_utf8_split(s, (i + w) as int);
            let prefix2 = s.subrange(0, (i + w) as int);
            codec::lemma_boundary_of_prefix(s, (i + w) as int, i as int);
            decode_utf8_split(prefix2, i as int);
            assert(prefix2.subrange(0, i as int) =~= s.subrange(0, i as int));
            assert(prefix2.subrange(i as int, (i + w) as int) =~= s.subrange(
                i as int,
                (i + w) as int,
            ));
            assert(s.subrange(i as int, (i + w) as int) == encode_scalar(c as u32)) by {
                valid_utf8_split(s, i as int);
                assert(take_first_scalar(s.subrange(i as int, s.len() as int)) == s.subrange(
                    i as int,
                    s.len() as int,
                ).subrange(0, w as int));
                decode_utf8_first_scalar(s.subrange(i as int, s.len() as int));
                char_u32_cast(c, decode_first_scalar(s.subrange(i as int, s.len() as int)));
                assert(s.subrange(i as int, s.len() as int).subrange(0, w as int) =~= s.subrange(
                    i as int,
                    (i + w) as int,
                ));
            }
            codec::lemma_encode_scalar_of_char(c);
            encode_utf8_decode_utf8(seq![c]);
            assert(decode_utf8(prefix2) =~= done + seq![c]);
            codec::lemma_select_chars_snoc(done, keep, c, b);
            codec::lemma_encode_utf8_concat(
                codec::select_chars(done, keep),
                if b {
                    seq![c]
                } else {
                    Seq::<char>::empty()
                },
            );
        }
        if b {
            let ghost out_old = out@;
            let piece = slice_subrange(src, i, i + w);
            out.extend_from_slice(piece);
            proof {
                assert(out@ =~= out_old + encode_scalar(c as u32));
                valid_utf8_concat(out_old, encode_scalar(c as u32));
            }
        } else {
            proof {
                assert(encode_utf8(Seq::<char>::empty()) == Seq::<u8>::empty());
                assert(out@ + encode_utf8(Seq::<char>::empty()) =~= out@);
            }
        }
        proof {
            done = done + seq![c];
            keep = keep + seq![b];
        }
        i = i + w;
    }
    proof {
        assert(s.subrange(0, n as int) =~= s);
        assert(done == cs);
        let ghost keep_w = keep;
        assert({
            &&& keep_w.len() == cs.len()
            &&& (forall|k: int|
                0 <= k < keep_w.len() ==> #[trigger] call_ensures(f, (cs[k],), keep_w[k]))
            &&& out@ == encode_utf8(codec::select_chars(cs, keep_w))
        });
    }
    out
}

} // verus!
