//! Executable UTF-8 encoding and decoding primitives, verified against the
//! specification functions of `vstd::utf8`, together with the supporting
//! lemmas about character boundaries that the buffer operations rely on.

use vstd::prelude::*;
use vstd::string::StringSliceAdditionalSpecFns;
use vstd::utf8::*;

verus! {

/// Relies on `char::from_u32`: it returns the character with the given
/// scalar value, and `None` exactly when the value is a surrogate or lies
/// beyond the Unicode maximum, i.e. when it is not a Unicode scalar.
pub assume_specification[ char::from_u32 ](u: u32) -> (r: Option<char>)
    ensures
        r is Some <==> is_scalar(u),
        r matches Some(c) ==> c as u32 == u,
;

/// Number of bytes in the UTF-8 encoding of `c`.
pub fn char_utf8_width(c: char) -> (w: usize)
    ensures
        w == encode_scalar(c as u32).len(),
        1 <= w <= 4,
{
    proof {
        char_is_scalar(c);
    }
    let u = c as u32;
    if u < 0x80 {
        1
    } else if u < 0x800 {
        2
    } else if u < 0x10000 {
        3
    } else {
        4
    }
}

/// Encodes `c` into the first `w` bytes of the returned buffer, where `w` is
/// the width of the character's UTF-8 encoding.
pub fn encode_char(c: char) -> (r: ([u8; 4], usize))
    ensures
        r.1 == encode_scalar(c as u32).len(),
        1 <= r.1 <= 4,
        r.0@.subrange(0, r.1 as int) == encode_scalar(c as u32),
{
    proof {
        char_is_scalar(c);
    }
    let u = c as u32;
    let mut buf: [u8; 4] = [0; 4];
    let w: usize;
    if u < 0x80 {
        buf[0] = (u & 0x7F) as u8;
        w = 1;
    } else if u < 0x800 {
        buf[0] = 0xC0 | ((u >> 6) & 0x1F) as u8;
        buf[1] = 0x80 | (u & 0x3F) as u8;
        w = 2;
    } else if u < 0x10000 {
        buf[0] = 0xE0 | ((u >> 12) & 0x0F) as u8;
        buf[1] = 0x80 | ((u >> 6) & 0x3F) as u8;
        buf[2] = 0x80 | (u & 0x3F) as u8;
        w = 3;
    } else {
        buf[0] = 0xF0 | ((u >> 18) & 0x7) as u8;
        buf[1] = 0x80 | ((u >> 12) & 0x3F) as u8;
        buf[2] = 0x80 | ((u >> 6) & 0x3F) as u8;
        buf[3] = 0x80 | (u & 0x3F) as u8;
        w = 4;
    }
    proof {
        assert(buf@.subrange(0, w as int) =~= encode_scalar(u));
    }
    (buf, w)
}

/// A well-formed leading portion of a byte sequence encodes a Unicode
/// scalar, never a surrogate or an out-of-range codepoint.
pub proof fn lemma_valid_first_scalar_is_scalar(bytes: Seq<u8>)
    requires
        valid_first_scalar(bytes),
    ensures
        is_scalar(decode_first_scalar(bytes)),
{
    let b0 = bytes[0];
    if is_leading_byte_width_1(b0) {
        assert(has_width_1_encoding(codepoint_width_1(b0))) by (bit_vector);
    } else if is_leading_byte_width_2(b0) {
        let b1 = bytes[1];
        let cp = codepoint_width_2(b0, b1);
        assert(cp <= 0x7FF) by (bit_vector)
            requires
                cp == codepoint_width_2(b0, b1),
        ;
    } else if is_leading_byte_width_3(b0) {
        let b1 = bytes[1];
        let b2 = bytes[2];
        let cp = codepoint_width_3(b0, b1, b2);
        assert(cp <= 0xFFFF) by (bit_vector)
            requires
                cp == codepoint_width_3(b0, b1, b2),
        ;
    } else {
    }
}

/// Decodes the character whose encoding starts at byte offset `i` of `v`,
/// returning the character and the width of its encoding.
pub fn decode_char_in(v: &[u8], i: usize) -> (r: (char, usize))
    requires
        valid_utf8(v@),
        is_char_boundary(v@, i as int),
        i < v@.len(),
    ensures
        ({
            let suffix = v@.subrange(i as int, v@.len() as int);
            &&& r.1 == length_of_first_scalar(suffix)
            &&& 1 <= r.1 <= 4
            &&& i + r.1 <= v@.len()
            &&& r.0 as u32 == decode_first_scalar(suffix)
            &&& encode_scalar(r.0 as u32) == v@.subrange(i as int, i + r.1)
            &&& is_char_boundary(v@, i + r.1)
        }),
{
    let ghost suffix = v@.subrange(i as int, v@.len() as int);
    proof {
        valid_utf8_split(v@, i as int);
        assert(valid_first_scalar(suffix));
        lemma_valid_first_scalar_is_scalar(suffix);
    }
    let b0 = v[i];
    assert(b0 == suffix[0]);
    let cp: u32;
    let w: usize;
    if b0 < 0x80 {
        cp = (b0 & 0x7F) as u32;
        w = 1;
    } else if b0 < 0xE0 {
        let b1 = v[i + 1];
        cp = (((b0 & 0x1F) as u32) << 6) | ((b1 & 0x3F) as u32);
        w = 2;
    } else if b0 < 0xF0 {
        let b1 = v[i + 1];
        let b2 = v[i + 2];
        cp = (((b0 & 0x0F) as u32) << 12) | (((b1 & 0x3F) as u32) << 6) | ((b2 & 0x3F) as u32);
        w = 3;
    } else {
        let b1 = v[i + 1];
        let b2 = v[i + 2];
        let b3 = v[i + 3];
        cp = (((b0 & 0x07) as u32) << 18) | (((b1 & 0x3F) as u32) << 12) | (((b2
            & 0x3F) as u32) << 6) | ((b3 & 0x3F) as u32);
        w = 4;
    }
    assert(cp == decode_first_scalar(suffix));
    assert(w == length_of_first_scalar(suffix));
    let c = char::from_u32(cp).unwrap();
    proof {
        decode_utf8_first_scalar(suffix);
        char_u32_cast(c, cp);
        assert(take_first_scalar(suffix) =~= v@.subrange(i as int, i + w));
        lemma_boundary_after_scalar(v@, i as int);
    }
    (c, w)
}

/// The offset one past a character's encoding is itself a character
/// boundary.
pub proof fn lemma_boundary_after_scalar(s: Seq<u8>, i: int)
    requires
        valid_utf8(s),
        is_char_boundary(s, i),
        i < s.len(),
    ensures
        ({
            let w = length_of_first_scalar(s.subrange(i, s.len() as int));
            &&& i + w <= s.len()
            &&& is_char_boundary(s, i + w)
        }),
{
    let suffix = s.subrange(i, s.len() as int);
    valid_utf8_split(s, i);
    let w = length_of_first_scalar(suffix);
    if i + w == s.len() {
        is_char_boundary_start_end_of_seq(s);
    } else {
        let rest = pop_first_scalar(suffix);
        assert(valid_utf8(rest));
        assert(rest.len() == suffix.len() - w);
        assert(valid_first_scalar(rest));
        assert(rest[0] == s[i + w]);
        assert(!is_continuation_byte(s[i + w]));
        is_char_boundary_iff_not_is_continuation_byte(s, i + w);
    }
}

/// Structure of the last character of a non-empty, well-formed byte
/// sequence: its encoding occupies exactly the last `length_of_last_scalar`
/// bytes, which start at a character boundary and form a well-formed
/// single-scalar encoding of `decode_last_scalar`.
pub proof fn lemma_last_scalar(s: Seq<u8>)
    requires
        valid_utf8(s),
        s.len() > 0,
    ensures
        ({
            let l = length_of_last_scalar(s);
            &&& 1 <= l <= 4
            &&& l <= s.len()
            &&& is_char_boundary(s, s.len() - l)
            &&& take_last_scalar(s) == s.subrange(s.len() - l, s.len() as int)
            &&& valid_first_scalar(take_last_scalar(s))
            &&& length_of_first_scalar(take_last_scalar(s)) == l
            &&& decode_first_scalar(take_last_scalar(s)) == decode_last_scalar(s)
        }),
    decreases s.len(),
{
    let n = s.len() as int;
    let w = length_of_first_scalar(s);
    let rest = pop_first_scalar(s);
    assert(valid_first_scalar(s));
    assert(valid_utf8(rest));
    if rest.len() == 0 {
        assert(w == n);
        let l = length_of_last_scalar(s);
        assert(take_last_scalar(s) =~= s.subrange(n - l, n));
        if is_leading_byte_width_1(s[0]) {
            assert(l == 1);
            assert(take_last_scalar(s) =~= s);
        } else if is_leading_byte_width_2(s[0]) {
            assert(is_continuation_byte(s[1]));
            assert(!is_continuation_byte(s[0]));
            assert(l == 2);
            assert(take_last_scalar(s) =~= s);
        } else if is_leading_byte_width_3(s[0]) {
            assert(l == 3);
            assert(take_last_scalar(s) =~= s);
        } else {
            assert(l == 4);
            assert(take_last_scalar(s) =~= s);
        }
    } else {
        lemma_last_scalar(rest);
        let l = length_of_last_scalar(rest);
        // The trailing l bytes of s are exactly the trailing l bytes of rest.
        assert(l <= rest.len());
        assert(forall|k: int|
            0 <= k < rest.len() ==> rest[k] == s[w + k]);
        let last = take_last_scalar(rest);
        assert(last =~= s.subrange(n - l, n));
        // The byte just before those, if any, belongs to rest or to the
        // first scalar; either way the continuation pattern of the last
        // scalar's own bytes decides length_of_last_scalar(s).
        assert(!is_continuation_byte(last[0]));
        assert(forall|k: int| 1 <= k < l ==> is_continuation_byte(#[trigger] last[k]));
        assert(length_of_last_scalar(s) == l);
        assert(take_last_scalar(s) =~= last);
        assert(decode_last_scalar(s) == decode_last_scalar(rest)) by {
            assert(forall|k: int| 1 <= k <= 4 && n - k >= w ==> #[trigger] s[n - k] == rest[rest.len() - k]);
        }
        // Boundary: recurse through the first scalar.
        assert(is_char_boundary(rest, rest.len() - l));
        assert(n - l != 0 ==> is_char_boundary(s, n - l));
        if n - l == 0 {
        }
    }
}

/// Computes the width of the encoding of the last character of `v`.
pub fn last_scalar_len(v: &[u8]) -> (l: usize)
    requires
        valid_utf8(v@),
        v@.len() > 0,
    ensures
        l == length_of_last_scalar(v@),
        1 <= l <= v@.len(),
{
    proof {
        lemma_last_scalar(v@);
    }
    let n = v.len();
    if !is_continuation(v[n - 1]) {
        1
    } else if !is_continuation(v[n - 2]) {
        2
    } else if !is_continuation(v[n - 3]) {
        3
    } else {
        4
    }
}

/// True when `b` has the bit pattern of a UTF-8 continuation byte.
fn is_continuation(b: u8) -> (r: bool)
    ensures
        r == is_continuation_byte(b),
{
    0x80 <= b && b <= 0xBF
}

/// A sequence whose prefix is well-formed but whose remainder does not begin
/// with a well-formed scalar encoding is not well-formed as a whole.
proof fn lemma_invalid_at(s: Seq<u8>, i: int)
    requires
        partial_valid_utf8(s, i),
        0 <= i < s.len(),
        !valid_first_scalar(s.subrange(i, s.len() as int)),
    ensures
        !valid_utf8(s),
{
    let suffix = s.subrange(i, s.len() as int);
    assert(!valid_utf8(suffix));
    partial_valid_partial_invalid_utf8(s, i);
}

/// Between two distinct character boundaries lies at least one whole
/// character encoding.
pub proof fn lemma_boundary_gap(s: Seq<u8>, i: int, j: int)
    requires
        valid_utf8(s),
        is_char_boundary(s, i),
        is_char_boundary(s, j),
        0 <= i < j <= s.len(),
    ensures
        j >= i + length_of_first_scalar(s.subrange(i, s.len() as int)),
{
    let suffix = s.subrange(i, s.len() as int);
    valid_utf8_split(s, i);
    let w = length_of_first_scalar(suffix);
    lemma_boundary_after_scalar(s, i);
    if j < i + w {
        assert(valid_first_scalar(suffix));
        assert(is_continuation_byte(suffix[j - i]));
        assert(s[j] == suffix[j - i]);
        is_char_boundary_iff_not_is_continuation_byte(s, j);
        assert(false);
    }
}

/// Decides whether `v` is a well-formed UTF-8 byte sequence.
pub fn validate_utf8(v: &[u8]) -> (r: bool)
    ensures
        r == valid_utf8(v@),
{
    let n = v.len();
    let mut i: usize = 0;
    while i < n
        invariant
            0 <= i <= n,
            n == v@.len(),
            partial_valid_utf8(v@, i as int),
        decreases n - i,
    {
        let ghost suffix = v@.subrange(i as int, n as int);
        let b0 = v[i];
        assert(b0 == suffix[0]);
        if b0 < 0x80 {
            proof {
                assert(valid_first_scalar(suffix));
                partial_valid_utf8_extend(v@, i as int);
            }
            i = i + 1;
        } else if b0 < 0xC0 {
            // a continuation byte cannot lead a character
            proof {
                lemma_invalid_at(v@, i as int);
            }
            return false;
        } else if b0 < 0xE0 {
            if i + 1 >= n {
                proof {
                    lemma_invalid_at(v@, i as int);
                }
                return false;
            }
            let b1 = v[i + 1];
            assert(b1 == suffix[1]);
            let cp = (((b0 & 0x1F) as u32) << 6) | ((b1 & 0x3F) as u32);
            if !is_continuation(b1) || cp < 0x80 {
                proof {
                    assert(cp == codepoint_width_2(b0, b1));
                    lemma_invalid_at(v@, i as int);
                }
                return false;
            }
            proof {
                assert(cp <= 0x7FF) by (bit_vector)
                    requires
                        cp == (((b0 & 0x1F) as u32) << 6) | ((b1 & 0x3F) as u32),
                ;
                assert(valid_first_scalar(suffix));
                partial_valid_utf8_extend(v@, i as int);
            }
            i = i + 2;
        } else if b0 < 0xF0 {
            if n - i < 3 {
                proof {
                    lemma_invalid_at(v@, i as int);
                }
                return false;
            }
            let b1 = v[i + 1];
            let b2 = v[i + 2];
            assert(b1 == suffix[1] && b2 == suffix[2]);
            let cp = (((b0 & 0x0F) as u32) << 12) | (((b1 & 0x3F) as u32) << 6) | ((b2
                & 0x3F) as u32);
            if !is_continuation(b1) || !is_continuation(b2) || cp < 0x800 || (0xD800 <= cp && cp
                <= 0xDFFF) {
                proof {
                    assert(cp == codepoint_width_3(b0, b1, b2));
                    lemma_invalid_at(v@, i as int);
                }
                return false;
            }
            proof {
                assert(valid_first_scalar(suffix));
                partial_valid_utf8_extend(v@, i as int);
            }
            i = i + 3;
        } else {
            if n - i < 4 {
                proof {
                    lemma_invalid_at(v@, i as int);
                }
                return false;
            }
            let b1 = v[i + 1];
            let b2 = v[i + 2];
            let b3 = v[i + 3];
            assert(b1 == suffix[1] && b2 == suffix[2] && b3 == suffix[3]);
            let cp = (((b0 & 0x07) as u32) << 18) | (((b1 & 0x3F) as u32) << 12) | (((b2
                & 0x3F) as u32) << 6) | ((b3 & 0x3F) as u32);
            if b0 > 0xF7 || !is_continuation(b1) || !is_continuation(b2) || !is_continuation(b3)
                || cp < 0x10000 || cp > 0x10FFFF {
                proof {
                    if b0 <= 0xF7 {
                        assert(cp == codepoint_width_4(b0, b1, b2, b3));
                    }
                    lemma_invalid_at(v@, i as int);
                }
                return false;
            }
            proof {
                assert(valid_first_scalar(suffix));
                partial_valid_utf8_extend(v@, i as int);
            }
            i = i + 4;
        }
    }
    proof {
        assert(v@.subrange(0, n as int) =~= v@);
    }
    true
}

/// A single character's sequence encodes to the character's scalar encoding,
/// which is well-formed UTF-8.
pub proof fn lemma_encode_scalar_of_char(c: char)
    ensures
        encode_utf8(seq![c]) == encode_scalar(c as u32),
        valid_utf8(encode_scalar(c as u32)),
        1 <= encode_scalar(c as u32).len() <= 4,
{
    char_is_scalar(c);
    assert(seq![c].drop_first() =~= Seq::<char>::empty());
    assert(encode_utf8(Seq::<char>::empty()) == Seq::<u8>::empty());
    assert(seq![c][0] == c);
    assert(encode_utf8(seq![c]) =~= encode_scalar(c as u32));
    encode_utf8_valid_utf8(seq![c]);
}

/// UTF-8 encoding distributes over concatenation of character sequences.
pub proof fn lemma_encode_utf8_concat(s1: Seq<char>, s2: Seq<char>)
    ensures
        encode_utf8(s1 + s2) == encode_utf8(s1) + encode_utf8(s2),
    decreases s1.len(),
{
    if s1.len() == 0 {
        assert(s1 + s2 =~= s2);
        assert(encode_utf8(s1) =~= Seq::<u8>::empty());
        assert(encode_utf8(s1) + encode_utf8(s2) =~= encode_utf8(s2));
    } else {
        assert((s1 + s2).drop_first() =~= s1.drop_first() + s2);
        lemma_encode_utf8_concat(s1.drop_first(), s2);
        assert(encode_utf8(s1 + s2) =~= encode_utf8(s1) + encode_utf8(s2));
    }
}

/// The characters of `cs` for which the matching entry of `keep` is true,
/// in their original order.
pub open spec fn select_chars(cs: Seq<char>, keep: Seq<bool>) -> Seq<char>
    decreases cs.len(),
{
    if cs.len() == 0 {
        Seq::<char>::empty()
    } else {
        let rest = select_chars(cs.drop_first(), keep.drop_first());
        if keep.len() > 0 && keep[0] {
            seq![cs[0]] + rest
        } else {
            rest
        }
    }
}

/// Appending one character and its decision extends the selection at the end.
pub proof fn lemma_select_chars_snoc(cs: Seq<char>, keep: Seq<bool>, c: char, b: bool)
    requires
        cs.len() == keep.len(),
    ensures
        select_chars(cs + seq![c], keep + seq![b]) == select_chars(cs, keep) + (if b {
            seq![c]
        } else {
            Seq::<char>::empty()
        }),
    decreases cs.len(),
{
    let tail = if b {
        seq![c]
    } else {
        Seq::<char>::empty()
    };
    if cs.len() == 0 {
        assert(cs + seq![c] =~= seq![c]);
        assert(keep + seq![b] =~= seq![b]);
        assert((cs + seq![c]).drop_first() =~= Seq::<char>::empty());
        assert((keep + seq![b]).drop_first() =~= Seq::<bool>::empty());
        assert(select_chars(Seq::<char>::empty(), Seq::<bool>::empty())
            == Seq::<char>::empty());
        assert(select_chars(cs + seq![c], keep + seq![b]) =~= select_chars(cs, keep) + tail);
    } else {
        assert((cs + seq![c]).drop_first() =~= cs.drop_first() + seq![c]);
        assert((keep + seq![b]).drop_first() =~= keep.drop_first() + seq![b]);
        lemma_select_chars_snoc(cs.drop_first(), keep.drop_first(), c, b);
        assert(select_chars(cs + seq![c], keep + seq![b]) =~= select_chars(cs, keep) + tail);
    }
}

/// A boundary of a prefix of a well-formed sequence is a boundary of the
/// whole sequence, and the other way around.
pub proof fn lemma_boundary_of_prefix(s: Seq<u8>, e: int, i: int)
    requires
        valid_utf8(s),
        is_char_boundary(s, e),
        0 <= i <= e <= s.len(),
    ensures
        is_char_boundary(s, i) <==> is_char_boundary(s.subrange(0, e), i),
{
    valid_utf8_split(s, e);
    let prefix = s.subrange(0, e);
    if i == e {
        is_char_boundary_start_end_of_seq(prefix);
        is_char_boundary_start_end_of_seq(s);
    } else if i < e {
        is_char_boundary_iff_not_is_continuation_byte(s, i);
        is_char_boundary_iff_not_is_continuation_byte(prefix, i);
        assert(prefix[i] == s[i]);
    }
}

/// The junction of two well-formed sequences is a character boundary of
/// their concatenation.
pub proof fn lemma_boundary_concat(a: Seq<u8>, b: Seq<u8>)
    requires
        valid_utf8(a),
        valid_utf8(b),
    ensures
        is_char_boundary(a + b, a.len() as int),
{
    valid_utf8_concat(a, b);
    let c = a + b;
    if b.len() == 0 {
        assert(c =~= a);
        is_char_boundary_start_end_of_seq(c);
    } else {
        assert(valid_first_scalar(b));
        assert(c[a.len() as int] == b[0]);
        assert(!is_continuation_byte(b[0]));
        is_char_boundary_iff_not_is_continuation_byte(c, a.len() as int);
    }
}

/// Relies on `str::from_utf8`: on well-formed UTF-8 input it returns the
/// string slice over exactly the given bytes.
#[verifier::external_body]
pub fn bytes_as_str(v: &[u8]) -> (r: &str)
    requires
        valid_utf8(v@),
    ensures
        r.spec_bytes() == v@,
{
    core::str::from_utf8(v).unwrap()
}

/// True when the 16-bit units form well-formed UTF-16: every unit in the
/// high-surrogate range is followed by one in the low-surrogate range, and
/// no unit in the low-surrogate range stands on its own.
pub open spec fn utf16_valid(v: Seq<u16>) -> bool
    decreases v.len(),
{
    if v.len() == 0 {
        true
    } else {
        let u = v[0];
        if u < 0xD800 || u > 0xDFFF {
            utf16_valid(v.skip(1))
        } else if u <= 0xDBFF {
            v.len() >= 2 && 0xDC00 <= v[1] <= 0xDFFF && utf16_valid(v.skip(2))
        } else {
            false
        }
    }
}

/// The scalar value encoded by a UTF-16 surrogate pair.
pub open spec fn utf16_pair_scalar(hi: u16, lo: u16) -> u32
    recommends
        0xD800 <= hi <= 0xDBFF,
        0xDC00 <= lo <= 0xDFFF,
{
    (0x10000 + (hi as u32 - 0xD800) * 0x400 + (lo as u32 - 0xDC00)) as u32
}

/// The character sequence encoded by well-formed UTF-16 units.
pub open spec fn utf16_chars(v: Seq<u16>) -> Seq<char>
    recommends
        utf16_valid(v),
    decreases v.len(),
    when utf16_valid(v)
{
    if v.len() == 0 {
        Seq::<char>::empty()
    } else {
        let u = v[0];
        if u < 0xD800 || u > 0xDFFF {
            seq![(u as u32) as char] + utf16_chars(v.skip(1))
        } else {
            seq![utf16_pair_scalar(u, v[1]) as char] + utf16_chars(v.skip(2))
        }
    }
}

/// The character sequence encoded by arbitrary UTF-16 units, with each
/// malformed unit replaced by the replacement character.
pub open spec fn utf16_chars_lossy(v: Seq<u16>) -> Seq<char>
    decreases v.len(),
{
    if v.len() == 0 {
        Seq::<char>::empty()
    } else {
        let u = v[0];
        if u < 0xD800 || u > 0xDFFF {
            seq![(u as u32) as char] + utf16_chars_lossy(v.skip(1))
        } else if u <= 0xDBFF && v.len() >= 2 && 0xDC00 <= v[1] <= 0xDFFF {
            seq![utf16_pair_scalar(u, v[1]) as char] + utf16_chars_lossy(v.skip(2))
        } else {
            seq!['\u{FFFD}'] + utf16_chars_lossy(v.skip(1))
        }
    }
}

/// Transcodes well-formed UTF-16 units to UTF-8 bytes; returns `None`
/// exactly when the units are not well-formed UTF-16.
pub fn utf16_to_utf8(v: &[u16]) -> (r: Option<Vec<u8>>)
    ensures
        r is Some <==> utf16_valid(v@),
        r matches Some(b) ==> b@ == encode_utf8(utf16_chars(v@)) && valid_utf8(b@),
{
    let n = v.len();
    let mut out: Vec<u8> = Vec::new();
    let mut i: usize = 0;
    proof {
        assert(v@.skip(0) =~= v@);
    }
    while i < n
        invariant
            0 <= i <= n,
            n == v@.len(),
            utf16_valid(v@) <==> utf16_valid(v@.skip(i as int)),
            utf16_valid(v@.skip(i as int)) ==> encode_utf8(utf16_chars(v@)) == out@ + encode_utf8(
                utf16_chars(v@.skip(i as int)),
            ),
        decreases n - i,
    {
        let ghost suffix = v@.skip(i as int);
        let u = v[i];
        assert(u == suffix[0]);
        if u < 0xD800 || u > 0xDFFF {
            let c = char::from_u32(u as u32).unwrap();
            proof {
                char_u32_cast(c, u as u32);
                lemma_encode_scalar_of_char(c);
            }
            let (buf, w) = encode_char(c);
            let piece = &buf[0..w];
            out.extend_from_slice(piece);
            proof {
                assert(suffix.skip(1) =~= v@.skip(i + 1));
                if utf16_valid(v@.skip(i + 1)) {
                    assert(utf16_chars(suffix) == seq![c] + utf16_chars(suffix.skip(1)));
                    lemma_encode_utf8_concat(seq![c], utf16_chars(suffix.skip(1)));
                }
            }
            i = i + 1;
        } else if u <= 0xDBFF {
            if i + 1 >= n {
                assert(!utf16_valid(suffix));
                return None;
            }
            let lo = v[i + 1];
            assert(lo == suffix[1]);
            if lo < 0xDC00 || lo > 0xDFFF {
                assert(!utf16_valid(suffix));
                return None;
            }
            let cp = 0x10000 + ((u as u32) - 0xD800) * 0x400 + ((lo as u32) - 0xDC00);
            assert(cp == utf16_pair_scalar(u, lo));
            assert(is_scalar(cp));
            let c = char::from_u32(cp).unwrap();
            proof {
                char_u32_cast(c, cp);
                lemma_encode_scalar_of_char(c);
            }
            let (buf, w) = encode_char(c);
            let piece = &buf[0..w];
            out.extend_from_slice(piece);
            proof {
                assert(suffix.skip(2) =~= v@.skip(i + 2));
                if utf16_valid(v@.skip(i + 2)) {
                    assert(utf16_chars(suffix) == seq![c] + utf16_chars(suffix.skip(2)));
                    lemma_encode_utf8_concat(seq![c], utf16_chars(suffix.skip(2)));
                }
            }
            i = i + 2;
        } else {
            assert(!utf16_valid(suffix));
            return None;
        }
    }
    proof {
        assert(v@.skip(n as int) =~= Seq::<u16>::empty());
        assert(utf16_chars(Seq::<u16>::empty()) == Seq::<char>::empty());
        assert(encode_utf8(Seq::<char>::empty()) == Seq::<u8>::empty());
        assert(out@ =~= encode_utf8(utf16_chars(v@)));
        encode_utf8_valid_utf8(utf16_chars(v@));
    }
    Some(out)
}

/// Transcodes arbitrary UTF-16 units to UTF-8 bytes, replacing each
/// malformed unit with the replacement character.
pub fn utf16_to_utf8_lossy(v: &[u16]) -> (r: Vec<u8>)
    ensures
        r@ == encode_utf8(utf16_chars_lossy(v@)),
        valid_utf8(r@),
{
    let n = v.len();
    let mut out: Vec<u8> = Vec::new();
    let mut i: usize = 0;
    proof {
        assert(v@.skip(0) =~= v@);
    }
    while i < n
        invariant
            0 <= i <= n,
            n == v@.len(),
            encode_utf8(utf16_chars_lossy(v@)) == out@ + encode_utf8(
                utf16_chars_lossy(v@.skip(i as int)),
            ),
        decreases n - i,
    {
        let ghost suffix = v@.skip(i as int);
        let u = v[i];
        assert(u == suffix[0]);
        let c: char;
        let step: usize;
        if u < 0xD800 || u > 0xDFFF {
            c = char::from_u32(u as u32).unwrap();
            proof {
                char_u32_cast(c, u as u32);
            }
            step = 1;
        } else if u <= 0xDBFF && i + 1 < n && 0xDC00 <= v[i + 1] && v[i + 1] <= 0xDFFF {
            let lo = v[i + 1];
            assert(lo == suffix[1]);
            let cp = 0x10000 + ((u as u32) - 0xD800) * 0x400 + ((lo as u32) - 0xDC00);
            assert(cp == utf16_pair_scalar(u, lo));
            assert(is_scalar(cp));
            c = char::from_u32(cp).unwrap();
            proof {
                char_u32_cast(c, cp);
            }
            step = 2;
        } else {
            c = '\u{FFFD}';
            step = 1;
        }
        proof {
            lemma_encode_scalar_of_char(c);
        }
        let (buf, w) = encode_char(c);
        let piece = &buf[0..w];
        out.extend_from_slice(piece);
        proof {
            assert(suffix.skip(step as int) =~= v@.skip(i + step));
            assert(utf16_chars_lossy(suffix) == seq![c] + utf16_chars_lossy(suffix.skip(step as int)));
            lemma_encode_utf8_concat(seq![c], utf16_chars_lossy(suffix.skip(step as int)));
        }
        i = i + step;
    }
    proof {
        assert(v@.skip(n as int) =~= Seq::<u16>::empty());
        assert(utf16_chars_lossy(Seq::<u16>::empty()) == Seq::<char>::empty());
        assert(encode_utf8(Seq::<char>::empty()) == Seq::<u8>::empty());
        assert(out@ =~= encode_utf8(utf16_chars_lossy(v@)));
        encode_utf8_valid_utf8(utf16_chars_lossy(v@));
    }
    out
}

/// The bytes that lossy UTF-8 decoding produces for the given input, with
/// each maximal malformed subsequence replaced by the replacement
/// character.
pub uninterp spec fn utf8_lossy_of(v: Seq<u8>) -> Seq<u8>;

/// Relies on `String::from_utf8_lossy`: it replaces each maximal malformed
/// subsequence with the replacement character, returns well-formed UTF-8,
/// and returns well-formed input unchanged.
#[verifier::external_body]
pub fn utf8_lossy_bytes(v: &[u8]) -> (r: Vec<u8>)
    ensures
        r@ == utf8_lossy_of(v@),
        valid_utf8(r@),
        valid_utf8(v@) ==> r@ == v@,
{
    std::string::String::from_utf8_lossy(v).into_owned().into_bytes()
}

} // verus!
