//! UTF-8 handling for the incremental parser.
//!
//! A read may end in the middle of a multi-byte character, so the parser
//! never insists that a whole buffer decodes: it works inside the longest
//! valid prefix ([`utf8_vp`]) and keeps the undecodable tail until more
//! bytes arrive.  A tail that is the beginning of one well-formed character
//! ([`utf8_incomplete_front`]) may still become valid; any other tail never
//! will.

use vstd::prelude::*;
use vstd::utf8::{
    decode_first_codepoint, decode_utf8, is_char_boundary, is_continuation_byte,
    is_char_boundary_iff_not_is_continuation_byte, is_char_boundary_start_end_of_seq,
    length_of_first_scalar, pop_first_scalar, valid_first_scalar, valid_utf8, valid_utf8_concat,
    valid_utf8_split,
};

verus! {

/// The encoded length a scalar beginning with `b0` would have, or 0 when
/// `b0` can never begin a well-formed encoding (continuation bytes, the
/// always-overlong `0xc0`/`0xc1`, and bytes above `0xf4`).
pub open spec fn scalar_front_len(b0: u8) -> int {
    if b0 < 0x80 {
        1
    } else if 0xc2 <= b0 <= 0xdf {
        2
    } else if 0xe0 <= b0 <= 0xef {
        3
    } else if 0xf0 <= b0 <= 0xf4 {
        4
    } else {
        0
    }
}

/// Constraint on the second byte of a multi-byte encoding led by `b0`.
/// The narrowed ranges for `0xe0`, `0xed`, `0xf0` and `0xf4` exclude
/// overlong encodings, surrogates, and values above `0x10ffff`.
pub open spec fn cont2_ok(b0: u8, b1: u8) -> bool {
    if b0 == 0xe0 {
        0xa0 <= b1 <= 0xbf
    } else if b0 == 0xed {
        0x80 <= b1 <= 0x9f
    } else if b0 == 0xf0 {
        0x90 <= b1 <= 0xbf
    } else if b0 == 0xf4 {
        0x80 <= b1 <= 0x8f
    } else {
        is_continuation_byte(b1)
    }
}

/// First-byte-range form of [`valid_first_scalar`]: a complete well-formed
/// scalar encoding starts the sequence.
pub open spec fn table_valid_front(s: Seq<u8>) -> bool {
    s.len() > 0 && {
        let k = scalar_front_len(s[0]);
        &&& k >= 1
        &&& s.len() >= k
        &&& (k >= 2 ==> cont2_ok(s[0], s[1]))
        &&& (k >= 3 ==> is_continuation_byte(s[2]))
        &&& (k >= 4 ==> is_continuation_byte(s[3]))
    }
}

/// The whole sequence is a proper prefix of one well-formed scalar
/// encoding: more bytes could still complete it.
pub open spec fn utf8_incomplete_front(s: Seq<u8>) -> bool {
    s.len() > 0 && {
        let k = scalar_front_len(s[0]);
        &&& s.len() < k
        &&& (s.len() >= 2 ==> cont2_ok(s[0], s[1]))
        &&& (s.len() >= 3 ==> is_continuation_byte(s[2]))
    }
}

proof fn bv_width2(b0: u8, b1: u8)
    by (bit_vector)
    requires
        0xc0 <= b0 <= 0xdf,
        0x80 <= b1 <= 0xbf,
    ensures
        ((((b0 & 0x1f) as u32) << 6) | ((b1 & 0x3f) as u32)) >= 0x80 <==> b0 >= 0xc2,
        ((((b0 & 0x1f) as u32) << 6) | ((b1 & 0x3f) as u32)) <= 0x7ff,
{
}

proof fn bv_width3(b0: u8, b1: u8, b2: u8)
    by (bit_vector)
    requires
        0xe0 <= b0 <= 0xef,
        0x80 <= b1 <= 0xbf,
        0x80 <= b2 <= 0xbf,
    ensures
        ((((b0 & 0x0f) as u32) << 12) | (((b1 & 0x3f) as u32) << 6) | ((b2 & 0x3f) as u32))
            >= 0x800 <==> (b0 != 0xe0 || b1 >= 0xa0),
        (0xd800 <= ((((b0 & 0x0f) as u32) << 12) | (((b1 & 0x3f) as u32) << 6) | ((b2
            & 0x3f) as u32)) <= 0xdfff) <==> (b0 == 0xed && b1 >= 0xa0),
{
}

proof fn bv_width4(b0: u8, b1: u8, b2: u8, b3: u8)
    by (bit_vector)
    requires
        0xf0 <= b0 <= 0xf7,
        0x80 <= b1 <= 0xbf,
        0x80 <= b2 <= 0xbf,
        0x80 <= b3 <= 0xbf,
    ensures
        ((((b0 & 0x07) as u32) << 18) | (((b1 & 0x3f) as u32) << 12) | (((b2 & 0x3f) as u32) << 6)
            | ((b3 & 0x3f) as u32)) >= 0x10000 <==> (b0 != 0xf0 || b1 >= 0x90),
        ((((b0 & 0x07) as u32) << 18) | (((b1 & 0x3f) as u32) << 12) | (((b2 & 0x3f) as u32) << 6)
            | ((b3 & 0x3f) as u32)) <= 0x10ffff <==> (b0 <= 0xf3 || (b0 == 0xf4 && b1 <= 0x8f)),
{
}

/// The byte-range table agrees with the codepoint-arithmetic definition of
/// a well-formed first scalar.
pub proof fn lemma_front_table(s: Seq<u8>)
    requires
        s.len() > 0,
    ensures
        valid_first_scalar(s) <==> table_valid_front(s),
        valid_first_scalar(s) ==> length_of_first_scalar(s) == scalar_front_len(s[0]),
{
    let b0 = s[0];
    if b0 < 0x80 {
    } else if b0 <= 0xbf {
        // a continuation byte can lead nothing
    } else if b0 <= 0xdf {
        if s.len() >= 2 && is_continuation_byte(s[1]) {
            bv_width2(b0, s[1]);
            assert(decode_first_codepoint(s) == ((((b0 & 0x1f) as u32) << 6) | ((s[1]
                & 0x3f) as u32)));
        }
    } else if b0 <= 0xef {
        if s.len() >= 3 && is_continuation_byte(s[1]) && is_continuation_byte(s[2]) {
            bv_width3(b0, s[1], s[2]);
            assert(decode_first_codepoint(s) == ((((b0 & 0x0f) as u32) << 12) | (((s[1]
                & 0x3f) as u32) << 6) | ((s[2] & 0x3f) as u32)));
        } else {
            if s.len() >= 3 && cont2_ok(b0, s[1]) {
                assert(is_continuation_byte(s[1]));
            }
        }
    } else if b0 <= 0xf7 {
        if s.len() >= 4 && is_continuation_byte(s[1]) && is_continuation_byte(s[2])
            && is_continuation_byte(s[3]) {
            bv_width4(b0, s[1], s[2], s[3]);
            assert(decode_first_codepoint(s) == ((((b0 & 0x07) as u32) << 18) | (((s[1]
                & 0x3f) as u32) << 12) | (((s[2] & 0x3f) as u32) << 6) | ((s[3] & 0x3f) as u32)));
        } else {
            if s.len() >= 4 && cont2_ok(b0, s[1]) {
                assert(is_continuation_byte(s[1]));
            }
        }
    } else {
        // 0xf8 and above lead nothing
    }
}

/// Length of the longest prefix of `s` that is valid UTF-8 and ends on a
/// character boundary.
pub open spec fn utf8_vp(s: Seq<u8>) -> int
    decreases s.len(),
    via utf8_vp_decreases
{
    if s.len() > 0 && valid_first_scalar(s) {
        length_of_first_scalar(s) + utf8_vp(pop_first_scalar(s))
    } else {
        0
    }
}

#[via_fn]
proof fn utf8_vp_decreases(s: Seq<u8>) {
    if s.len() > 0 && valid_first_scalar(s) {
        assert(pop_first_scalar(s).len() < s.len());
    }
}

/// Basic facts about [`utf8_vp`]: it is in bounds, its prefix is valid,
/// it is maximal, and it covers the whole sequence exactly when the whole
/// sequence is valid.
pub proof fn lemma_vp(s: Seq<u8>)
    ensures
        0 <= utf8_vp(s) <= s.len(),
        valid_utf8(s.take(utf8_vp(s))),
        utf8_vp(s) == s.len() <==> valid_utf8(s),
        utf8_vp(s) < s.len() ==> !valid_first_scalar(s.skip(utf8_vp(s))),
    decreases s.len(),
{
    if s.len() > 0 && valid_first_scalar(s) {
        let k = length_of_first_scalar(s);
        let rest = pop_first_scalar(s);
        lemma_vp(rest);
        let v = utf8_vp(s);
        assert(s.take(v) =~= s.take(k) + rest.take(v - k));
        assert(valid_utf8(s.take(k))) by {
            assert(valid_first_scalar(s.take(k)));
            assert(pop_first_scalar(s.take(k)) =~= Seq::<u8>::empty());
            assert(valid_utf8(Seq::<u8>::empty()));
        }
        valid_utf8_concat(s.take(k), rest.take(v - k));
        assert(s.skip(v) =~= rest.skip(v - k));
        if valid_utf8(s) {
            assert(valid_utf8(rest));
        }
        if v == s.len() {
            assert(rest.take(v - k) =~= rest);
        }
    } else {
        assert(s.take(0) =~= Seq::<u8>::empty());
        assert(s.skip(0) =~= s);
        if s.len() > 0 {
            assert(!valid_utf8(s));
        }
    }
}

/// The valid prefix never shrinks when bytes are appended.
pub proof fn lemma_vp_prefix_mono(s: Seq<u8>, m: int)
    requires
        0 <= m <= s.len(),
    ensures
        utf8_vp(s.take(m)) <= utf8_vp(s),
    decreases s.len(),
{
    let p = s.take(m);
    if p.len() > 0 && valid_first_scalar(p) {
        let k = length_of_first_scalar(p);
        assert(valid_first_scalar(s));
        assert(length_of_first_scalar(s) == k);
        assert(pop_first_scalar(p) =~= pop_first_scalar(s).take(m - k));
        lemma_vp_prefix_mono(pop_first_scalar(s), m - k);
    } else {
        lemma_vp(s);
    }
}

/// Dropping `c` whole characters off the front shifts the valid prefix by
/// exactly `c` bytes.
pub proof fn lemma_vp_skip(s: Seq<u8>, c: int)
    requires
        0 <= c <= utf8_vp(s),
        is_char_boundary(s.take(utf8_vp(s)), c),
    ensures
        utf8_vp(s.skip(c)) == utf8_vp(s) - c,
        s.skip(c).skip(utf8_vp(s) - c) =~= s.skip(utf8_vp(s)),
    decreases s.len(),
{
    lemma_vp(s);
    if c == 0 {
        assert(s.skip(0) =~= s);
    } else {
        let k = length_of_first_scalar(s);
        let v = utf8_vp(s);
        let rest = pop_first_scalar(s);
        assert(s.len() > 0 && valid_first_scalar(s));
        assert(valid_first_scalar(s.take(v)));
        assert(length_of_first_scalar(s.take(v)) == k);
        assert(pop_first_scalar(s.take(v)) =~= rest.take(v - k));
        assert(is_char_boundary(rest.take(v - k), c - k));
        assert(c >= k);
        lemma_vp(rest);
        assert(utf8_vp(rest) == v - k);
        lemma_vp_skip(rest, c - k);
        assert(s.skip(c) =~= rest.skip(c - k));
    }
}

/// A boundary inside the valid prefix splits off a valid rest whose own
/// valid prefix picks up where the old one left off.
pub proof fn lemma_boundary_not_cont(s: Seq<u8>, i: int)
    requires
        valid_utf8(s),
        0 <= i <= s.len(),
        i == s.len() || !is_continuation_byte(s[i]),
    ensures
        is_char_boundary(s, i),
{
    if i == s.len() {
        is_char_boundary_start_end_of_seq(s);
    } else {
        is_char_boundary_iff_not_is_continuation_byte(s, i);
    }
}

/// In valid UTF-8, the position right after an ASCII byte is a character
/// boundary.
pub proof fn lemma_ascii_next_boundary(s: Seq<u8>, i: int)
    requires
        valid_utf8(s),
        0 <= i < s.len(),
        s[i] < 0x80,
    ensures
        is_char_boundary(s, i + 1),
    decreases s.len(),
{
    let k = length_of_first_scalar(s);
    lemma_front_table(s);
    if i == 0 {
        assert(k == 1);
        is_char_boundary_start_end_of_seq(pop_first_scalar(s));
    } else if i < k {
        assert(is_continuation_byte(s[i]));
    } else {
        lemma_ascii_next_boundary(pop_first_scalar(s), i - k);
    }
}

/// A subrange of valid UTF-8 between character boundaries is valid UTF-8.
pub proof fn lemma_sub_valid(s: Seq<u8>, a: int, b: int)
    requires
        valid_utf8(s),
        0 <= a <= b <= s.len(),
        is_char_boundary(s, a),
        is_char_boundary(s, b),
    ensures
        valid_utf8(s.subrange(a, b)),
{
    valid_utf8_split(s, a);
    let t = s.skip(a);
    assert(is_char_boundary(t, b - a)) by {
        if b == s.len() {
            is_char_boundary_start_end_of_seq(t);
        } else {
            is_char_boundary_iff_not_is_continuation_byte(s, b);
            assert(t[b - a] == s[b]);
            is_char_boundary_iff_not_is_continuation_byte(t, b - a);
        }
    }
    valid_utf8_split(t, b - a);
    assert(t.subrange(0, b - a) =~= s.subrange(a, b));
}

/// Checks whether a well-formed scalar encoding starts at `s[i]`, and its
/// length.
fn scalar_at(s: &[u8], i: usize) -> (r: (bool, usize))
    requires
        i < s@.len(),
    ensures
        r.0 == valid_first_scalar(s@.skip(i as int)),
        r.0 ==> r.1 as int == length_of_first_scalar(s@.skip(i as int)) && 1 <= r.1 <= 4 && i + r.1
            <= s@.len(),
{
    proof {
        lemma_front_table(s@.skip(i as int));
        assert(s@.skip(i as int)[0] == s@[i as int]);
    }
    let ghost t = s@.skip(i as int);
    let n = s.len();
    let b0 = s[i];
    if b0 < 0x80 {
        (true, 1)
    } else if b0 < 0xc2 {
        (false, 0)
    } else if b0 <= 0xdf {
        if n - i >= 2 && 0x80 <= s[i + 1] && s[i + 1] <= 0xbf {
            proof {
                assert(t[1] == s@[i + 1]);
            }
            (true, 2)
        } else {
            proof {
                if t.len() >= 2 {
                    assert(t[1] == s@[i + 1]);
                }
            }
            (false, 0)
        }
    } else if b0 <= 0xef {
        if n - i >= 3 && second_byte_ok(b0, s[i + 1]) && 0x80 <= s[i + 2] && s[i + 2] <= 0xbf {
            proof {
                assert(t[1] == s@[i + 1]);
                assert(t[2] == s@[i + 2]);
            }
            (true, 3)
        } else {
            proof {
                if t.len() >= 2 {
                    assert(t[1] == s@[i + 1]);
                }
                if t.len() >= 3 {
                    assert(t[2] == s@[i + 2]);
                }
            }
            (false, 0)
        }
    } else if b0 <= 0xf4 {
        if n - i >= 4 && second_byte_ok(b0, s[i + 1]) && 0x80 <= s[i + 2] && s[i + 2] <= 0xbf
            && 0x80 <= s[i + 3] && s[i + 3] <= 0xbf {
            proof {
                assert(t[1] == s@[i + 1]);
                assert(t[2] == s@[i + 2]);
                assert(t[3] == s@[i + 3]);
            }
            (true, 4)
        } else {
            proof {
                if t.len() >= 2 {
                    assert(t[1] == s@[i + 1]);
                }
                if t.len() >= 3 {
                    assert(t[2] == s@[i + 2]);
                }
                if t.len() >= 4 {
                    assert(t[3] == s@[i + 3]);
                }
            }
            (false, 0)
        }
    } else {
        (false, 0)
    }
}

/// Executable form of [`cont2_ok`].
fn second_byte_ok(b0: u8, b1: u8) -> (r: bool)
    ensures
        r == cont2_ok(b0, b1),
{
    if b0 == 0xe0 {
        0xa0 <= b1 && b1 <= 0xbf
    } else if b0 == 0xed {
        0x80 <= b1 && b1 <= 0x9f
    } else if b0 == 0xf0 {
        0x90 <= b1 && b1 <= 0xbf
    } else if b0 == 0xf4 {
        0x80 <= b1 && b1 <= 0x8f
    } else {
        0x80 <= b1 && b1 <= 0xbf
    }
}

/// Computes [`utf8_vp`]: how much of the buffer may be handed to the
/// byte-level parser.
pub fn utf8_valid_prefix(s: &[u8]) -> (n: usize)
    ensures
        n as int == utf8_vp(s@),
{
    let mut i: usize = 0;
    proof {
        assert(s@.skip(0) =~= s@);
    }
    while i < s.len()
        invariant
            i <= s@.len(),
            utf8_vp(s@) == i + utf8_vp(s@.skip(i as int)),
        decreases s@.len() - i,
    {
        let (ok, k) = scalar_at(s, i);
        if !ok {
            proof {
                assert(utf8_vp(s@.skip(i as int)) == 0);
            }
            return i;
        }
        proof {
            assert(pop_first_scalar(s@.skip(i as int)) =~= s@.skip(i + k as int));
        }
        i = i + k;
    }
    proof {
        assert(s@.skip(i as int) =~= Seq::<u8>::empty());
    }
    i
}

/// Decides whether the bytes from `from` on are the beginning of a single
/// well-formed character, so that more input could still complete them.
pub fn utf8_incomplete_tail(s: &[u8], from: usize) -> (r: bool)
    requires
        from <= s@.len(),
    ensures
        r == utf8_incomplete_front(s@.skip(from as int)),
{
    let ghost t = s@.skip(from as int);
    let n = s.len() - from;
    if n == 0 {
        return false;
    }
    proof {
        assert(t[0] == s@[from as int]);
        if t.len() >= 2 {
            assert(t[1] == s@[from + 1]);
        }
        if t.len() >= 3 {
            assert(t[2] == s@[from + 2]);
        }
    }
    let b0 = s[from];
    let k: usize = if b0 < 0x80 {
        1
    } else if b0 < 0xc2 {
        0
    } else if b0 <= 0xdf {
        2
    } else if b0 <= 0xef {
        3
    } else if b0 <= 0xf4 {
        4
    } else {
        0
    };
    if k == 0 || n >= k {
        return false;
    }
    if n >= 2 && !second_byte_ok(b0, s[from + 1]) {
        return false;
    }
    if n >= 3 && !(0x80 <= s[from + 2] && s[from + 2] <= 0xbf) {
        return false;
    }
    true
}

/// Relies on `core::str::from_utf8`: it succeeds exactly on valid UTF-8
/// and yields the characters that the bytes encode, as `vstd::utf8`
/// specifies them.
#[verifier::external_body]
pub fn bytes_to_string(v: &[u8]) -> (r: Option<String>)
    ensures
        r is Some <==> valid_utf8(v@),
        r matches Some(s) ==> s@ == decode_utf8(v@),
{
    match core::str::from_utf8(v) {
        Ok(s) => Some(s.to_owned()),
        Err(_) => None,
    }
}

} // verus!
