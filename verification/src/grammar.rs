//! Byte-level building blocks of the wire grammar: ASCII whitespace,
//! the token character set for header field names, lower-casing of field
//! names, CRLF search, trimming, and whitespace tokenization.

use vstd::prelude::*;

verus! {

/// Carriage return.
pub const CR: u8 = 13;

/// Line feed.
pub const LF: u8 = 10;

/// ASCII whitespace: tab, line feed, form feed, carriage return, space.
pub open spec fn is_ws(b: u8) -> bool {
    b == 9 || b == 10 || b == 12 || b == 13 || b == 32
}

/// Executable form of [`is_ws`].
pub fn ws_byte(b: u8) -> (r: bool)
    ensures
        r == is_ws(b),
{
    b == 9 || b == 10 || b == 12 || b == 13 || b == 32
}

/// Characters allowed in a header field name: letters, digits, and
/// `! # $ % & ' * + - . ^ _ ` | ~`.
pub open spec fn is_tchar(b: u8) -> bool {
    ||| 0x30 <= b <= 0x39  // digits
    ||| 0x41 <= b <= 0x5a  // upper-case letters
    ||| 0x61 <= b <= 0x7a  // lower-case letters
    ||| b == 0x21 || b == 0x23 || b == 0x24 || b == 0x25 || b == 0x26 || b == 0x27
    ||| b == 0x2a || b == 0x2b || b == 0x2d || b == 0x2e
    ||| b == 0x5e || b == 0x5f || b == 0x60 || b == 0x7c || b == 0x7e
}

/// Executable form of [`is_tchar`].
pub fn tchar_byte(b: u8) -> (r: bool)
    ensures
        r == is_tchar(b),
{
    (0x30 <= b && b <= 0x39) || (0x41 <= b && b <= 0x5a) || (0x61 <= b && b <= 0x7a) || b == 0x21
        || b == 0x23 || b == 0x24 || b == 0x25 || b == 0x26 || b == 0x27 || b == 0x2a || b == 0x2b
        || b == 0x2d || b == 0x2e || b == 0x5e || b == 0x5f || b == 0x60 || b == 0x7c || b == 0x7e
}

/// A field name is one or more token characters.
pub open spec fn valid_field_name_bytes(s: Seq<u8>) -> bool {
    s.len() >= 1 && forall|i: int| 0 <= i < s.len() ==> is_tchar(#[trigger] s[i])
}

/// True when some byte of `s` is ASCII whitespace.
pub open spec fn contains_ws(s: Seq<u8>) -> bool {
    exists|i: int| 0 <= i < s.len() && is_ws(#[trigger] s[i])
}

/// ASCII lower-casing of one byte.
pub open spec fn lower_byte(b: u8) -> u8 {
    if 0x41 <= b <= 0x5a {
        (b + 32) as u8
    } else {
        b
    }
}

/// ASCII lower-casing of a byte sequence.
pub open spec fn lower(s: Seq<u8>) -> Seq<u8> {
    s.map_values(|b: u8| lower_byte(b))
}

/// Copies `s[from..to]` into a fresh vector, lower-casing every byte.
pub fn lower_range(s: &[u8], from: usize, to: usize) -> (r: Vec<u8>)
    requires
        from <= to <= s@.len(),
    ensures
        r@ == lower(s@.subrange(from as int, to as int)),
{
    let mut out: Vec<u8> = Vec::new();
    let mut i: usize = from;
    while i < to
        invariant
            from <= i <= to <= s@.len(),
            out@ == lower(s@.subrange(from as int, i as int)),
        decreases to - i,
    {
        let b = s[i];
        if 0x41 <= b && b <= 0x5a {
            out.push(b + 32);
        } else {
            out.push(b);
        }
        proof {
            assert(s@.subrange(from as int, i + 1 as int) =~= s@.subrange(from as int, i as int)
                + seq![s@[i as int]]);
            assert(out@ =~= lower(s@.subrange(from as int, i + 1 as int)));
        }
        i = i + 1;
    }
    out
}

/// Copies `s[from..to]` into a fresh vector.
pub fn copy_range(s: &[u8], from: usize, to: usize) -> (r: Vec<u8>)
    requires
        from <= to <= s@.len(),
    ensures
        r@ == s@.subrange(from as int, to as int),
{
    let mut out: Vec<u8> = Vec::new();
    let mut i: usize = from;
    while i < to
        invariant
            from <= i <= to <= s@.len(),
            out@ == s@.subrange(from as int, i as int),
        decreases to - i,
    {
        out.push(s[i]);
        proof {
            assert(s@.subrange(from as int, i + 1 as int) =~= s@.subrange(from as int, i as int)
                + seq![s@[i as int]]);
        }
        i = i + 1;
    }
    out
}

/// True when `s[i]` and `s[i + 1]` are CR LF.
pub open spec fn crlf_at(s: Seq<u8>, i: int) -> bool {
    0 <= i && i + 2 <= s.len() && s[i] == CR && s[i + 1] == LF
}

/// The position of the first CRLF in `s`, if any.
pub open spec fn find_crlf(s: Seq<u8>) -> Option<int>
    decreases s.len(),
{
    if s.len() < 2 {
        None
    } else if s[0] == CR && s[1] == LF {
        Some(0)
    } else {
        match find_crlf(s.drop_first()) {
            Some(i) => Some(i + 1),
            None => None,
        }
    }
}

/// `find_crlf` returns the first CRLF position and nothing else.
pub proof fn lemma_find_crlf(s: Seq<u8>)
    ensures
        match find_crlf(s) {
            Some(n) => crlf_at(s, n) && forall|j: int| 0 <= j < n ==> !crlf_at(s, j),
            None => forall|j: int| !crlf_at(s, j),
        },
    decreases s.len(),
{
    if s.len() < 2 {
    } else if s[0] == CR && s[1] == LF {
    } else {
        lemma_find_crlf(s.drop_first());
        let t = s.drop_first();
        assert forall|j: int| crlf_at(s, j) && j >= 1 implies crlf_at(t, j - 1) by {
            assert(t[j - 1] == s[j]);
            assert(t[j] == s[j + 1]);
        }
        assert forall|j: int| crlf_at(t, j) implies crlf_at(s, j + 1) by {
            assert(s[j + 1] == t[j]);
            assert(s[j + 2] == t[j + 1]);
        }
        match find_crlf(t) {
            Some(i) => {
                assert(crlf_at(s, i + 1));
                assert forall|j: int| 0 <= j < i + 1 implies !crlf_at(s, j) by {
                    if j >= 1 && crlf_at(s, j) {
                        assert(crlf_at(t, j - 1));
                    }
                }
            },
            None => {
                assert forall|j: int| !crlf_at(s, j) by {
                    if j >= 1 && crlf_at(s, j) {
                        assert(crlf_at(t, j - 1));
                    }
                }
            },
        }
    }
}

/// A first CRLF found in a prefix is the first CRLF of any extension.
pub proof fn lemma_find_crlf_prefix(s: Seq<u8>, p: Seq<u8>)
    requires
        p.len() <= s.len(),
        p == s.take(p.len() as int),
        find_crlf(p) is Some,
    ensures
        find_crlf(s) == find_crlf(p),
{
    lemma_find_crlf(p);
    lemma_find_crlf(s);
    let n = find_crlf(p)->Some_0;
    assert(crlf_at(s, n));
    assert forall|j: int| 0 <= j < n implies !crlf_at(s, j) by {
        if crlf_at(s, j) {
            assert(crlf_at(p, j));
        }
    }
    match find_crlf(s) {
        Some(m) => {
            if m < n {
                assert(crlf_at(p, m));
            }
            if m > n {
                assert(!crlf_at(s, n));
            }
        },
        None => {
            assert(!crlf_at(s, n));
        },
    }
}

/// Finds the first CRLF in `s[..limit]`.
pub fn scan_crlf(s: &[u8], limit: usize) -> (r: Option<usize>)
    requires
        limit <= s@.len(),
    ensures
        match r {
            Some(n) => find_crlf(s@.take(limit as int)) == Some(n as int) && n + 2 <= limit,
            None => find_crlf(s@.take(limit as int)) is None,
        },
{
    proof {
        lemma_find_crlf(s@.take(limit as int));
    }
    let ghost p = s@.take(limit as int);
    if limit < 2 {
        return None;
    }
    let mut i: usize = 0;
    while i <= limit - 2
        invariant
            limit <= s@.len(),
            p == s@.take(limit as int),
            2 <= limit,
            i <= limit - 1,
            forall|j: int| 0 <= j < i ==> !crlf_at(p, j),
        decreases limit - i,
    {
        if s[i] == CR && s[i + 1] == LF {
            proof {
                lemma_find_crlf(p);
                assert(p[i as int] == s@[i as int]);
                assert(p[i + 1] == s@[i + 1]);
                assert(crlf_at(p, i as int));
                match find_crlf(p) {
                    Some(n) => {
                        if n < i {
                            assert(!crlf_at(p, n));
                        }
                        if n > i {
                            assert(!crlf_at(p, i as int));
                        }
                    },
                    None => {
                        assert(!crlf_at(p, i as int));
                    },
                }
            }
            return Some(i);
        }
        proof {
            assert(!crlf_at(p, i as int)) by {
                assert(p[i as int] == s@[i as int]);
                assert(p[i + 1] == s@[i + 1]);
            }
        }
        i = i + 1;
    }
    proof {
        lemma_find_crlf(p);
        assert forall|j: int| !crlf_at(p, j) by {
            if 0 <= j && j + 2 <= p.len() {
                assert(!crlf_at(p, j));
            }
        }
        match find_crlf(p) {
            Some(n) => {
                assert(!crlf_at(p, n));
            },
            None => {},
        }
    }
    None
}

/// `s` with leading ASCII whitespace removed.
pub open spec fn trim_front(s: Seq<u8>) -> Seq<u8>
    decreases s.len(),
{
    if s.len() > 0 && is_ws(s[0]) {
        trim_front(s.drop_first())
    } else {
        s
    }
}

/// `s` with trailing ASCII whitespace removed.
pub open spec fn trim_back(s: Seq<u8>) -> Seq<u8>
    decreases s.len(),
{
    if s.len() > 0 && is_ws(s.last()) {
        trim_back(s.drop_last())
    } else {
        s
    }
}

/// `s` with surrounding ASCII whitespace removed.
pub open spec fn trim(s: Seq<u8>) -> Seq<u8> {
    trim_back(trim_front(s))
}

/// Computes the bounds of `trim` applied to `s[from..to]`.
pub fn trim_range(s: &[u8], from: usize, to: usize) -> (r: (usize, usize))
    requires
        from <= to <= s@.len(),
    ensures
        from <= r.0 <= r.1 <= to,
        trim(s@.subrange(from as int, to as int)) == s@.subrange(r.0 as int, r.1 as int),
        forall|j: int| from <= j < r.0 ==> is_ws(#[trigger] s@[j]),
        forall|j: int| r.1 <= j < to ==> is_ws(#[trigger] s@[j]),
{
    let ghost t = s@.subrange(from as int, to as int);
    let mut a: usize = from;
    while a < to && ws_byte(s[a])
        invariant
            from <= a <= to <= s@.len(),
            t == s@.subrange(from as int, to as int),
            trim_front(t) == trim_front(s@.subrange(a as int, to as int)),
            forall|j: int| from <= j < a ==> is_ws(#[trigger] s@[j]),
        decreases to - a,
    {
        proof {
            assert(s@.subrange(a as int, to as int).drop_first() =~= s@.subrange(
                a + 1 as int,
                to as int,
            ));
        }
        a = a + 1;
    }
    proof {
        assert(trim_front(t) == s@.subrange(a as int, to as int)) by {
            if a < to {
                assert(!is_ws(s@.subrange(a as int, to as int)[0]));
            }
        }
    }
    let mut b: usize = to;
    while b > a && ws_byte(s[b - 1])
        invariant
            from <= a <= b <= to <= s@.len(),
            t == s@.subrange(from as int, to as int),
            trim_front(t) == s@.subrange(a as int, to as int),
            trim_back(s@.subrange(a as int, to as int)) == trim_back(
                s@.subrange(a as int, b as int),
            ),
            forall|j: int| b <= j < to ==> is_ws(#[trigger] s@[j]),
        decreases b,
    {
        proof {
            assert(s@.subrange(a as int, b as int).drop_last() =~= s@.subrange(
                a as int,
                b - 1 as int,
            ));
            assert(s@.subrange(a as int, b as int).last() == s@[b - 1]);
        }
        b = b - 1;
    }
    proof {
        assert(trim_back(s@.subrange(a as int, b as int)) == s@.subrange(a as int, b as int)) by {
            if b > a {
                assert(s@.subrange(a as int, b as int).last() == s@[b - 1]);
            }
        }
    }
    (a, b)
}

/// Length of the run of non-whitespace bytes at the front of `s`.
pub open spec fn token_len(s: Seq<u8>) -> int
    decreases s.len(),
{
    if s.len() > 0 && !is_ws(s[0]) {
        1 + token_len(s.drop_first())
    } else {
        0
    }
}

/// Bounds and content of the front token measured by [`token_len`].
pub proof fn lemma_token_len(s: Seq<u8>)
    ensures
        0 <= token_len(s) <= s.len(),
        forall|j: int| 0 <= j < token_len(s) ==> !is_ws(#[trigger] s[j]),
        token_len(s) < s.len() ==> is_ws(s[token_len(s)]),
    decreases s.len(),
{
    if s.len() > 0 && !is_ws(s[0]) {
        lemma_token_len(s.drop_first());
        let t = s.drop_first();
        assert forall|j: int| 0 <= j < token_len(s) implies !is_ws(#[trigger] s[j]) by {
            if j >= 1 {
                assert(!is_ws(t[j - 1]));
            }
        }
        if token_len(s) < s.len() {
            assert(s[token_len(s)] == t[token_len(t)]);
        }
    }
}

/// `token_len` is pinned down by its first-run characterisation.
pub proof fn lemma_token_len_is(s: Seq<u8>, k: int)
    requires
        0 <= k <= s.len(),
        forall|j: int| 0 <= j < k ==> !is_ws(#[trigger] s[j]),
        k < s.len() ==> is_ws(s[k]),
    ensures
        token_len(s) == k,
    decreases k,
{
    if k == 0 {
    } else {
        let t = s.drop_first();
        assert forall|j: int| 0 <= j < k - 1 implies !is_ws(#[trigger] t[j]) by {
            assert(t[j] == s[j + 1]);
        }
        if k - 1 < t.len() {
            assert(t[k - 1] == s[k]);
        }
        lemma_token_len_is(t, k - 1);
    }
}

/// The ASCII-whitespace tokenization of `s`: maximal runs of
/// non-whitespace bytes, in order.
pub open spec fn split_ws(s: Seq<u8>) -> Seq<Seq<u8>>
    decreases s.len(),
    via split_ws_decreases
{
    if s.len() == 0 {
        Seq::empty()
    } else if is_ws(s[0]) {
        split_ws(s.drop_first())
    } else {
        seq![s.take(token_len(s))] + split_ws(s.skip(token_len(s)))
    }
}

#[via_fn]
proof fn split_ws_decreases(s: Seq<u8>) {
    lemma_token_len(s);
}

/// Locates the first whitespace-separated token of `s[from..to]`.
pub fn first_token_range(s: &[u8], from: usize, to: usize) -> (r: Option<(usize, usize)>)
    requires
        from <= to <= s@.len(),
    ensures
        match r {
            None => split_ws(s@.subrange(from as int, to as int)) == Seq::<Seq<u8>>::empty(),
            Some((a, b)) => {
                &&& from <= a < b <= to
                &&& split_ws(s@.subrange(from as int, to as int)) == seq![
                    s@.subrange(a as int, b as int),
                ] + split_ws(s@.subrange(b as int, to as int))
                &&& forall|j: int| a <= j < b ==> !is_ws(#[trigger] s@[j])
                &&& (a == from || is_ws(s@[a - 1]))
                &&& (b == to || is_ws(s@[b as int]))
            },
        },
{
    let mut a: usize = from;
    while a < to && ws_byte(s[a])
        invariant
            from <= a <= to <= s@.len(),
            split_ws(s@.subrange(from as int, to as int)) == split_ws(
                s@.subrange(a as int, to as int),
            ),
            a == from || is_ws(s@[a - 1]),
        decreases to - a,
    {
        proof {
            assert(s@.subrange(a as int, to as int).drop_first() =~= s@.subrange(
                a + 1 as int,
                to as int,
            ));
        }
        a = a + 1;
    }
    if a == to {
        return None;
    }
    let mut b: usize = a + 1;
    while b < to && !ws_byte(s[b])
        invariant
            from <= a < b <= to <= s@.len(),
            forall|j: int| a <= j < b ==> !is_ws(#[trigger] s@[j]),
        decreases to - b,
    {
        b = b + 1;
    }
    proof {
        let rest = s@.subrange(a as int, to as int);
        assert forall|j: int| 0 <= j < b - a implies !is_ws(#[trigger] rest[j]) by {
            assert(rest[j] == s@[a + j]);
        }
        if b < to {
            assert(rest[b - a] == s@[b as int]);
        }
        lemma_token_len_is(rest, b - a);
        assert(rest.take(token_len(rest)) =~= s@.subrange(a as int, b as int));
        assert(rest.skip(token_len(rest)) =~= s@.subrange(b as int, to as int));
    }
    Some((a, b))
}

/// The position of the first occurrence of `b` in `s`, if any.
pub open spec fn find_byte(s: Seq<u8>, b: u8) -> Option<int>
    decreases s.len(),
{
    if s.len() == 0 {
        None
    } else if s[0] == b {
        Some(0)
    } else {
        match find_byte(s.drop_first(), b) {
            Some(i) => Some(i + 1),
            None => None,
        }
    }
}

/// `find_byte` returns the first occurrence and nothing else.
pub proof fn lemma_find_byte(s: Seq<u8>, b: u8)
    ensures
        match find_byte(s, b) {
            Some(n) => 0 <= n < s.len() && s[n] == b && forall|j: int| 0 <= j < n ==> s[j] != b,
            None => forall|j: int| 0 <= j < s.len() ==> s[j] != b,
        },
    decreases s.len(),
{
    if s.len() == 0 {
    } else if s[0] == b {
    } else {
        lemma_find_byte(s.drop_first(), b);
        let t = s.drop_first();
        assert(forall|j: int| 0 <= j < t.len() ==> #[trigger] t[j] == s[j + 1]);
        match find_byte(t, b) {
            Some(i) => {
                assert forall|j: int| 0 <= j < i + 1 implies s[j] != b by {
                    if j >= 1 {
                        assert(t[j - 1] != b);
                    }
                }
            },
            None => {
                assert forall|j: int| 0 <= j < s.len() implies s[j] != b by {
                    if j >= 1 {
                        assert(t[j - 1] != b);
                    }
                }
            },
        }
    }
}

/// Finds the first occurrence of `b` in `s[from..to]`.
pub fn scan_byte(s: &[u8], from: usize, to: usize, b: u8) -> (r: Option<usize>)
    requires
        from <= to <= s@.len(),
    ensures
        match r {
            Some(n) => find_byte(s@.subrange(from as int, to as int), b) == Some(n - from as int)
                && from <= n < to && s@[n as int] == b,
            None => find_byte(s@.subrange(from as int, to as int), b) is None,
        },
{
    let ghost p = s@.subrange(from as int, to as int);
    let mut i: usize = from;
    while i < to
        invariant
            from <= i <= to <= s@.len(),
            p == s@.subrange(from as int, to as int),
            forall|j: int| 0 <= j < i - from ==> p[j] != b,
        decreases to - i,
    {
        if s[i] == b {
            proof {
                lemma_find_byte(p, b);
                assert(p[i - from] == s@[i as int]);
                match find_byte(p, b) {
                    Some(n) => {
                        if n < i - from {
                            assert(p[n] != b);
                        }
                        if n > i - from {
                            assert(p[i - from] != b);
                        }
                    },
                    None => {
                        assert(p[i - from] != b);
                    },
                }
            }
            return Some(i);
        }
        proof {
            assert(p[i - from] == s@[i as int]);
        }
        i = i + 1;
    }
    proof {
        lemma_find_byte(p, b);
        match find_byte(p, b) {
            Some(n) => {
                assert(p[n] != b);
            },
            None => {},
        }
    }
    None
}

/// Scans `s[from..to]` for whitespace and non-token bytes in one pass:
/// the first component reports whitespace anywhere in the range, the
/// second that every byte belongs to the token character set.
pub fn scan_name(s: &[u8], from: usize, to: usize) -> (r: (bool, bool))
    requires
        from <= to <= s@.len(),
    ensures
        r.0 == contains_ws(s@.subrange(from as int, to as int)),
        r.1 == (to > from && forall|j: int|
            from <= j < to ==> is_tchar(#[trigger] s@[j])),
{
    let ghost p = s@.subrange(from as int, to as int);
    let mut has_ws = false;
    let mut all_tchar = to > from;
    let mut i: usize = from;
    while i < to
        invariant
            from <= i <= to <= s@.len(),
            p == s@.subrange(from as int, to as int),
            has_ws == exists|j: int| 0 <= j < i - from && is_ws(#[trigger] p[j]),
            all_tchar == (to > from && forall|j: int| from <= j < i ==> is_tchar(#[trigger] s@[j])),
        decreases to - i,
    {
        let c = s[i];
        proof {
            assert(p[i - from] == s@[i as int]);
        }
        if ws_byte(c) {
            proof {
                assert(is_ws(p[i - from]));
            }
            has_ws = true;
        }
        if !tchar_byte(c) {
            all_tchar = false;
        }
        i = i + 1;
    }
    proof {
        if has_ws {
            let j = choose|j: int| 0 <= j < p.len() && is_ws(#[trigger] p[j]);
            assert(contains_ws(p));
        }
        if contains_ws(p) {
            let j = choose|j: int| 0 <= j < p.len() && is_ws(#[trigger] p[j]);
            assert(is_ws(p[j]));
        }
    }
    (has_ws, all_tchar)
}

/// Lower-casing is idempotent and preserves the token grammar.
pub proof fn lemma_lower_props(s: Seq<u8>)
    ensures
        lower(lower(s)) == lower(s),
        valid_field_name_bytes(s) ==> valid_field_name_bytes(lower(s)),
{
    assert(lower(lower(s)) =~= lower(s)) by {
        assert forall|i: int| 0 <= i < s.len() implies lower(s)[i] == lower_byte(s[i]) by {}
    }
    if valid_field_name_bytes(s) {
        assert forall|i: int| 0 <= i < lower(s).len() implies is_tchar(#[trigger] lower(s)[i]) by {
            assert(is_tchar(s[i]));
            assert(lower(s)[i] == lower_byte(s[i]));
        }
    }
}

} // verus!
