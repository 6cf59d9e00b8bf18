//! The header map: a case-insensitive accumulation of header fields.
//!
//! One call to [`Headers::parse`] consumes at most one raw header line.
//! Field names are validated against the token grammar and stored
//! lower-cased; a repeated name appends `", "` and the new value to the
//! stored value, preserving arrival order.

use vstd::prelude::*;
use vstd::utf8::{decode_utf8, valid_utf8};

use crate::encoding::{
    bytes_to_string, lemma_ascii_next_boundary, lemma_boundary_not_cont, lemma_sub_valid,
    lemma_vp, utf8_valid_prefix,
};
use crate::error::ParseError;
use crate::grammar::{
    contains_ws, find_byte, find_crlf, is_tchar, is_ws, lemma_find_byte, lemma_find_crlf,
    lemma_lower_props, lower,
    lower_range, copy_range, scan_byte, scan_crlf, scan_name, trim, trim_range,
    valid_field_name_bytes, CR,
};

verus! {

/// The separator placed between accumulated values of a repeated field.
pub open spec fn join_sep() -> Seq<u8> {
    seq![44u8, 32u8]
}

/// The value stored under `k`, if any.
pub open spec fn spec_get(m: Seq<(Seq<u8>, Seq<u8>)>, k: Seq<u8>) -> Option<Seq<u8>>
    decreases m.len(),
{
    if m.len() == 0 {
        None
    } else if m[0].0 == k {
        Some(m[0].1)
    } else {
        spec_get(m.drop_first(), k)
    }
}

/// Recording `v` under `k`: a fresh key is appended, a present key keeps
/// its place and has `", "` and `v` appended to its value.
pub open spec fn spec_insert(m: Seq<(Seq<u8>, Seq<u8>)>, k: Seq<u8>, v: Seq<u8>) -> Seq<
    (Seq<u8>, Seq<u8>),
>
    decreases m.len(),
{
    if m.len() == 0 {
        seq![(k, v)]
    } else if m[0].0 == k {
        seq![(m[0].0, m[0].1 + join_sep() + v)] + m.drop_first()
    } else {
        seq![m[0]] + spec_insert(m.drop_first(), k, v)
    }
}

/// Well-formedness of the stored map: keys are distinct, non-empty,
/// lower-case token names; values are valid UTF-8.
pub open spec fn hdrs_wf(m: Seq<(Seq<u8>, Seq<u8>)>) -> bool {
    &&& forall|i: int, j: int| 0 <= i < j < m.len() ==> (#[trigger] m[i]).0 != (#[trigger] m[j]).0
    &&& forall|i: int|
        0 <= i < m.len() ==> valid_field_name_bytes((#[trigger] m[i]).0) && m[i].0 == lower(
            m[i].0,
        ) && valid_utf8(m[i].1)
}

/// What one call to [`Headers::parse`] does, as a function of the stored
/// map and the input bytes: consumed count, completion flag, error, and
/// the new map.
pub open spec fn spec_headers_parse(m: Seq<(Seq<u8>, Seq<u8>)>, data: Seq<u8>) -> (
    int,
    bool,
    Option<ParseError>,
    Seq<(Seq<u8>, Seq<u8>)>,
) {
    if !valid_utf8(data) {
        (0int, false, Some(ParseError::InvalidEncoding), m)
    } else {
        match find_crlf(data) {
            None => (0int, false, None, m),
            Some(n) => if n == 0 {
                (2int, true, None, m)
            } else {
                let t = trim(data.take(n));
                match find_byte(t, 58) {
                    None => (0int, false, Some(ParseError::MalformedHeaderLine), m),
                    Some(c) => {
                        let name = t.take(c);
                        let value = trim(t.skip(c + 1));
                        if contains_ws(name) {
                            (0int, false, Some(ParseError::MalformedHeaderLine), m)
                        } else if !valid_field_name_bytes(name) {
                            (0int, false, Some(ParseError::InvalidFieldName), m)
                        } else {
                            (n + 2, false, None, spec_insert(m, lower(name), value))
                        }
                    },
                }
            },
        }
    }
}

/// A map of parsed header fields, keyed by lower-cased field name.
#[derive(Debug)]
pub struct Headers {
    pairs: Vec<(Vec<u8>, Vec<u8>)>,
}

impl View for Headers {
    type V = Seq<(Seq<u8>, Seq<u8>)>;

    closed spec fn view(&self) -> Seq<(Seq<u8>, Seq<u8>)> {
        self.pairs@.map_values(|p: (Vec<u8>, Vec<u8>)| (p.0@, p.1@))
    }
}

impl Headers {
    /// The stored map is well-formed.
    pub open spec fn wf(&self) -> bool {
        hdrs_wf(self@)
    }

    /// An empty header map.
    pub fn new() -> (r: Headers)
        ensures
            r@ == Seq::<(Seq<u8>, Seq<u8>)>::empty(),
            r.wf(),
    {
        let r = Headers { pairs: Vec::new() };
        proof {
            assert(r@ =~= Seq::<(Seq<u8>, Seq<u8>)>::empty());
        }
        r
    }

    /// Whether `field_name` is an acceptable header field name: one or
    /// more bytes, all from the token character set.
    pub fn is_valid_field_name(field_name: &str) -> (r: bool)
        ensures
            r == valid_field_name_bytes(vstd::utf8::encode_utf8(field_name@)),
    {
        let bytes = field_name.as_bytes();
        let (_, all_tchar) = scan_name(bytes, 0, bytes.len());
        proof {
            assert(bytes@.subrange(0, bytes@.len() as int) =~= bytes@);
        }
        all_tchar
    }

    /// Looks a field up by name, case-insensitively, returning the
    /// accumulated value.
    #[verifier::loop_isolation(false)]
    pub fn get(&self, key: &str) -> (r: Option<String>)
        requires
            self.wf(),
        ensures
            match spec_get(self@, lower(vstd::utf8::encode_utf8(key@))) {
                None => r is None,
                Some(v) => r matches Some(s) && s@ == decode_utf8(v),
            },
    {
        let kb = key.as_bytes();
        let needle = lower_range(kb, 0, kb.len());
        proof {
            assert(kb@.subrange(0, kb@.len() as int) =~= kb@);
        }
        let ghost k = lower(vstd::utf8::encode_utf8(key@));
        let mut i: usize = 0;
        while i < self.pairs.len()
            invariant
                self.wf(),
                needle@ == k,
                i <= self.pairs@.len(),
                self@.len() == self.pairs@.len(),
                forall|j: int| 0 <= j < self@.len() ==> #[trigger] self@[j] == (
                    self.pairs@[j].0@,
                    self.pairs@[j].1@,
                ),
                forall|j: int| 0 <= j < i ==> (#[trigger] self@[j]).0 != k,
            decreases self.pairs@.len() - i,
        {
            if bytes_eq(&self.pairs[i].0, &needle) {
                proof {
                    lemma_spec_get_found(self@, k, i as int);
                    assert(valid_utf8(self@[i as int].1));
                }
                let s = bytes_to_string(self.pairs[i].1.as_slice());
                match s {
                    Some(s) => {
                        return Some(s);
                    },
                    None => {
                        // the stored value is valid UTF-8 by the map invariant
                        return vstd::pervasive::unreached();
                    },
                }
            }
            i = i + 1;
        }
        proof {
            lemma_spec_get_none(self@, k);
        }
        None
    }

    /// Consumes at most one header line from the front of `data`,
    /// returning how many bytes were consumed, whether the empty
    /// terminator line was reached, and any error.
    #[verifier::rlimit(50)]
    pub fn parse(&mut self, data: &[u8]) -> (r: (usize, bool, Option<ParseError>))
        requires
            old(self).wf(),
        ensures
            final(self).wf(),
            ({
                let (c, done, err, m2) = spec_headers_parse(old(self)@, data@);
                &&& r.0 as int == c
                &&& r.1 == done
                &&& r.2 == err
                &&& final(self)@ == m2
            }),
            r.0 <= data@.len(),
    {
        let vp = utf8_valid_prefix(data);
        proof {
            lemma_vp(data@);
        }
        if vp != data.len() {
            return (0, false, Some(ParseError::InvalidEncoding));
        }
        let nl = match scan_crlf(data, data.len()) {
            None => {
                proof {
                    assert(data@.take(data@.len() as int) =~= data@);
                }
                return (0, false, None);
            },
            Some(nl) => {
                proof {
                    assert(data@.take(data@.len() as int) =~= data@);
                }
                nl
            },
        };
        if nl == 0 {
            return (2, true, None);
        }
        let ghost line = data@.take(nl as int);
        let (a, b) = trim_range(data, 0, nl);
        proof {
            assert(data@.subrange(0, nl as int) == line);
        }
        let ghost t = trim(line);
        let c_abs = match scan_byte(data, a, b, 58) {
            None => {
                return (0, false, Some(ParseError::MalformedHeaderLine));
            },
            Some(c) => c,
        };
        proof {
            assert(t == data@.subrange(a as int, b as int));
            lemma_find_byte(t, 58);
        }
        let ghost c_rel = c_abs - a as int;
        proof {
            assert(t.take(c_rel) =~= data@.subrange(a as int, c_abs as int));
        }
        let (has_ws, all_tchar) = scan_name(data, a, c_abs);
        if has_ws {
            return (0, false, Some(ParseError::MalformedHeaderLine));
        }
        if !all_tchar {
            proof {
                let name = t.take(c_rel);
                if valid_field_name_bytes(name) {
                    assert forall|j: int| a <= j < c_abs implies is_tchar(#[trigger] data@[j]) by {
                        assert(name[j - a] == data@[j]);
                    }
                    assert(c_abs > a) by {
                        assert(name.len() >= 1);
                    }
                }
            }
            return (0, false, Some(ParseError::InvalidFieldName));
        }
        proof {
            let name = t.take(c_rel);
            assert(valid_field_name_bytes(name)) by {
                assert forall|j: int| 0 <= j < name.len() implies is_tchar(#[trigger] name[j]) by {
                    assert(name[j] == data@[a + j]);
                }
            }
            assert(!contains_ws(name)) by {
                if contains_ws(name) {
                    let j = choose|j: int| 0 <= j < name.len() && is_ws(#[trigger] name[j]);
                    assert(name[j] == data@[a + j]);
                    assert(contains_ws(data@.subrange(a as int, c_abs as int)));
                }
            }
        }
        let (va, vb) = trim_range(data, c_abs + 1, b);
        proof {
            assert(t.skip(c_rel + 1) =~= data@.subrange(c_abs + 1, b as int));
            assert(trim(t.skip(c_rel + 1)) == data@.subrange(va as int, vb as int));
        }
        let key = lower_range(data, a, c_abs);
        let value = copy_range(data, va, vb);
        proof {
            lemma_lower_props(data@.subrange(a as int, c_abs as int));
        }
        proof {
            // the value sits between ASCII delimiters, so it is valid UTF-8
            assert(valid_utf8(value@)) by {
                assert(data@[va - 1] == 58 || is_ws(data@[va - 1]));
                lemma_ascii_next_boundary(data@, va - 1);
                assert(vb < data@.len()) by {
                    lemma_find_crlf(data@);
                }
                assert(data@[vb as int] == CR || is_ws(data@[vb as int]) || data@[vb as int] == 58
                    || !vstd::utf8::is_continuation_byte(data@[vb as int])) by {
                    if vb < b {
                        assert(is_ws(data@[vb as int]));
                    } else if vb < nl {
                        assert(is_ws(data@[vb as int]));
                    } else {
                        lemma_find_crlf(data@);
                        assert(data@[nl as int] == CR);
                    }
                }
                lemma_boundary_not_cont(data@, vb as int);
                lemma_sub_valid(data@, va as int, vb as int);
            }
        }
        self.insert_pair(key, value);
        proof {
            lemma_find_crlf(data@);
        }
        (nl + 2, false, None)
    }

    /// Records `value` under `key` as [`spec_insert`] describes.
    #[verifier::loop_isolation(false)]
    fn insert_pair(&mut self, key: Vec<u8>, value: Vec<u8>)
        requires
            old(self).wf(),
            valid_field_name_bytes(key@),
            key@ == lower(key@),
            valid_utf8(value@),
        ensures
            final(self).wf(),
            final(self)@ == spec_insert(old(self)@, key@, value@),
    {
        proof {
            lemma_spec_insert_wf(old(self)@, key@, value@);
        }
        let ghost m0 = self@;
        let mut i: usize = 0;
        while i < self.pairs.len()
            invariant
                self@ == m0,
                self@.len() == self.pairs@.len(),
                forall|j: int| 0 <= j < self@.len() ==> #[trigger] self@[j] == (
                    self.pairs@[j].0@,
                    self.pairs@[j].1@,
                ),
                i <= self.pairs@.len(),
                forall|j: int| 0 <= j < i ==> (#[trigger] self@[j]).0 != key@,
            decreases self.pairs@.len() - i,
        {
            if bytes_eq(&self.pairs[i].0, &key) {
                proof {
                    lemma_spec_insert_found(m0, key@, value@, i as int);
                }
                let ghost target = m0[i as int].1 + join_sep() + value@;
                let mut nv: Vec<u8> = Vec::new();
                let mut vi: usize = 0;
                let old_len = self.pairs[i].1.len();
                while vi < old_len
                    invariant
                        self@ == m0,
                        0 <= i < self.pairs@.len(),
                        self@.len() == self.pairs@.len(),
                        forall|j: int| 0 <= j < self@.len() ==> #[trigger] self@[j] == (
                            self.pairs@[j].0@,
                            self.pairs@[j].1@,
                        ),
                        old_len == self.pairs@[i as int].1@.len(),
                        vi <= old_len,
                        nv@ == self.pairs@[i as int].1@.take(vi as int),
                    decreases old_len - vi,
                {
                    nv.push(self.pairs[i].1[vi]);
                    proof {
                        assert(self.pairs@[i as int].1@.take(vi + 1 as int) =~= self.pairs@[
                            i as int].1@.take(vi as int).push(self.pairs@[i as int].1@[vi as int]));
                    }
                    vi = vi + 1;
                }
                nv.push(44);
                nv.push(32);
                let mut wi: usize = 0;
                let ghost joined = nv@;
                while wi < value.len()
                    invariant
                        wi <= value@.len(),
                        nv@ == joined + value@.take(wi as int),
                    decreases value@.len() - wi,
                {
                    nv.push(value[wi]);
                    proof {
                        assert(joined + value@.take(wi + 1 as int) =~= (joined + value@.take(
                            wi as int,
                        )).push(value@[wi as int]));
                    }
                    wi = wi + 1;
                }
                proof {
                    assert(self.pairs@[i as int].1@.take(old_len as int) =~= self.pairs@[
                        i as int].1@);
                    assert(joined =~= m0[i as int].1 + join_sep());
                    assert(nv@ =~= target);
                }
                self.pairs[i] = (key, nv);
                proof {
                    assert(self@ =~~= m0.update(i as int, (m0[i as int].0, target))) by {
                        assert(key@ == m0[i as int].0);
                    }
                }
                return ;
            }
            i = i + 1;
        }
        proof {
            lemma_spec_insert_absent(m0, key@, value@);
        }
        self.pairs.push((key, value));
        proof {
            assert(self@ =~~= m0.push((key@, value@)));
        }
    }
}

/// Byte-for-byte equality of two vectors.
fn bytes_eq(a: &Vec<u8>, b: &Vec<u8>) -> (r: bool)
    ensures
        r == (a@ == b@),
{
    if a.len() != b.len() {
        return false;
    }
    let mut i: usize = 0;
    while i < a.len()
        invariant
            a@.len() == b@.len(),
            i <= a@.len(),
            forall|j: int| 0 <= j < i ==> a@[j] == b@[j],
        decreases a@.len() - i,
    {
        if a[i] != b[i] {
            return false;
        }
        i = i + 1;
    }
    proof {
        assert(a@ =~= b@);
    }
    true
}

/// `spec_get` finds the first (hence, in a well-formed map, the only)
/// entry with the given key.
pub proof fn lemma_spec_get_found(m: Seq<(Seq<u8>, Seq<u8>)>, k: Seq<u8>, i: int)
    requires
        0 <= i < m.len(),
        m[i].0 == k,
        forall|j: int| 0 <= j < i ==> (#[trigger] m[j]).0 != k,
    ensures
        spec_get(m, k) == Some(m[i].1),
    decreases m.len(),
{
    if i > 0 {
        let t = m.drop_first();
        assert forall|j: int| 0 <= j < i - 1 implies (#[trigger] t[j]).0 != k by {
            assert(t[j] == m[j + 1]);
        }
        lemma_spec_get_found(t, k, i - 1);
    }
}

/// A key under which nothing is stored has no entry.
pub proof fn lemma_spec_get_none(m: Seq<(Seq<u8>, Seq<u8>)>, k: Seq<u8>)
    requires
        forall|j: int| 0 <= j < m.len() ==> (#[trigger] m[j]).0 != k,
    ensures
        spec_get(m, k) is None,
    decreases m.len(),
{
    if m.len() > 0 {
        lemma_spec_get_none(m.drop_first(), k);
    }
}

/// Inserting under a present key updates that entry in place.
pub proof fn lemma_spec_insert_found(m: Seq<(Seq<u8>, Seq<u8>)>, k: Seq<u8>, v: Seq<u8>, i: int)
    requires
        0 <= i < m.len(),
        m[i].0 == k,
        forall|j: int| 0 <= j < i ==> (#[trigger] m[j]).0 != k,
    ensures
        spec_insert(m, k, v) == m.update(i, (m[i].0, m[i].1 + join_sep() + v)),
    decreases m.len(),
{
    if i == 0 {
        assert(spec_insert(m, k, v) =~= m.update(0, (m[0].0, m[0].1 + join_sep() + v)));
    } else {
        let t = m.drop_first();
        assert forall|j: int| 0 <= j < i - 1 implies (#[trigger] t[j]).0 != k by {
            assert(t[j] == m[j + 1]);
        }
        lemma_spec_insert_found(t, k, v, i - 1);
        assert(spec_insert(m, k, v) =~= m.update(i, (m[i].0, m[i].1 + join_sep() + v)));
    }
}

/// Inserting under a fresh key appends a new entry.
pub proof fn lemma_spec_insert_absent(m: Seq<(Seq<u8>, Seq<u8>)>, k: Seq<u8>, v: Seq<u8>)
    requires
        forall|j: int| 0 <= j < m.len() ==> (#[trigger] m[j]).0 != k,
    ensures
        spec_insert(m, k, v) == m.push((k, v)),
    decreases m.len(),
{
    if m.len() == 0 {
        assert(spec_insert(m, k, v) =~= m.push((k, v)));
    } else {
        lemma_spec_insert_absent(m.drop_first(), k, v);
        assert(spec_insert(m, k, v) =~= m.push((k, v)));
    }
}

/// Insertion preserves well-formedness of the map.
pub proof fn lemma_spec_insert_wf(m: Seq<(Seq<u8>, Seq<u8>)>, k: Seq<u8>, v: Seq<u8>)
    requires
        hdrs_wf(m),
        valid_field_name_bytes(k),
        k == lower(k),
        valid_utf8(v),
    ensures
        hdrs_wf(spec_insert(m, k, v)),
{
    if exists|i: int| 0 <= i < m.len() && (#[trigger] m[i]).0 == k {
        let i = choose|i: int| 0 <= i < m.len() && (#[trigger] m[i]).0 == k;
        assert forall|j: int| 0 <= j < i implies (#[trigger] m[j]).0 != k by {
            if m[j].0 == k {
                assert(m[j].0 != m[i].0);
            }
        }
        lemma_spec_insert_found(m, k, v, i);
        let m2 = spec_insert(m, k, v);
        assert(valid_utf8(m[i].1 + join_sep() + v)) by {
            assert(valid_utf8(join_sep())) by {
                assert(vstd::utf8::valid_first_scalar(join_sep()));
                assert(vstd::utf8::pop_first_scalar(join_sep()) =~= seq![32u8]);
                assert(vstd::utf8::valid_first_scalar(seq![32u8]));
                assert(vstd::utf8::pop_first_scalar(seq![32u8]) =~= Seq::<u8>::empty());
                assert(valid_utf8(Seq::<u8>::empty()));
                assert(valid_utf8(seq![32u8]));
            }
            vstd::utf8::valid_utf8_concat(m[i].1, join_sep());
            vstd::utf8::valid_utf8_concat(m[i].1 + join_sep(), v);
        }
    } else {
        assert forall|j: int| 0 <= j < m.len() implies (#[trigger] m[j]).0 != k by {
            if m[j].0 == k {
                assert(exists|i: int| 0 <= i < m.len() && (#[trigger] m[i]).0 == k);
            }
        }
        lemma_spec_insert_absent(m, k, v);
    }
}

/// Sending a field name again appends `", "` and the new value to what is
/// already stored, preserving arrival order.
pub proof fn lemma_repeated_header_joins(m: Seq<(Seq<u8>, Seq<u8>)>, k: Seq<u8>, v: Seq<u8>)
    ensures
        spec_get(m, k) matches Some(v0) ==> spec_get(spec_insert(m, k, v), k) == Some(
            v0 + join_sep() + v,
        ),
    decreases m.len(),
{
    if m.len() == 0 {
    } else if m[0].0 == k {
        let m2 = spec_insert(m, k, v);
        assert(m2[0] == (m[0].0, m[0].1 + join_sep() + v));
    } else {
        lemma_repeated_header_joins(m.drop_first(), k, v);
        let m2 = spec_insert(m, k, v);
        assert(m2.drop_first() =~= spec_insert(m.drop_first(), k, v));
    }
}

/// A fresh field name is stored with its value as given.
pub proof fn lemma_new_header_stored(m: Seq<(Seq<u8>, Seq<u8>)>, k: Seq<u8>, v: Seq<u8>)
    ensures
        spec_get(m, k) is None ==> spec_get(spec_insert(m, k, v), k) == Some(v),
    decreases m.len(),
{
    if m.len() == 0 {
        let m2 = spec_insert(m, k, v);
        assert(m2[0] == (k, v));
    } else if m[0].0 == k {
    } else {
        lemma_new_header_stored(m.drop_first(), k, v);
        let m2 = spec_insert(m, k, v);
        assert(m2.drop_first() =~= spec_insert(m.drop_first(), k, v));
    }
}

/// Lookup is case-insensitive: two spellings of a name that agree after
/// lower-casing find the same entry, since both storage and lookup go
/// through [`lower`].
pub proof fn lemma_get_case_insensitive(m: Seq<(Seq<u8>, Seq<u8>)>, k1: Seq<u8>, k2: Seq<u8>)
    requires
        lower(k1) == lower(k2),
    ensures
        spec_get(m, lower(k1)) == spec_get(m, lower(k2)),
{
}

} // verus!
